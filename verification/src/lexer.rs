//! The lexer: it cuts a text into lines, counts the indentation of each line,
//! and cuts the line into tokens. There are four kinds of token: a bare word,
//! one of five punctuation characters, a literal between double quotes, and a
//! group between matching brackets. What is inside a literal or a group is
//! kept as it was written and never looked into.

use crate::error::{CompileError, ErrorKind};
use crate::text::{chars_of, text_of};
use crate::vecs::{lemma_deep_view_chars, lemma_deep_view_push};
use vstd::prelude::*;

verus! {

/// One token of a line.
#[derive(Debug, PartialEq, Eq)]
pub enum Node {
    /// A bare word.
    Ident(String),
    /// One punctuation character: `.`, `#`, `:`, `=` or `@`.
    Punct(char),
    /// What stands between two double quotes, as it was written.
    Literal(String),
    /// A run from an opening bracket to the bracket that closes it, brackets
    /// included, as it was written.
    Group(String),
}

/// The mathematical model of a `Node`.
pub enum Token {
    Ident(Seq<char>),
    Punct(char),
    Literal(Seq<char>),
    Group(Seq<char>),
}

impl View for Node {
    type V = Token;

    open spec fn view(&self) -> Token {
        match self {
            Node::Ident(text) => Token::Ident(text@),
            Node::Punct(c) => Token::Punct(*c),
            Node::Literal(text) => Token::Literal(text@),
            Node::Group(text) => Token::Group(text@),
        }
    }
}

impl DeepView for Node {
    type V = Token;

    open spec fn deep_view(&self) -> Token {
        self.view()
    }
}

/// The model of a line: how far it is indented, and its tokens.
pub struct LineView {
    pub level: usize,
    pub nodes: Seq<Token>,
}

/// White space: the characters that carry the Unicode property `White_Space`.
pub open spec fn spec_is_space(c: char) -> bool {
    let n = c as u32;
    ||| 0x09 <= n <= 0x0D
    ||| n == 0x20
    ||| n == 0x85
    ||| n == 0xA0
    ||| n == 0x1680
    ||| 0x2000 <= n <= 0x200A
    ||| n == 0x2028
    ||| n == 0x2029
    ||| n == 0x202F
    ||| n == 0x205F
    ||| n == 0x3000
}

/// The punctuation of the language.
pub open spec fn spec_is_punct(c: char) -> bool {
    c == '.' || c == '#' || c == ':' || c == '=' || c == '@'
}

/// A bracket that opens a group.
pub open spec fn spec_is_opener(c: char) -> bool {
    c == '(' || c == '[' || c == '{'
}

/// A bracket that closes a group.
pub open spec fn spec_is_closer(c: char) -> bool {
    c == ')' || c == ']' || c == '}'
}

/// The bracket that closes what `c` opens.
pub open spec fn spec_closer_of(c: char) -> char {
    if c == '(' {
        ')'
    } else if c == '[' {
        ']'
    } else {
        '}'
    }
}

/// A character of a bare word: any character that is no white space, no
/// punctuation, no bracket and no double quote.
pub open spec fn spec_is_word(c: char) -> bool {
    !spec_is_space(c) && !spec_is_punct(c) && !spec_is_opener(c) && !spec_is_closer(c) && c != '"'
}

/// Whether `c` is white space.
#[verifier::when_used_as_spec(spec_is_space)]
pub fn is_space(c: char) -> (b: bool)
    ensures
        b == spec_is_space(c),
{
    let n: u32 = c as u32;
    (0x09 <= n && n <= 0x0D) || n == 0x20 || n == 0x85 || n == 0xA0 || n == 0x1680 || (0x2000 <= n
        && n <= 0x200A) || n == 0x2028 || n == 0x2029 || n == 0x202F || n == 0x205F || n == 0x3000
}

/// Whether `c` is punctuation of the language.
#[verifier::when_used_as_spec(spec_is_punct)]
pub fn is_punct(c: char) -> (b: bool)
    ensures
        b == spec_is_punct(c),
{
    c == '.' || c == '#' || c == ':' || c == '=' || c == '@'
}

/// Whether `c` opens a group.
#[verifier::when_used_as_spec(spec_is_opener)]
pub fn is_opener(c: char) -> (b: bool)
    ensures
        b == spec_is_opener(c),
{
    c == '(' || c == '[' || c == '{'
}

/// Whether `c` closes a group.
#[verifier::when_used_as_spec(spec_is_closer)]
pub fn is_closer(c: char) -> (b: bool)
    ensures
        b == spec_is_closer(c),
{
    c == ')' || c == ']' || c == '}'
}

/// The bracket that closes what `c` opens.
#[verifier::when_used_as_spec(spec_closer_of)]
pub fn closer_of(c: char) -> (d: char)
    ensures
        d == spec_closer_of(c),
{
    if c == '(' {
        ')'
    } else if c == '[' {
        ']'
    } else {
        '}'
    }
}

/// Whether `c` is a character of a bare word.
#[verifier::when_used_as_spec(spec_is_word)]
pub fn is_word(c: char) -> (b: bool)
    ensures
        b == spec_is_word(c),
{
    !is_space(c) && !is_punct(c) && !is_opener(c) && !is_closer(c) && c != '"'
}

/// Where the bare word that starts at `i` ends: the index of the first
/// character from `i` on that is no word character, or the length of `s`.
pub open spec fn word_end(s: Seq<char>, i: int) -> int
    decreases s.len() - i,
{
    if 0 <= i < s.len() && spec_is_word(s[i]) {
        word_end(s, i + 1)
    } else {
        i
    }
}

/// Where the literal whose contents start at `i` ends: the index of the first
/// double quote from `i` on that no backslash stands before. A backslash
/// takes the character behind it along, whatever it is; both stay in the
/// contents. `None` where the line ends first.
pub open spec fn literal_end(s: Seq<char>, i: int) -> Option<int>
    decreases s.len() - i,
{
    if i < 0 || i >= s.len() {
        None
    } else if s[i] == '"' {
        Some(i)
    } else if s[i] == '\\' {
        if i + 1 < s.len() {
            literal_end(s, i + 2)
        } else {
            None
        }
    } else {
        literal_end(s, i + 1)
    }
}

/// Where a group ends, read from `i` on with the closing brackets in `awaited`
/// still to come, the innermost last: the index behind the bracket that
/// closes the outermost. Brackets nest by kind; nothing else inside a group is
/// looked at. `None` where a bracket closes what another kind opened, or the
/// line ends first.
pub open spec fn group_end(s: Seq<char>, i: int, awaited: Seq<char>) -> Option<int>
    decreases s.len() - i,
{
    if i < 0 || i >= s.len() || awaited.len() == 0 {
        None
    } else if spec_is_opener(s[i]) {
        group_end(s, i + 1, awaited.push(spec_closer_of(s[i])))
    } else if spec_is_closer(s[i]) {
        if awaited.last() != s[i] {
            None
        } else if awaited.len() == 1 {
            Some(i + 1)
        } else {
            group_end(s, i + 1, awaited.drop_last())
        }
    } else {
        group_end(s, i + 1, awaited)
    }
}

/// The token that starts at `i`, where `s[i]` is no white space, and the index
/// behind it. `None` where no token starts there: a literal or a group that
/// does not end, or a closing bracket that nothing opened.
pub open spec fn token_at(s: Seq<char>, i: int) -> Option<(Token, int)> {
    let c = s[i];
    if spec_is_punct(c) {
        Some((Token::Punct(c), i + 1))
    } else if c == '"' {
        match literal_end(s, i + 1) {
            Some(end) => Some((Token::Literal(s.subrange(i + 1, end)), end + 1)),
            None => None,
        }
    } else if spec_is_opener(c) {
        match group_end(s, i + 1, seq![spec_closer_of(c)]) {
            Some(end) => Some((Token::Group(s.subrange(i, end)), end)),
            None => None,
        }
    } else if spec_is_closer(c) {
        None
    } else {
        Some((Token::Ident(s.subrange(i, word_end(s, i))), word_end(s, i)))
    }
}

/// `found`, put behind `head`: the tokens behind it, or one more token before
/// the failure.
pub open spec fn after(head: Seq<Token>, found: Result<Seq<Token>, nat>) -> Result<
    Seq<Token>,
    nat,
> {
    match found {
        Ok(rest) => Ok(head + rest),
        Err(n) => Err(head.len() + n),
    }
}

/// The tokens of `s` from `i` on, white space between them left out; or, where
/// the rest of the line is no sequence of tokens, the number of tokens before
/// the place that is none.
pub open spec fn tokens_from(s: Seq<char>, i: int) -> Result<Seq<Token>, nat>
    decreases s.len() - i,
    via tokens_from_decreases
{
    if i < 0 || i >= s.len() {
        Ok(Seq::empty())
    } else if spec_is_space(s[i]) {
        tokens_from(s, i + 1)
    } else {
        match token_at(s, i) {
            Some((token, next)) => after(seq![token], tokens_from(s, next)),
            None => Err(0),
        }
    }
}

#[via_fn]
proof fn tokens_from_decreases(s: Seq<char>, i: int) {
    if 0 <= i < s.len() && !spec_is_space(s[i]) {
        lemma_token_at(s, i);
    }
}

/// The tokens of a line.
pub open spec fn tokens(line: Seq<char>) -> Result<Seq<Token>, nat> {
    tokens_from(line, 0)
}

/// The index of the first character of `s` from `i` on that is no white
/// space, or the length of `s`.
pub open spec fn first_mark(s: Seq<char>, i: int) -> int
    decreases s.len() - i,
{
    if 0 <= i < s.len() && spec_is_space(s[i]) {
        first_mark(s, i + 1)
    } else {
        i
    }
}

/// The level of a line: the number of white space characters before its first
/// character that is none; 0 for a line of white space only.
pub open spec fn indent(line: Seq<char>) -> int {
    let mark = first_mark(line, 0);
    if mark >= line.len() {
        0
    } else {
        mark
    }
}

/// The lines of `s` from `i` on, where `line` holds what has been read of the
/// line that `i` is in.
pub open spec fn lines_from(s: Seq<char>, i: int, line: Seq<char>) -> Seq<Seq<char>>
    decreases s.len() - i,
{
    if i < 0 || i >= s.len() {
        if line.len() == 0 {
            Seq::empty()
        } else {
            seq![line]
        }
    } else if s[i] == '\n' {
        seq![line] + lines_from(s, i + 1, Seq::empty())
    } else {
        lines_from(s, i + 1, line.push(s[i]))
    }
}

/// The lines of a text: the runs of characters that a line feed ends, and the
/// run behind the last line feed where there are characters in it.
pub open spec fn lines_of(text: Seq<char>) -> Seq<Seq<char>> {
    lines_from(text, 0, Seq::empty())
}

/// Lines, each given as its level and its tokens.
pub open spec fn line_views(entries: Seq<(usize, Seq<Token>)>) -> Seq<LineView> {
    Seq::new(entries.len(), |i: int| LineView { level: entries[i].0, nodes: entries[i].1 })
}

/// What the line with index `index` holds: its level and its tokens; or the
/// failure, where it is no sequence of tokens.
pub open spec fn scan_line(line: Seq<char>, index: int) -> Result<LineView, CompileError> {
    match tokens(line) {
        Ok(found) => Ok(LineView { level: indent(line) as usize, nodes: found }),
        Err(n) => Err(
            CompileError {
                kind: ErrorKind::MalformedLine,
                line: index as usize,
                level: indent(line) as usize,
                token: n as usize,
            },
        ),
    }
}

/// What the lines hold, one entry for each line, blank ones too; or the
/// failure of the first line that is no sequence of tokens.
pub open spec fn scan_lines(lines: Seq<Seq<char>>) -> Result<Seq<LineView>, CompileError>
    decreases lines.len(),
{
    if lines.len() == 0 {
        Ok(Seq::empty())
    } else {
        match scan_lines(lines.drop_last()) {
            Ok(found) => match scan_line(lines.last(), lines.len() - 1) {
                Ok(entry) => Ok(found.push(entry)),
                Err(error) => Err(error),
            },
            Err(error) => Err(error),
        }
    }
}

/// What a text holds, line by line.
pub open spec fn scan(text: Seq<char>) -> Result<Seq<LineView>, CompileError> {
    scan_lines(lines_of(text))
}

/// A bare word ends inside the line, and behind its first character.
proof fn lemma_word_end(s: Seq<char>, i: int)
    requires
        0 <= i <= s.len(),
    ensures
        i <= word_end(s, i) <= s.len(),
        i < s.len() && spec_is_word(s[i]) ==> i < word_end(s, i),
    decreases s.len() - i,
{
    if i < s.len() && spec_is_word(s[i]) {
        lemma_word_end(s, i + 1);
    }
}

/// The quote that ends a literal stands inside the line.
proof fn lemma_literal_end(s: Seq<char>, i: int)
    requires
        0 <= i,
    ensures
        literal_end(s, i) matches Some(end) ==> i <= end < s.len(),
    decreases s.len() - i,
{
    if i < s.len() && s[i] != '"' {
        if s[i] == '\\' {
            if i + 1 < s.len() {
                lemma_literal_end(s, i + 2);
            }
        } else {
            lemma_literal_end(s, i + 1);
        }
    }
}

/// A group ends inside the line, and behind the place from which it is read.
proof fn lemma_group_end(s: Seq<char>, i: int, awaited: Seq<char>)
    requires
        0 <= i,
    ensures
        group_end(s, i, awaited) matches Some(end) ==> i < end <= s.len(),
    decreases s.len() - i,
{
    if i < s.len() && awaited.len() > 0 {
        if spec_is_opener(s[i]) {
            lemma_group_end(s, i + 1, awaited.push(spec_closer_of(s[i])));
        } else if spec_is_closer(s[i]) {
            if awaited.last() == s[i] && awaited.len() > 1 {
                lemma_group_end(s, i + 1, awaited.drop_last());
            }
        } else {
            lemma_group_end(s, i + 1, awaited);
        }
    }
}

/// A token takes at least one character, and none behind the end of the line.
proof fn lemma_token_at(s: Seq<char>, i: int)
    requires
        0 <= i < s.len(),
        !spec_is_space(s[i]),
    ensures
        token_at(s, i) matches Some((_, next)) ==> i < next <= s.len(),
{
    lemma_word_end(s, i);
    lemma_literal_end(s, i + 1);
    lemma_group_end(s, i + 1, seq![spec_closer_of(s[i])]);
}

/// The index behind the bare word that starts at `from`.
fn find_word_end(line: &Vec<char>, from: usize) -> (end: usize)
    requires
        from <= line.len(),
    ensures
        end == word_end(line@, from as int),
        from <= end <= line.len(),
{
    let mut i: usize = from;
    while i < line.len() && is_word(line[i])
        invariant
            from <= i <= line.len(),
            word_end(line@, from as int) == word_end(line@, i as int),
        decreases line.len() - i,
    {
        i += 1;
    }
    i
}

/// The index of the quote that ends the literal whose contents start at `from`.
fn find_literal_end(line: &Vec<char>, from: usize) -> (end: Option<usize>)
    requires
        from <= line.len(),
    ensures
        match end {
            Some(e) => literal_end(line@, from as int) == Some(e as int) && from <= e < line.len(),
            None => literal_end(line@, from as int) is None,
        },
{
    let mut i: usize = from;
    while i < line.len()
        invariant
            from <= i <= line.len(),
            literal_end(line@, from as int) == literal_end(line@, i as int),
        decreases line.len() - i,
    {
        let c = line[i];
        if c == '"' {
            return Some(i);
        } else if c == '\\' {
            if i + 1 < line.len() {
                i += 2;
            } else {
                return None;
            }
        } else {
            i += 1;
        }
    }
    None
}

/// The index behind the bracket that closes the group whose opening bracket
/// stands at `from`.
fn find_group_end(line: &Vec<char>, from: usize) -> (end: Option<usize>)
    requires
        from < line.len(),
        spec_is_opener(line[from as int]),
    ensures
        match end {
            Some(e) => group_end(line@, from + 1, seq![spec_closer_of(line[from as int])]) == Some(
                e as int,
            ) && from < e <= line.len(),
            None => group_end(line@, from + 1, seq![spec_closer_of(line[from as int])]) is None,
        },
{
    let ghost whole = group_end(line@, from + 1, seq![spec_closer_of(line[from as int])]);
    let mut awaited: Vec<char> = Vec::new();
    awaited.push(closer_of(line[from]));
    let mut i: usize = from + 1;
    while i < line.len()
        invariant
            from < i <= line.len(),
            awaited.len() > 0,
            whole == group_end(line@, from + 1, seq![spec_closer_of(line[from as int])]),
            whole == group_end(line@, i as int, awaited@),
        decreases line.len() - i,
    {
        let c = line[i];
        if is_opener(c) {
            awaited.push(closer_of(c));
        } else if is_closer(c) {
            let expected = awaited[awaited.len() - 1];
            if expected != c {
                return None;
            }
            if awaited.len() == 1 {
                return Some(i + 1);
            }
            awaited.pop();
        }
        i += 1;
    }
    None
}

/// Reads the tokens of a line. `Err(n)` where the line is no sequence of
/// tokens: `n` tokens stand before the place that is none.
pub fn tokenize(line: &Vec<char>) -> (found: Result<Vec<Node>, usize>)
    ensures
        match found {
            Ok(nodes) => tokens(line@) == Ok::<Seq<Token>, nat>(nodes.deep_view()),
            Err(n) => tokens(line@) == Err::<Seq<Token>, nat>(n as nat),
        },
{
    let mut nodes: Vec<Node> = Vec::new();
    let mut i: usize = 0;
    while i < line.len()
        invariant
            i <= line.len(),
            nodes.len() <= i,
            tokens(line@) == after(nodes.deep_view(), tokens_from(line@, i as int)),
        decreases line.len() - i,
    {
        let c = line[i];
        let ghost before = nodes.deep_view();
        proof {
            if !spec_is_space(c) {
                lemma_token_at(line@, i as int);
            }
        }
        if is_space(c) {
            i += 1;
        } else if is_punct(c) {
            nodes.push(Node::Punct(c));
            i += 1;
            proof {
                lemma_after_push(before, Token::Punct(c), nodes.deep_view(), tokens_from(line@, i as int));
            }
        } else if c == '"' {
            match find_literal_end(line, i + 1) {
                Some(end) => {
                    let text = text_of(line, i + 1, end);
                    nodes.push(Node::Literal(text));
                    i = end + 1;
                    proof {
                        lemma_after_push(
                            before,
                            Token::Literal(text@),
                            nodes.deep_view(),
                            tokens_from(line@, i as int),
                        );
                    }
                },
                None => {
                    return Err(nodes.len());
                },
            }
        } else if is_opener(c) {
            match find_group_end(line, i) {
                Some(end) => {
                    let text = text_of(line, i, end);
                    nodes.push(Node::Group(text));
                    i = end;
                    proof {
                        lemma_after_push(
                            before,
                            Token::Group(text@),
                            nodes.deep_view(),
                            tokens_from(line@, i as int),
                        );
                    }
                },
                None => {
                    return Err(nodes.len());
                },
            }
        } else if is_closer(c) {
            return Err(nodes.len());
        } else {
            let end = find_word_end(line, i);
            let text = text_of(line, i, end);
            nodes.push(Node::Ident(text));
            i = end;
            proof {
                lemma_after_push(
                    before,
                    Token::Ident(text@),
                    nodes.deep_view(),
                    tokens_from(line@, i as int),
                );
            }
        }
    }
    proof {
        assert(nodes.deep_view() + Seq::<Token>::empty() =~= nodes.deep_view());
    }
    Ok(nodes)
}

/// Putting `token` behind `head` first and the rest behind both is putting
/// the rest, with `token` before it, behind `head`.
proof fn lemma_after_push(
    head: Seq<Token>,
    token: Token,
    longer: Seq<Token>,
    rest: Result<Seq<Token>, nat>,
)
    requires
        longer =~= head.push(token),
    ensures
        after(head, after(seq![token], rest)) == after(longer, rest),
{
    match rest {
        Ok(tail) => {
            assert(head + (seq![token] + tail) =~= head.push(token) + tail);
        },
        Err(n) => {},
    }
}

/// Counts the white space that a line begins with; 0 for a blank line.
pub fn level_of(line: &Vec<char>) -> (level: usize)
    ensures
        level == indent(line@),
{
    let mut i: usize = 0;
    while i < line.len() && is_space(line[i])
        invariant
            i <= line.len(),
            first_mark(line@, 0) == first_mark(line@, i as int),
        decreases line.len() - i,
    {
        i += 1;
    }
    if i >= line.len() {
        0
    } else {
        i
    }
}

/// Cuts a text into its lines.
pub fn split_lines(text: &Vec<char>) -> (lines: Vec<Vec<char>>)
    ensures
        lines.deep_view() == lines_of(text@),
{
    let mut lines: Vec<Vec<char>> = Vec::new();
    let mut line: Vec<char> = Vec::new();
    let mut i: usize = 0;
    while i < text.len()
        invariant
            i <= text.len(),
            lines_of(text@) == lines.deep_view() + lines_from(text@, i as int, line@),
        decreases text.len() - i,
    {
        let c = text[i];
        if c == '\n' {
            let ghost before = lines.deep_view();
            let ghost done = line@;
            proof {
                lemma_deep_view_push(lines@, line);
                lemma_deep_view_chars(line);
            }
            lines.push(line);
            line = Vec::new();
            proof {
                assert(lines.deep_view() =~= before.push(done));
                assert(before + (seq![done] + lines_from(text@, i + 1, Seq::empty())) =~= before.push(
                    done,
                ) + lines_from(text@, i + 1, Seq::empty()));
            }
        } else {
            line.push(c);
        }
        i += 1;
    }
    if line.len() > 0 {
        let ghost before = lines.deep_view();
        let ghost done = line@;
        proof {
            lemma_deep_view_push(lines@, line);
            lemma_deep_view_chars(line);
        }
        lines.push(line);
        proof {
            assert(lines.deep_view() =~= before + seq![done]);
        }
    } else {
        proof {
            assert(lines.deep_view() + Seq::<Seq<char>>::empty() =~= lines.deep_view());
        }
    }
    lines
}

/// A failure among the first `k` lines is the failure of all of them.
proof fn lemma_scan_lines_fails(lines: Seq<Seq<char>>, k: int)
    requires
        0 <= k <= lines.len(),
        scan_lines(lines.take(k)) is Err,
    ensures
        scan_lines(lines) == scan_lines(lines.take(k)),
    decreases lines.len() - k,
{
    if k < lines.len() {
        assert(lines.take(k + 1).drop_last() =~= lines.take(k));
        lemma_scan_lines_fails(lines, k + 1);
    } else {
        assert(lines.take(k) =~= lines);
    }
}

/// Reads a text: for each of its lines, blank ones too, the level and the
/// tokens. Fails at the first line that is no sequence of tokens.
pub fn lex(input: &str) -> (found: Result<Vec<(usize, Vec<Node>)>, CompileError>)
    ensures
        match found {
            Ok(lines) => scan(input@) == Ok::<_, CompileError>(line_views(lines.deep_view())),
            Err(error) => scan(input@) == Err::<Seq<LineView>, _>(error),
        },
{
    let text = chars_of(input);
    let lines = split_lines(&text);
    let mut found: Vec<(usize, Vec<Node>)> = Vec::new();
    let mut i: usize = 0;
    proof {
        assert(lines.deep_view().take(0) =~= Seq::empty());
        assert(line_views(found.deep_view()) =~= Seq::empty());
    }
    while i < lines.len()
        invariant
            i <= lines.len(),
            lines.deep_view() == lines_of(input@),
            scan_lines(lines.deep_view().take(i as int)) == Ok::<_, CompileError>(
                line_views(found.deep_view()),
            ),
        decreases lines.len() - i,
    {
        let line = &lines[i];
        let level = level_of(line);
        let ghost before = found.deep_view();
        proof {
            assert(lines.deep_view().take(i + 1).drop_last() =~= lines.deep_view().take(i as int));
            lemma_deep_view_chars(*line);
            assert(lines.deep_view().take(i + 1).last() == line@);
        }
        match tokenize(line) {
            Ok(nodes) => {
                let ghost entry = (level, nodes.deep_view());
                proof {
                    lemma_deep_view_push(found@, (level, nodes));
                }
                found.push((level, nodes));
                proof {
                    assert(found.deep_view() =~= before.push(entry));
                    assert(line_views(found.deep_view()) =~= line_views(before).push(
                        LineView { level, nodes: entry.1 },
                    ));
                }
            },
            Err(n) => {
                proof {
                    lemma_scan_lines_fails(lines.deep_view(), i + 1);
                }
                return Err(CompileError { kind: ErrorKind::MalformedLine, line: i, level, token: n });
            },
        }
        i += 1;
    }
    proof {
        assert(lines.deep_view().take(lines.len() as int) =~= lines.deep_view());
    }
    Ok(found)
}

} // verus!
