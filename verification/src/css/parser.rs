//! The reader of style sheets: it tells what item each line stands for, and
//! builds the items of a text.

use crate::css::content::{
    bare, document_order, document_order_all, lemma_node_view, Content, Item, ItemView,
};
use crate::error::{CompileError, ErrorKind, LineError};
use crate::lexer::{lex, line_views, scan, LineView, Node, Token};
use crate::tree::{
    build_forest, carried, first_misplaced, forest, lemma_forest_document_order,
    lemma_misplaced_is_found, misplaced, models, shapes, sound, walk_all, DocumentOrder, Leveled,
    TreeNode,
};
use crate::util::{camelcase_to_dashed, dashed};
use crate::vecs::{deep, lemma_deep_view_push, reversed};
use vstd::prelude::*;

verus! {

/// Gathers the tokens of one line.
#[derive(Debug, PartialEq, Eq)]
pub struct LineBuilder {
    pub level: Option<usize>,
    pub nodes: Vec<Node>,
}

/// One line of a style sheet: how far it is indented, and its tokens.
#[derive(Debug, PartialEq, Eq)]
pub struct Line {
    pub level: usize,
    pub nodes: Vec<Node>,
}

impl View for Line {
    type V = LineView;

    open spec fn view(&self) -> LineView {
        LineView { level: self.level, nodes: self.nodes.deep_view() }
    }
}

impl DeepView for Line {
    type V = LineView;

    open spec fn deep_view(&self) -> LineView {
        self.view()
    }
}

impl Default for LineBuilder {
    /// A builder that has no level yet, and no token.
    fn default() -> (builder: Self)
        ensures
            builder.level is None,
            builder.nodes@.len() == 0,
    {
        LineBuilder { level: None, nodes: Vec::new() }
    }
}

impl LineBuilder {
    /// A builder for a line of the given level, with no token yet.
    pub fn new(level: usize) -> (builder: Self)
        ensures
            builder.level == Some(level),
            builder.nodes@.len() == 0,
    {
        LineBuilder { level: Some(level), nodes: Vec::new() }
    }

    /// The line, where the builder has a level.
    pub fn build(self) -> (line: Option<Line>)
        ensures
            match self.level {
                Some(level) => line == Some(Line { level, nodes: self.nodes }),
                None => line is None,
            },
    {
        match self.level {
            Some(level) => Some(Line { level, nodes: self.nodes }),
            None => None,
        }
    }

    /// Puts a token behind those that the builder has.
    pub fn put(&mut self, node: Node)
        ensures
            final(self).level == old(self).level,
            final(self).nodes@ == old(self).nodes@.push(node),
    {
        self.nodes.push(node);
    }
}

/// Where the reading of a line stands.
pub enum Phase {
    /// Nothing is read.
    StandBy,
    /// `@` is read: the name of an at-rule follows.
    HasPrefix(char),
    /// One word is read: a selector, or the property of a declaration.
    HasIdent(Seq<char>),
    /// A selector of several parts is read, and it ends with a word.
    HasAccumulatedIdent(Seq<char>),
    /// A selector is begun, and it ends with punctuation.
    HasAccumulatedPunct(Seq<char>),
    /// A property and `:` are read.
    NeedDeclarationValue(Seq<char>),
    /// The line is a declaration: its property, as it is rendered, and its
    /// value.
    Done(Seq<char>, Seq<char>),
}

/// The text of a token that can be a value: of a literal, its contents; of a
/// group, the group as it was written.
pub open spec fn value_of(token: Token) -> Option<Seq<char>> {
    match token {
        Token::Literal(text) => Some(text),
        Token::Group(text) => Some(text),
        _ => None,
    }
}

/// One step of the reading: where it stands after `token`, or why `token`
/// cannot follow. A line begins with a word, with `@` before the name of an
/// at-rule, or with `.` or `#` before a name; any other punctuation comes
/// before a name and fails as the name is missing. Words in a row are joined
/// by a space, and so is punctuation behind a word; punctuation is written
/// directly before the word behind it. A single word, `:` and a literal or a
/// group make a declaration; anything else behind the `:` fails as a
/// declaration without end. Nothing follows a declaration.
pub open spec fn step(phase: Phase, token: Token) -> Result<Phase, ErrorKind> {
    match phase {
        Phase::StandBy => match token {
            Token::Ident(name) => Ok(Phase::HasIdent(name)),
            Token::Punct(c) => if c == '@' {
                Ok(Phase::HasPrefix(c))
            } else if c == '.' || c == '#' {
                Ok(Phase::HasAccumulatedPunct(seq![c]))
            } else {
                Err(ErrorKind::MissingElementName)
            },
            _ => Err(ErrorKind::MalformedLine),
        },
        Phase::HasPrefix(prefix) => match token {
            Token::Ident(name) => Ok(Phase::HasIdent(seq![prefix] + dashed(name))),
            _ => Err(ErrorKind::MalformedLine),
        },
        Phase::HasIdent(name) => match token {
            Token::Ident(word) => Ok(Phase::HasAccumulatedIdent(name + " "@ + word)),
            Token::Punct(c) => if c == '.' {
                Ok(Phase::HasAccumulatedPunct(name + " ."@))
            } else if c == ':' {
                Ok(Phase::NeedDeclarationValue(name))
            } else {
                Err(ErrorKind::MalformedLine)
            },
            _ => Err(ErrorKind::MalformedLine),
        },
        Phase::HasAccumulatedIdent(name) => match token {
            Token::Ident(word) => Ok(Phase::HasAccumulatedIdent(name + " "@ + word)),
            Token::Punct(c) => Ok(Phase::HasAccumulatedPunct((name + " "@).push(c))),
            _ => Err(ErrorKind::MalformedLine),
        },
        Phase::HasAccumulatedPunct(name) => match token {
            Token::Ident(word) => Ok(Phase::HasAccumulatedIdent(name + word)),
            Token::Punct(c) => Ok(Phase::HasAccumulatedPunct(name.push(c))),
            _ => Err(ErrorKind::MalformedLine),
        },
        Phase::NeedDeclarationValue(property) => match value_of(token) {
            Some(value) => Ok(Phase::Done(dashed(property), value)),
            None => Err(ErrorKind::UnterminatedDeclaration),
        },
        Phase::Done(_, _) => Err(ErrorKind::MalformedLine),
    }
}

/// Where the reading stands after all of `tokens`, read one by one; or the
/// failure of the first token that cannot follow, with its index.
pub open spec fn run(tokens: Seq<Token>) -> Result<Phase, LineError>
    decreases tokens.len(),
{
    if tokens.len() == 0 {
        Ok(Phase::StandBy)
    } else {
        match run(tokens.drop_last()) {
            Ok(phase) => match step(phase, tokens.last()) {
                Ok(next) => Ok(next),
                Err(kind) => Err(LineError { kind, token: (tokens.len() - 1) as usize }),
            },
            Err(error) => Err(error),
        }
    }
}

/// What a line is, once its `count` tokens are read: a declaration; or a
/// node named by the selector that was read, with nothing under it yet. A
/// line that ends behind `:` fails as a declaration without end, and a line
/// that ends before a word has named the node fails as the name is missing.
pub open spec fn finish(phase: Phase, level: usize, count: nat) -> Result<
    BuilderNodeView,
    LineError,
> {
    match phase {
        Phase::HasIdent(name) => Ok(
            BuilderNodeView { level, inner: ItemView::Node { name, children: Seq::empty() } },
        ),
        Phase::HasAccumulatedIdent(name) => Ok(
            BuilderNodeView { level, inner: ItemView::Node { name, children: Seq::empty() } },
        ),
        Phase::Done(property, value) => Ok(
            BuilderNodeView { level, inner: ItemView::Declaration(property, value) },
        ),
        Phase::NeedDeclarationValue(_) => Err(
            LineError { kind: ErrorKind::UnterminatedDeclaration, token: count as usize },
        ),
        _ => Err(LineError { kind: ErrorKind::MissingElementName, token: count as usize }),
    }
}

/// The item that a line of a style sheet stands for, or why it stands for
/// none.
pub open spec fn classify(line: LineView) -> Result<BuilderNodeView, LineError> {
    match run(line.nodes) {
        Ok(phase) => finish(phase, line.level, line.nodes.len()),
        Err(error) => Err(error),
    }
}

/// A failure among the first `k` tokens is the failure of all of them.
proof fn lemma_run_fails(tokens: Seq<Token>, k: int)
    requires
        0 <= k <= tokens.len(),
        run(tokens.take(k)) is Err,
    ensures
        run(tokens) == run(tokens.take(k)),
    decreases tokens.len() - k,
{
    if k < tokens.len() {
        assert(tokens.take(k + 1).drop_last() =~= tokens.take(k));
        lemma_run_fails(tokens, k + 1);
    } else {
        assert(tokens.take(k) =~= tokens);
    }
}

/// Where the reading of a line stands, as the program holds it.
enum State {
    StandBy,
    HasPrefix(char),
    HasIdent(String),
    HasAccumulatedIdent(String),
    HasAccumulatedPunct(String),
    NeedDeclarationValue(String),
    Done(String, String),
}

impl View for State {
    type V = Phase;

    closed spec fn view(&self) -> Phase {
        match self {
            State::StandBy => Phase::StandBy,
            State::HasPrefix(prefix) => Phase::HasPrefix(*prefix),
            State::HasIdent(name) => Phase::HasIdent(name@),
            State::HasAccumulatedIdent(name) => Phase::HasAccumulatedIdent(name@),
            State::HasAccumulatedPunct(name) => Phase::HasAccumulatedPunct(name@),
            State::NeedDeclarationValue(property) => Phase::NeedDeclarationValue(property@),
            State::Done(property, value) => Phase::Done(property@, value@),
        }
    }
}

/// The text of a token that can be a value.
fn value(token: &Node) -> (text: Option<String>)
    ensures
        text.deep_view() == value_of(token@),
{
    match token {
        Node::Literal(text) => Some(text.clone()),
        Node::Group(text) => Some(text.clone()),
        _ => None,
    }
}

/// Reads one token.
fn advance(state: State, token: &Node) -> (next: Result<State, ErrorKind>)
    ensures
        match next {
            Ok(after) => step(state@, token@) == Ok::<Phase, ErrorKind>(after@),
            Err(kind) => step(state@, token@) == Err::<Phase, ErrorKind>(kind),
        },
{
    match state {
        State::StandBy => match token {
            Node::Ident(name) => Ok(State::HasIdent(name.clone())),
            Node::Punct(c) => if *c == '@' {
                Ok(State::HasPrefix(*c))
            } else if *c == '.' || *c == '#' {
                let mut name = String::new();
                name.push(*c);
                proof {
                    assert(name@ =~= seq![*c]);
                }
                Ok(State::HasAccumulatedPunct(name))
            } else {
                Err(ErrorKind::MissingElementName)
            },
            _ => Err(ErrorKind::MalformedLine),
        },
        State::HasPrefix(prefix) => match token {
            Node::Ident(name) => {
                let mut whole = String::new();
                whole.push(prefix);
                let rest = camelcase_to_dashed(name.as_str());
                whole.append(rest.as_str());
                proof {
                    assert(whole@ =~= seq![prefix] + dashed(name@));
                }
                Ok(State::HasIdent(whole))
            },
            _ => Err(ErrorKind::MalformedLine),
        },
        State::HasIdent(name) => match token {
            Node::Ident(word) => {
                let mut name = name;
                name.append(" ");
                name.append(word.as_str());
                Ok(State::HasAccumulatedIdent(name))
            },
            Node::Punct(c) => if *c == '.' {
                let mut name = name;
                name.append(" .");
                Ok(State::HasAccumulatedPunct(name))
            } else if *c == ':' {
                Ok(State::NeedDeclarationValue(name))
            } else {
                Err(ErrorKind::MalformedLine)
            },
            _ => Err(ErrorKind::MalformedLine),
        },
        State::HasAccumulatedIdent(name) => match token {
            Node::Ident(word) => {
                let mut name = name;
                name.append(" ");
                name.append(word.as_str());
                Ok(State::HasAccumulatedIdent(name))
            },
            Node::Punct(c) => {
                let mut name = name;
                name.append(" ");
                name.push(*c);
                Ok(State::HasAccumulatedPunct(name))
            },
            _ => Err(ErrorKind::MalformedLine),
        },
        State::HasAccumulatedPunct(name) => match token {
            Node::Ident(word) => {
                let mut name = name;
                name.append(word.as_str());
                Ok(State::HasAccumulatedIdent(name))
            },
            Node::Punct(c) => {
                let mut name = name;
                name.push(*c);
                Ok(State::HasAccumulatedPunct(name))
            },
            _ => Err(ErrorKind::MalformedLine),
        },
        State::NeedDeclarationValue(property) => match value(token) {
            Some(text) => Ok(State::Done(camelcase_to_dashed(property.as_str()), text)),
            None => Err(ErrorKind::UnterminatedDeclaration),
        },
        State::Done(_, _) => Err(ErrorKind::MalformedLine),
    }
}

impl Line {
    /// Reads the line: tells what item it stands for.
    pub fn process(self) -> (node: Result<BuilderNode, LineError>)
        ensures
            match node {
                Ok(found) => classify(self@) == Ok::<BuilderNodeView, LineError>(found@),
                Err(error) => classify(self@) == Err::<BuilderNodeView, LineError>(error),
            },
    {
        let mut state = State::StandBy;
        let ghost tokens = self.nodes.deep_view();
        let mut i: usize = 0;
        proof {
            assert(tokens.take(0) =~= Seq::empty());
        }
        while i < self.nodes.len()
            invariant
                i <= self.nodes.len(),
                tokens == self.nodes.deep_view(),
                run(tokens.take(i as int)) == Ok::<Phase, LineError>(state@),
            decreases self.nodes.len() - i,
        {
            proof {
                assert(tokens.take(i + 1).drop_last() =~= tokens.take(i as int));
                assert(tokens.take(i + 1).last() == self.nodes[i as int]@);
            }
            match advance(state, &self.nodes[i]) {
                Ok(next) => {
                    state = next;
                },
                Err(kind) => {
                    proof {
                        lemma_run_fails(tokens, i + 1);
                    }
                    return Err(LineError { kind, token: i });
                },
            }
            i += 1;
        }
        proof {
            assert(tokens.take(self.nodes.len() as int) =~= tokens);
        }
        let level = self.level;
        let count = self.nodes.len();
        match state {
            State::HasIdent(name) => Ok(BuilderNode { level, inner: empty_node(name) }),
            State::HasAccumulatedIdent(name) => Ok(BuilderNode { level, inner: empty_node(name) }),
            State::Done(property, value) => Ok(
                BuilderNode { level, inner: Item::Declaration(property, value) },
            ),
            State::NeedDeclarationValue(_) => Err(
                LineError { kind: ErrorKind::UnterminatedDeclaration, token: count },
            ),
            _ => Err(LineError { kind: ErrorKind::MissingElementName, token: count }),
        }
    }
}

/// A node with nothing under it.
fn empty_node(name: String) -> (item: Item)
    ensures
        item@ == (ItemView::Node { name: name@, children: Seq::empty() }),
{
    let item = Item::Node { name, children: Vec::new() };
    proof {
        lemma_node_view(item);
        assert(item->children.deep_view() =~= Seq::empty());
    }
    item
}

/// A line that is read: the item that it stands for, with its level.
#[derive(Debug, PartialEq, Eq)]
pub struct BuilderNode {
    pub level: usize,
    pub inner: Item,
}

/// The mathematical model of a `BuilderNode`.
pub struct BuilderNodeView {
    pub level: usize,
    pub inner: ItemView,
}

impl BuilderNodeView {
    /// The line as the tree builder sees it: only a node takes children.
    pub open spec fn leveled(self) -> Leveled<ItemView> {
        Leveled { level: self.level, holds: self.inner is Node, shape: self.inner }
    }
}

impl View for BuilderNode {
    type V = BuilderNodeView;

    open spec fn view(&self) -> BuilderNodeView {
        BuilderNodeView { level: self.level, inner: self.inner@ }
    }
}

impl DeepView for BuilderNode {
    type V = BuilderNodeView;

    open spec fn deep_view(&self) -> BuilderNodeView {
        self.view()
    }
}

/// A node with `children` put behind what stands under it; a declaration as
/// it is.
pub open spec fn with_children(shape: ItemView, children: Seq<ItemView>) -> ItemView {
    match shape {
        ItemView::Node { name, children: held } => ItemView::Node {
            name,
            children: held + children,
        },
        ItemView::Declaration(_, _) => shape,
    }
}

impl BuilderNode {
    /// Gives a node its children, in place of those that it has. A
    /// declaration takes none: it is left as it is, and the call fails.
    pub fn set_children(&mut self, children_new: Vec<Item>) -> (done: Result<(), ErrorKind>)
        ensures
            final(self).level == old(self).level,
            match old(self)@.inner {
                ItemView::Node { name, .. } => done is Ok && final(self)@.inner == (ItemView::Node {
                    name,
                    children: children_new.deep_view(),
                }),
                ItemView::Declaration(_, _) => done == Err::<(), ErrorKind>(
                    ErrorKind::StructuralViolation,
                ) && *final(self) == *old(self),
            },
    {
        proof {
            if self.inner is Node {
                lemma_node_view(self.inner);
            }
        }
        match &mut self.inner {
            Item::Node { children, .. } => {
                *children = children_new;
            },
            _ => {
                return Err(ErrorKind::StructuralViolation);
            },
        }
        proof {
            lemma_node_view(self.inner);
        }
        Ok(())
    }
}

impl TreeNode for BuilderNode {
    type Element = Item;

    type Shape = ItemView;

    open spec fn leveled(&self) -> Leveled<ItemView> {
        self@.leveled()
    }

    open spec fn shape_of(element: &Item) -> ItemView {
        element@
    }

    open spec fn graft(shape: ItemView, children: Seq<ItemView>) -> ItemView {
        with_children(shape, children)
    }

    proof fn lemma_graft_nothing(shape: ItemView) {
        if shape is Node {
            assert(shape->children + Seq::<ItemView>::empty() =~= shape->children);
        }
    }

    proof fn lemma_graft_twice(shape: ItemView, first: Seq<ItemView>, second: Seq<ItemView>) {
        if shape is Node {
            assert((shape->children + first) + second =~= shape->children + (first + second));
        }
    }

    fn level(&self) -> (level: usize) {
        self.level
    }

    fn holds_children(&self) -> (holds: bool) {
        match &self.inner {
            Item::Node { .. } => true,
            _ => false,
        }
    }

    fn attach(&mut self, children: Vec<Item>) {
        let ghost given = children@;
        let mut children = children;
        let ghost added = children.deep_view();
        proof {
            lemma_node_view(self.inner);
        }
        match &mut self.inner {
            Item::Node { children: held, .. } => {
                let ghost before = held.deep_view();
                held.append(&mut children);
                proof {
                    assert(held.deep_view() =~= before + added);
                }
            },
            _ => {},
        }
        proof {
            lemma_node_view(self.inner);
            assert(Seq::new(given.len(), |i: int| Self::shape_of(&given[i])) =~= added);
        }
    }

    fn into_element(self) -> (element: Item) {
        self.inner
    }
}

impl DocumentOrder for BuilderNode {
    open spec fn roomy(shape: ItemView) -> bool {
        shape is Node
    }

    open spec fn walk(shape: ItemView) -> Seq<ItemView> {
        document_order(shape)
    }

    proof fn lemma_walk_graft(shape: ItemView, children: Seq<ItemView>, child: ItemView) {
        let held = shape->children;
        let longer = with_children(shape, children.push(child));
        let shorter = with_children(shape, children);
        let all = (held + children).push(child);
        assert(held + children.push(child) =~= all);
        assert(all.drop_last() =~= held + children);
        assert(document_order_all(all) == document_order_all(held + children) + document_order(
            child,
        ));
        assert(document_order(longer) == seq![bare(longer)] + document_order_all(all));
        assert(document_order(shorter) == seq![bare(shorter)] + document_order_all(
            held + children,
        ));
        assert(bare(longer) == bare(shorter));
        assert(seq![bare(shorter)] + (document_order_all(held + children) + document_order(child))
            =~= (seq![bare(shorter)] + document_order_all(held + children)) + document_order(
            child,
        ));
    }
}

/// The lines of a style sheet, ready to be built into trees.
#[derive(Debug, PartialEq, Eq)]
pub struct Parser {
    pub lines: Vec<Line>,
}

impl View for Parser {
    type V = Seq<LineView>;

    open spec fn view(&self) -> Seq<LineView> {
        self.lines.deep_view()
    }
}

/// The lines that are read, blank ones left out, each with the index of its
/// line; or the failure of the first line that stands for no node.
pub open spec fn classify_all(lines: Seq<LineView>) -> Result<
    Seq<(usize, BuilderNodeView)>,
    CompileError,
>
    decreases lines.len(),
{
    if lines.len() == 0 {
        Ok(Seq::empty())
    } else {
        match classify_all(lines.drop_last()) {
            Ok(found) => if lines.last().nodes.len() == 0 {
                Ok(found)
            } else {
                match classify(lines.last()) {
                    Ok(node) => Ok(found.push(((lines.len() - 1) as usize, node))),
                    Err(error) => Err(
                        CompileError::on_line(
                            error,
                            (lines.len() - 1) as usize,
                            lines.last().level,
                        ),
                    ),
                }
            },
            Err(error) => Err(error),
        }
    }
}

/// The lines as the tree builder sees them.
pub open spec fn sprouts(found: Seq<(usize, BuilderNodeView)>) -> Seq<Leveled<ItemView>> {
    Seq::new(found.len(), |i: int| found[i].1.leveled())
}

/// The items of a style sheet. Every line is read first, and the first that
/// stands for no item fails. A text without an item fails as empty. Then the
/// first line that is indented under a declaration fails. Else the items are
/// the trees of the lines.
pub open spec fn outcome(lines: Seq<LineView>) -> Result<Seq<ItemView>, CompileError> {
    match classify_all(lines) {
        Ok(found) => if found.len() == 0 {
            Err(CompileError { kind: ErrorKind::EmptyInput, line: 0, level: 0, token: 0 })
        } else {
            match first_misplaced(sprouts(found), 0) {
                Some(i) => Err(
                    CompileError {
                        kind: ErrorKind::StructuralViolation,
                        line: found[i].0,
                        level: found[i].1.level,
                        token: 0,
                    },
                ),
                None => Ok(forest::<BuilderNode>(sprouts(found))),
            }
        },
        Err(error) => Err(error),
    }
}

/// A failure among the first `k` lines is the failure of all of them.
proof fn lemma_classify_all_fails(lines: Seq<LineView>, k: int)
    requires
        0 <= k <= lines.len(),
        classify_all(lines.take(k)) is Err,
    ensures
        classify_all(lines) == classify_all(lines.take(k)),
    decreases lines.len() - k,
{
    if k < lines.len() {
        assert(lines.take(k + 1).drop_last() =~= lines.take(k));
        lemma_classify_all_fails(lines, k + 1);
    } else {
        assert(lines.take(k) =~= lines);
    }
}

/// The line of the given level that holds the given tokens.
fn gather(level: usize, nodes: Vec<Node>) -> (line: Line)
    ensures
        line@ == (LineView { level, nodes: nodes.deep_view() }),
{
    let ghost all = nodes@;
    let mut pending = reversed(nodes);
    let mut builder = LineBuilder::new(level);
    while pending.len() > 0
        invariant
            builder.level == Some(level),
            builder.nodes.len() + pending.len() == all.len(),
            builder.nodes@ == all.take(builder.nodes.len() as int),
            pending@ == all.reverse().take(pending.len() as int),
        decreases pending.len(),
    {
        let ghost before = builder.nodes@;
        let node = pending.pop().unwrap();
        builder.put(node);
        proof {
            assert(node == all[before.len() as int]);
            assert(builder.nodes@ =~= all.take(builder.nodes.len() as int));
            assert(pending@ =~= all.reverse().take(pending.len() as int));
        }
    }
    proof {
        assert(all.take(all.len() as int) =~= all);
    }
    let line = builder.build().unwrap();
    proof {
        assert(line.nodes.deep_view() =~= nodes.deep_view());
    }
    line
}

impl Parser {
    /// Reads a style sheet: cuts it into lines, and each line into tokens.
    pub fn from_str(input: &str) -> (parsed: Result<Parser, CompileError>)
        ensures
            match parsed {
                Ok(parser) => scan(input@) == Ok::<Seq<LineView>, CompileError>(parser@),
                Err(error) => scan(input@) == Err::<Seq<LineView>, CompileError>(error),
            },
    {
        match lex(input) {
            Ok(entries) => {
                let ghost all = entries.deep_view();
                let ghost raw = entries@;
                let mut pending = reversed(entries);
                let mut lines: Vec<Line> = Vec::new();
                proof {
                    assert(lines.deep_view() =~= line_views(all).take(0));
                }
                while pending.len() > 0
                    invariant
                        all == deep(raw),
                        lines.len() + pending.len() == raw.len(),
                        pending@ == raw.reverse().take(pending.len() as int),
                        lines.deep_view() == line_views(all).take(lines.len() as int),
                    decreases pending.len(),
                {
                    let ghost count = lines.len();
                    let entry = pending.pop().unwrap();
                    proof {
                        assert(entry == raw[count as int]);
                        assert(pending@ =~= raw.reverse().take(pending.len() as int));
                    }
                    let line = gather(entry.0, entry.1);
                    proof {
                        lemma_deep_view_push(lines@, line);
                    }
                    lines.push(line);
                    proof {
                        assert(lines.deep_view() =~= line_views(all).take(lines.len() as int));
                    }
                }
                proof {
                    assert(line_views(all).take(raw.len() as int) =~= line_views(all));
                }
                Ok(Parser { lines })
            },
            Err(error) => Err(error),
        }
    }

    /// Builds the style sheet: reads each line that has tokens, and puts the
    /// items together by their indentation.
    pub fn build(self) -> (built: Result<Content, CompileError>)
        ensures
            match built {
                Ok(sheet) => outcome(self@) == Ok::<Seq<ItemView>, CompileError>(sheet@),
                Err(error) => outcome(self@) == Err::<Seq<ItemView>, CompileError>(error),
            },
    {
        let ghost all = self@;
        let ghost raw = self.lines@;
        let total = self.lines.len();
        let mut pending = reversed(self.lines);
        let mut nodes: Vec<BuilderNode> = Vec::new();
        let mut origins: Vec<(usize, usize)> = Vec::new();
        let mut index: usize = 0;
        proof {
            assert(all.take(0) =~= Seq::empty());
            assert(numbered(origins@, nodes@) =~= Seq::empty());
        }
        while pending.len() > 0
            invariant
                all == self@,
                all == deep(raw),
                raw.len() == total,
                index + pending.len() == total,
                pending@ == raw.reverse().take(pending.len() as int),
                nodes.len() == origins.len(),
                classify_all(all.take(index as int)) == Ok::<_, CompileError>(
                    numbered(origins@, nodes@),
                ),
                forall|j: int|
                    0 <= j < nodes.len() ==> (#[trigger] origins@[j]).1 == nodes@[j]@.level,
            decreases pending.len(),
        {
            let line = pending.pop().unwrap();
            proof {
                assert(line == raw[index as int]);
                assert(pending@ =~= raw.reverse().take(pending.len() as int));
                assert(all.take(index + 1).drop_last() =~= all.take(index as int));
                assert(all.take(index + 1).last() == line@);
            }
            if line.nodes.len() > 0 {
                let level = line.level;
                let ghost before = numbered(origins@, nodes@);
                match line.process() {
                    Ok(node) => {
                        nodes.push(node);
                        origins.push((index, level));
                        proof {
                            assert(numbered(origins@, nodes@) =~= before.push((index, node@)));
                        }
                    },
                    Err(error) => {
                        proof {
                            lemma_classify_all_fails(all, index + 1);
                        }
                        return Err(
                            CompileError { kind: error.kind, line: index, level, token: error.token },
                        );
                    },
                }
            }
            index += 1;
        }
        proof {
            assert(all.take(total as int) =~= all);
            assert(models(nodes@) =~= sprouts(numbered(origins@, nodes@)));
        }
        if nodes.len() == 0 {
            return Err(CompileError { kind: ErrorKind::EmptyInput, line: 0, level: 0, token: 0 });
        }
        match build_forest(nodes) {
            Ok(trees) => {
                proof {
                    assert(trees.deep_view() =~= shapes::<BuilderNode>(trees@));
                }
                Ok(Content { items: trees })
            },
            Err(i) => Err(
                CompileError {
                    kind: ErrorKind::StructuralViolation,
                    line: origins[i].0,
                    level: origins[i].1,
                    token: 0,
                },
            ),
        }
    }
}

/// The nodes, each with the index of its line.
pub open spec fn numbered(origins: Seq<(usize, usize)>, nodes: Seq<BuilderNode>) -> Seq<
    (usize, BuilderNodeView),
> {
    Seq::new(nodes.len(), |i: int| (origins[i].0, nodes[i]@))
}

/// The walk that the tree builder knows is the document order of a style
/// sheet.
proof fn lemma_walk_all(items: Seq<ItemView>)
    ensures
        walk_all::<BuilderNode>(items) == document_order_all(items),
    decreases items.len(),
{
    if items.len() > 0 {
        lemma_walk_all(items.drop_last());
    }
}

/// The items of a style sheet hold every line that was read, in the order of
/// the lines. Walked in document order, they give the item of the first
/// line, then that of the second, and so on: no line is lost, and none comes
/// before a line that stood before it.
pub proof fn lemma_outcome_keeps_order(lines: Seq<LineView>)
    ensures
        outcome(lines) matches Ok(items) ==> classify_all(lines) matches Ok(found)
            && document_order_all(items) == document_order_all(carried(sprouts(found))),
{
    if outcome(lines) is Ok {
        let found = classify_all(lines)->Ok_0;
        let sprigs = sprouts(found);
        assert(sound::<BuilderNode>(sprigs));
        lemma_forest_document_order::<BuilderNode>(sprigs);
        lemma_walk_all(forest::<BuilderNode>(sprigs));
        lemma_walk_all(carried(sprigs));
    }
}

/// A line that is indented under a declaration is never
/// passed over: where every line of a style sheet can be read and one of
/// them is misplaced, the build fails as a structural violation, and hands
/// out no tree.
pub proof fn lemma_outcome_structural(lines: Seq<LineView>, i: int)
    requires
        classify_all(lines) matches Ok(found) && misplaced(sprouts(found), i),
    ensures
        outcome(lines) matches Err(error) && error.kind == ErrorKind::StructuralViolation,
{
    let found = classify_all(lines)->Ok_0;
    lemma_misplaced_is_found(sprouts(found), 0, i);
}

} // verus!
