use tent::error::{CompileError, ErrorKind};
use tent::lexer::{is_space, is_word, level_of, lex, split_lines, tokenize, Node};
use tent::text::chars_of;

fn ident(text: &str) -> Node {
    Node::Ident(text.to_string())
}

fn literal(text: &str) -> Node {
    Node::Literal(text.to_string())
}

fn group(text: &str) -> Node {
    Node::Group(text.to_string())
}

fn tokens(line: &str) -> Result<Vec<Node>, usize> {
    tokenize(&chars_of(line))
}

#[test]
fn words_punctuation_and_literals() {
    assert_eq!(
        tokens("span.hello dataTest=\"test-data\" \"HELLO!\""),
        Ok(vec![
            ident("span"),
            Node::Punct('.'),
            ident("hello"),
            ident("dataTest"),
            Node::Punct('='),
            literal("test-data"),
            literal("HELLO!"),
        ])
    );
}

#[test]
fn every_punctuation_character_is_a_token() {
    assert_eq!(
        tokens(".#:=@"),
        Ok(vec![
            Node::Punct('.'),
            Node::Punct('#'),
            Node::Punct(':'),
            Node::Punct('='),
            Node::Punct('@'),
        ])
    );
}

#[test]
fn a_word_runs_up_to_the_next_special_character() {
    assert_eq!(
        tokens("a>b-c font-face h1"),
        Ok(vec![ident("a>b-c"), ident("font-face"), ident("h1")])
    );
    assert_eq!(tokens("née\"x\""), Ok(vec![ident("née"), literal("x")]));
}

#[test]
fn a_literal_keeps_its_contents_as_written() {
    assert_eq!(tokens("\"\""), Ok(vec![literal("")]));
    assert_eq!(tokens("\"0 0 1 1\""), Ok(vec![literal("0 0 1 1")]));
    assert_eq!(tokens("\"a\\\"b\""), Ok(vec![literal("a\\\"b")]));
    assert_eq!(tokens("\"a\\\\\" x"), Ok(vec![literal("a\\\\"), ident("x")]));
    assert_eq!(tokens("\"{.#:=@}\""), Ok(vec![literal("{.#:=@}")]));
}

#[test]
fn a_group_is_kept_whole_with_its_brackets() {
    assert_eq!(tokens("{\"Inner Text\"}"), Ok(vec![group("{\"Inner Text\"}")]));
    assert_eq!(
        tokens("class={dynamic_param.to_string()} x"),
        Ok(vec![
            ident("class"),
            Node::Punct('='),
            group("{dynamic_param.to_string()}"),
            ident("x"),
        ])
    );
    assert_eq!(tokens("(a[b]{c})[d]"), Ok(vec![group("(a[b]{c})"), group("[d]")]));
}

#[test]
fn a_line_that_is_no_sequence_of_tokens_fails() {
    assert_eq!(tokens("a \"open"), Err(1));
    assert_eq!(tokens("a \"open\\"), Err(1));
    assert_eq!(tokens("a b {c"), Err(2));
    assert_eq!(tokens("(a]"), Err(0));
    assert_eq!(tokens("a ) b"), Err(1));
    assert_eq!(tokens("{a}}"), Err(1));
}

#[test]
fn white_space_separates_and_is_dropped() {
    assert_eq!(tokens("   "), Ok(vec![]));
    assert_eq!(tokens(""), Ok(vec![]));
    assert_eq!(tokens("\ta \u{3000} b\r"), Ok(vec![ident("a"), ident("b")]));
    assert!(is_space(' ') && is_space('\t') && is_space('\u{a0}') && is_space('\u{2028}'));
    assert!(!is_space('a') && !is_space('\u{200b}'));
    assert!(is_word('a') && is_word('-') && is_word('\''));
    assert!(!is_word('.') && !is_word('"') && !is_word('{') && !is_word(']') && !is_word(' '));
}

#[test]
fn the_level_counts_leading_white_space() {
    assert_eq!(level_of(&chars_of("html")), 0);
    assert_eq!(level_of(&chars_of("    body")), 4);
    assert_eq!(level_of(&chars_of(" \t\u{3000}x y")), 3);
    assert_eq!(level_of(&chars_of("     ")), 0);
    assert_eq!(level_of(&chars_of("")), 0);
}

#[test]
fn a_text_is_cut_at_line_feeds() {
    let lines = |text: &str| -> Vec<String> {
        split_lines(&chars_of(text)).into_iter().map(|line| line.into_iter().collect()).collect()
    };
    assert_eq!(lines(""), Vec::<String>::new());
    assert_eq!(lines("a"), vec!["a"]);
    assert_eq!(lines("a\n"), vec!["a"]);
    assert_eq!(lines("\n"), vec![""]);
    assert_eq!(lines("a\n\n b\nc"), vec!["a", "", " b", "c"]);
}

#[test]
fn lex_reads_every_line() {
    assert_eq!(
        lex("body\n\n  width: \"1px\"\n"),
        Ok(vec![
            (0, vec![ident("body")]),
            (0, vec![]),
            (2, vec![ident("width"), Node::Punct(':'), literal("1px")]),
        ])
    );
    assert_eq!(lex(""), Ok(vec![]));
}

#[test]
fn lex_fails_at_the_first_bad_line() {
    assert_eq!(
        lex("a\n   b \"c\nd }"),
        Err(CompileError { kind: ErrorKind::MalformedLine, line: 1, level: 3, token: 1 })
    );
    assert_eq!(
        lex("a\nd }"),
        Err(CompileError { kind: ErrorKind::MalformedLine, line: 1, level: 0, token: 1 })
    );
}
