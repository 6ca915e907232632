use tent::error::{CompileError, ErrorKind, LineError};
use tent::html::content::{render_all, Content};
use tent::html::parser::{BuilderNode, Line, LineBuilder, Parser};
use tent::lexer::Node;
use tent::text::chars_of;
use tent::tree::{build_forest, clean_stack};

fn s(text: &str) -> String {
    text.to_string()
}

fn line(level: usize, text: &str) -> Line {
    Line { level, nodes: tent::lexer::tokenize(&chars_of(text)).unwrap() }
}

fn tag(level: usize, name: &str) -> BuilderNode {
    BuilderNode::Tag {
        level,
        tag: s(name),
        class_names: vec![],
        properties: vec![],
        children: vec![],
    }
}

fn element(name: &str, contents: Vec<Content>) -> Content {
    Content::new_element(s(name), vec![], vec![], contents)
}

fn build(input: &str) -> Result<Vec<Content>, CompileError> {
    Parser::from_str(input).unwrap().build()
}

fn fails(kind: ErrorKind, token: usize) -> Result<BuilderNode, LineError> {
    Err(LineError { kind, token })
}

#[test]
fn line_builder_gathers_tokens() {
    let mut builder = LineBuilder::new(4);
    builder.put(Node::Ident(s("div")));
    builder.put(Node::Literal(s("x")));
    assert_eq!(
        builder.build(),
        Some(Line { level: 4, nodes: vec![Node::Ident(s("div")), Node::Literal(s("x"))] })
    );
    assert_eq!(LineBuilder::new(0).build(), Some(Line { level: 0, nodes: vec![] }));
    assert_eq!(LineBuilder::default(), LineBuilder { level: None, nodes: vec![] });
    assert_eq!(LineBuilder::default().build(), None);
}

#[test]
fn a_tag_with_classes_and_attributes() {
    assert_eq!(
        line(2, "svg.icon.big version=\"1.1\" viewBox=\"0 0 1 1\" dataTest={x}").process(),
        Ok(BuilderNode::Tag {
            level: 2,
            tag: s("svg"),
            class_names: vec![s("icon"), s("big")],
            properties: vec![
                (s("version"), s("1.1")),
                (s("viewBox"), s("0 0 1 1")),
                (s("data-test"), s("{x}")),
            ],
            children: vec![],
        })
    );
}

#[test]
fn a_leading_dot_means_div() {
    assert_eq!(
        line(0, ".a.b").process(),
        Ok(BuilderNode::Tag {
            level: 0,
            tag: s("div"),
            class_names: vec![s("a"), s("b")],
            properties: vec![],
            children: vec![],
        })
    );
}

#[test]
fn content_on_the_line_makes_an_inline_tag() {
    assert_eq!(
        line(4, "span.hello \"HELLO!\" id=\"x\" {name} \"!\"").process(),
        Ok(BuilderNode::InlineTag {
            level: 4,
            tag: s("span"),
            class_names: vec![s("hello")],
            properties: vec![(s("id"), s("x"))],
            contents: vec![s("HELLO!"), s("{name}"), s("!")],
        })
    );
}

#[test]
fn a_literal_or_a_group_alone_is_a_text() {
    assert_eq!(line(6, "\"HELLO!\"").process(), Ok(BuilderNode::Text { level: 6, text: s("HELLO!") }));
    assert_eq!(line(1, "{greeting}").process(), Ok(BuilderNode::Text { level: 1, text: s("{greeting}") }));
}

#[test]
fn what_a_line_ends_with_unfinished_is_left_out() {
    assert_eq!(line(0, "input disabled").process(), Ok(tag(0, "input")));
    assert_eq!(line(0, "span class=").process(), Ok(tag(0, "span")));
    assert_eq!(line(0, "span.").process(), Ok(tag(0, "span")));
    assert_eq!(line(0, ".").process(), Ok(tag(0, "div")));
}

#[test]
fn a_line_that_names_no_node_fails() {
    assert_eq!(line(0, "= \"x\"").process(), fails(ErrorKind::MissingElementName, 0));
    assert_eq!(line(0, "#a").process(), fails(ErrorKind::MissingElementName, 0));
    assert_eq!(line(0, "@a").process(), fails(ErrorKind::MissingElementName, 0));
    assert_eq!(line(0, "").process(), fails(ErrorKind::MissingElementName, 0));
}

#[test]
fn a_token_that_cannot_follow_fails() {
    assert_eq!(line(0, "span = \"x\"").process(), fails(ErrorKind::MalformedLine, 1));
    assert_eq!(line(0, "span # a").process(), fails(ErrorKind::MalformedLine, 1));
    assert_eq!(line(0, "span a b").process(), fails(ErrorKind::MalformedLine, 2));
    assert_eq!(line(0, "span a \"x\"").process(), fails(ErrorKind::MalformedLine, 2));
    assert_eq!(line(0, "span a = b").process(), fails(ErrorKind::MalformedLine, 3));
    assert_eq!(line(0, "span a = .").process(), fails(ErrorKind::MalformedLine, 3));
    assert_eq!(line(0, "span . \"x\"").process(), fails(ErrorKind::MalformedLine, 2));
    assert_eq!(line(0, "..a").process(), fails(ErrorKind::MalformedLine, 1));
    assert_eq!(line(0, "\"a\" b").process(), fails(ErrorKind::MalformedLine, 1));
    assert_eq!(line(0, "{a} \"b\"").process(), fails(ErrorKind::MalformedLine, 1));
}

#[test]
fn level_of_each_kind_of_node() {
    assert_eq!(line(3, "a").process().unwrap().level(), 3);
    assert_eq!(line(5, "a \"x\"").process().unwrap().level(), 5);
    assert_eq!(line(7, "\"x\"").process().unwrap().level(), 7);
}

#[test]
fn into_element_of_each_kind_of_node() {
    assert_eq!(
        line(0, "p.a b=\"c\" \"x\" {y}").process().unwrap().into_element(),
        Content::Element {
            name: s("p"),
            class_names: vec![s("a")],
            properties: vec![(s("b"), s("c"))],
            contents: vec![Content::Text(s("x")), Content::Text(s("{y}"))],
        }
    );
    let mut node = tag(0, "p");
    assert_eq!(node.set_children(vec![Content::new_text(s("t"))]), Ok(()));
    assert_eq!(node.into_element(), element("p", vec![Content::Text(s("t"))]));
    assert_eq!(line(0, "\"x\"").process().unwrap().into_element(), Content::Text(s("x")));
}

#[test]
fn set_children_replaces_the_children_of_a_tag() {
    let mut node = tag(2, "p");
    assert_eq!(node.set_children(vec![element("a", vec![]), element("b", vec![])]), Ok(()));
    assert_eq!(node.set_children(vec![element("c", vec![])]), Ok(()));
    assert_eq!(
        node,
        BuilderNode::Tag {
            level: 2,
            tag: s("p"),
            class_names: vec![],
            properties: vec![],
            children: vec![element("c", vec![])],
        }
    );
}

#[test]
fn set_children_on_a_leaf_is_a_structural_violation() {
    let mut inline = line(0, "span \"x\"").process().unwrap();
    let before = line(0, "span \"x\"").process().unwrap();
    assert_eq!(inline.set_children(vec![element("a", vec![])]), Err(ErrorKind::StructuralViolation));
    assert_eq!(inline, before);
    assert_eq!(inline.set_children(vec![]), Err(ErrorKind::StructuralViolation));
    let mut text = BuilderNode::Text { level: 1, text: s("t") };
    assert_eq!(text.set_children(vec![element("a", vec![])]), Err(ErrorKind::StructuralViolation));
    assert_eq!(text, BuilderNode::Text { level: 1, text: s("t") });
}

#[test]
fn from_str_keeps_blank_lines() {
    let parser = Parser::from_str("a\n\n  b \"x\"\n").unwrap();
    assert_eq!(
        parser,
        Parser {
            lines: vec![
                Line { level: 0, nodes: vec![Node::Ident(s("a"))] },
                Line { level: 0, nodes: vec![] },
                Line { level: 2, nodes: vec![Node::Ident(s("b")), Node::Literal(s("x"))] },
            ]
        }
    );
    assert_eq!(
        Parser::from_str("a\n  b {"),
        Err(CompileError { kind: ErrorKind::MalformedLine, line: 1, level: 2, token: 1 })
    );
}

#[test]
fn children_follow_the_indentation() {
    assert_eq!(
        build("a\n  b\n    c\n  d\ne\n  f"),
        Ok(vec![
            element("a", vec![element("b", vec![element("c", vec![])]), element("d", vec![])]),
            element("e", vec![element("f", vec![])]),
        ])
    );
}

#[test]
fn siblings_keep_the_order_of_the_lines() {
    let trees = build("r\n  a\n  b\n  c\n  d\n  e").unwrap();
    assert_eq!(render_all(&trees), "<r><a></a><b></b><c></c><d></d><e></e></r>");
    let trees = build("a\nb\nc").unwrap();
    assert_eq!(render_all(&trees), "<a></a><b></b><c></c>");
}

#[test]
fn a_less_indented_child_joins_the_children_before_it() {
    assert_eq!(
        build("a\n    b\n  c\n d"),
        Ok(vec![element("a", vec![element("b", vec![]), element("c", vec![]), element("d", vec![])])])
    );
    assert_eq!(
        build("a\n    b\n      x\n  c\n    y"),
        Ok(vec![element(
            "a",
            vec![element("b", vec![element("x", vec![])]), element("c", vec![element("y", vec![])])]
        )])
    );
}

#[test]
fn a_line_left_of_the_first_starts_a_new_tree() {
    assert_eq!(
        build("    a\n      x\n  b\nc"),
        Ok(vec![element("a", vec![element("x", vec![])]), element("b", vec![]), element("c", vec![])])
    );
}

#[test]
fn blank_lines_do_not_count_for_the_indentation() {
    assert_eq!(
        build("\n\na\n        \n  b\n\n\n  c\n   \n"),
        Ok(vec![element("a", vec![element("b", vec![]), element("c", vec![])])])
    );
}

#[test]
fn a_line_under_a_leaf_is_a_structural_violation() {
    assert_eq!(
        build("html\n  span \"x\"\n    b"),
        Err(CompileError { kind: ErrorKind::StructuralViolation, line: 2, level: 4, token: 0 })
    );
    assert_eq!(
        build("\"text\"\n\n b"),
        Err(CompileError { kind: ErrorKind::StructuralViolation, line: 2, level: 1, token: 0 })
    );
    assert_eq!(
        build("a\n  {x}\n  b\n  \"y\"\n      c\n  \"z\"\n    d"),
        Err(CompileError { kind: ErrorKind::StructuralViolation, line: 4, level: 6, token: 0 })
    );
    assert!(build("a\n  \"x\"\n  \"y\"\nb \"z\"\nc").is_ok());
}

#[test]
fn no_line_with_tokens_is_empty_input() {
    let empty = Err(CompileError { kind: ErrorKind::EmptyInput, line: 0, level: 0, token: 0 });
    assert_eq!(build(""), empty);
    assert_eq!(build("\n"), empty);
    assert_eq!(build("   \n\t\n    "), empty);
    assert_eq!(Parser { lines: vec![] }.build(), empty);
}

#[test]
fn the_first_line_that_cannot_be_read_fails_the_build() {
    assert_eq!(
        build("a\n  b c d\n= x"),
        Err(CompileError { kind: ErrorKind::MalformedLine, line: 1, level: 2, token: 2 })
    );
    assert_eq!(
        build("a \"x\"\n  b\n\n   = c"),
        Err(CompileError { kind: ErrorKind::MissingElementName, line: 3, level: 3, token: 0 })
    );
}

#[test]
fn build_forest_puts_nodes_together() {
    let nodes = vec![tag(0, "a"), tag(2, "b"), BuilderNode::Text { level: 4, text: s("t") }, tag(2, "c")];
    assert_eq!(
        build_forest(nodes),
        Ok(vec![element(
            "a",
            vec![element("b", vec![Content::Text(s("t"))]), element("c", vec![])]
        )])
    );
    assert_eq!(build_forest(Vec::<BuilderNode>::new()), Ok(vec![]));
    let nodes = vec![tag(0, "a"), BuilderNode::Text { level: 0, text: s("t") }, tag(1, "b")];
    assert_eq!(build_forest(nodes), Err(2));
}

#[test]
fn build_forest_keeps_the_children_that_a_node_has() {
    let mut parent = tag(0, "a");
    assert_eq!(parent.set_children(vec![element("old", vec![])]), Ok(()));
    assert_eq!(
        build_forest(vec![parent, tag(1, "new")]),
        Ok(vec![element("a", vec![element("old", vec![]), element("new", vec![])])])
    );
}

#[test]
fn clean_stack_takes_the_last_run_off() {
    let mut stack = vec![tag(0, "a"), tag(2, "b"), tag(2, "c"), tag(2, "d")];
    assert_eq!(
        clean_stack(&mut stack),
        vec![element("b", vec![]), element("c", vec![]), element("d", vec![])]
    );
    assert_eq!(stack, vec![tag(0, "a")]);
    assert_eq!(clean_stack(&mut stack), vec![element("a", vec![])]);
    assert_eq!(stack, vec![]);
    let mut stack = vec![tag(1, "a"), tag(0, "b"), tag(1, "c")];
    assert_eq!(clean_stack(&mut stack), vec![element("c", vec![])]);
    assert_eq!(stack, vec![tag(1, "a"), tag(0, "b")]);
}
