use tent::css::content::{Content, Item};
use tent::css::parser::{BuilderNode, Line, LineBuilder, Parser};
use tent::error::{CompileError, ErrorKind, LineError};
use tent::lexer::Node;
use tent::text::chars_of;
use tent::tree::build_forest;
use tent::{CssContent, CssItem};

fn s(text: &str) -> String {
    text.to_string()
}

fn line(level: usize, text: &str) -> Line {
    Line { level, nodes: tent::lexer::tokenize(&chars_of(text)).unwrap() }
}

fn node(name: &str, children: Vec<Item>) -> Item {
    Item::Node { name: s(name), children }
}

fn declaration(property: &str, value: &str) -> Item {
    Item::Declaration(s(property), s(value))
}

fn selector(level: usize, name: &str) -> Result<BuilderNode, LineError> {
    Ok(BuilderNode { level, inner: node(name, vec![]) })
}

fn fails(kind: ErrorKind, token: usize) -> Result<BuilderNode, LineError> {
    Err(LineError { kind, token })
}

fn build(input: &str) -> Result<Content, CompileError> {
    Parser::from_str(input).unwrap().build()
}

#[test]
fn style_line_builder_gathers_tokens() {
    let mut builder = LineBuilder::new(2);
    builder.put(Node::Punct('.'));
    builder.put(Node::Ident(s("a")));
    assert_eq!(
        builder.build(),
        Some(Line { level: 2, nodes: vec![Node::Punct('.'), Node::Ident(s("a"))] })
    );
    assert_eq!(LineBuilder::default().build(), None);
}

#[test]
fn selectors() {
    assert_eq!(line(0, "body").process(), selector(0, "body"));
    assert_eq!(line(4, ".notice").process(), selector(4, ".notice"));
    assert_eq!(line(0, "#idTest").process(), selector(0, "#idTest"));
    assert_eq!(line(0, "ul li a").process(), selector(0, "ul li a"));
    assert_eq!(line(0, "ul > li").process(), selector(0, "ul > li"));
    assert_eq!(line(0, "a.b").process(), selector(0, "a .b"));
    assert_eq!(line(0, ".a.b").process(), selector(0, ".a .b"));
    assert_eq!(line(0, ".a #b c").process(), selector(0, ".a #b c"));
    assert_eq!(line(0, "a b.c").process(), selector(0, "a b .c"));
    assert_eq!(line(0, ".#a").process(), selector(0, ".#a"));
    assert_eq!(line(0, "a b : c").process(), selector(0, "a b :c"));
    assert_eq!(line(0, "fontSize").process(), selector(0, "fontSize"));
}

#[test]
fn an_at_rule_is_dashed_behind_its_prefix() {
    assert_eq!(line(0, "@fontFace").process(), selector(0, "@font-face"));
    assert_eq!(line(0, "@media screen").process(), selector(0, "@media screen"));
    assert_eq!(line(0, "@keyFrames fadeIn").process(), selector(0, "@key-frames fadeIn"));
}

#[test]
fn declarations() {
    assert_eq!(
        line(2, "fontSize: \"4em\"").process(),
        Ok(BuilderNode { level: 2, inner: declaration("font-size", "4em") })
    );
    assert_eq!(
        line(2, "width: {width}").process(),
        Ok(BuilderNode { level: 2, inner: declaration("width", "{width}") })
    );
    assert_eq!(
        line(0, "src: \"url('/a.woff') format('woff')\"").process(),
        Ok(BuilderNode { level: 0, inner: declaration("src", "url('/a.woff') format('woff')") })
    );
    assert_eq!(
        line(0, "@fontFace: \"x\"").process(),
        Ok(BuilderNode { level: 0, inner: declaration("@font-face", "x") })
    );
}

#[test]
fn a_declaration_without_its_value_is_unterminated() {
    assert_eq!(line(0, "color:").process(), fails(ErrorKind::UnterminatedDeclaration, 2));
    assert_eq!(line(0, "color: red").process(), fails(ErrorKind::UnterminatedDeclaration, 2));
    assert_eq!(line(0, "color: : \"red\"").process(), fails(ErrorKind::UnterminatedDeclaration, 2));
}

#[test]
fn a_style_line_that_names_no_node_fails() {
    assert_eq!(line(0, ": \"x\"").process(), fails(ErrorKind::MissingElementName, 0));
    assert_eq!(line(0, "= a").process(), fails(ErrorKind::MissingElementName, 0));
    assert_eq!(line(0, "").process(), fails(ErrorKind::MissingElementName, 0));
    assert_eq!(line(0, ".").process(), fails(ErrorKind::MissingElementName, 1));
    assert_eq!(line(0, "@").process(), fails(ErrorKind::MissingElementName, 1));
    assert_eq!(line(0, "a .").process(), fails(ErrorKind::MissingElementName, 2));
    assert_eq!(line(0, "a b #").process(), fails(ErrorKind::MissingElementName, 3));
}

#[test]
fn a_style_token_that_cannot_follow_fails() {
    assert_eq!(line(0, "\"x\"").process(), fails(ErrorKind::MalformedLine, 0));
    assert_eq!(line(0, "{x}").process(), fails(ErrorKind::MalformedLine, 0));
    assert_eq!(line(0, "a \"x\"").process(), fails(ErrorKind::MalformedLine, 1));
    assert_eq!(line(0, "a#b").process(), fails(ErrorKind::MalformedLine, 1));
    assert_eq!(line(0, "a = b").process(), fails(ErrorKind::MalformedLine, 1));
    assert_eq!(line(0, "@ \"x\"").process(), fails(ErrorKind::MalformedLine, 1));
    assert_eq!(line(0, "@.a").process(), fails(ErrorKind::MalformedLine, 1));
    assert_eq!(line(0, "a b \"x\"").process(), fails(ErrorKind::MalformedLine, 2));
    assert_eq!(line(0, ".a: \"x\"").process(), fails(ErrorKind::MalformedLine, 3));
    assert_eq!(line(0, ". \"x\"").process(), fails(ErrorKind::MalformedLine, 1));
    assert_eq!(line(0, "a: \"x\" b").process(), fails(ErrorKind::MalformedLine, 3));
    assert_eq!(line(0, "a: \"x\" \"y\"").process(), fails(ErrorKind::MalformedLine, 3));
}

#[test]
fn set_children_replaces_what_stands_under_a_node() {
    let mut builder = BuilderNode { level: 3, inner: node("a", vec![declaration("x", "1")]) };
    assert_eq!(builder.set_children(vec![declaration("y", "2"), node("b", vec![])]), Ok(()));
    assert_eq!(
        builder,
        BuilderNode { level: 3, inner: node("a", vec![declaration("y", "2"), node("b", vec![])]) }
    );
}

#[test]
fn set_children_on_a_declaration_is_a_structural_violation() {
    let mut builder = BuilderNode { level: 3, inner: declaration("x", "1") };
    assert_eq!(builder.set_children(vec![declaration("y", "2")]), Err(ErrorKind::StructuralViolation));
    assert_eq!(builder, BuilderNode { level: 3, inner: declaration("x", "1") });
    assert_eq!(builder.set_children(vec![]), Err(ErrorKind::StructuralViolation));
}

#[test]
fn items_follow_the_indentation() {
    assert_eq!(
        build("body\n  fontFamily: \"sans-serif\"\n.notice\n  width: \"400px\"\n  .head\n    fontSize: \"4em\""),
        Ok(Content {
            items: vec![
                node("body", vec![declaration("font-family", "sans-serif")]),
                node(
                    ".notice",
                    vec![
                        declaration("width", "400px"),
                        node(".head", vec![declaration("font-size", "4em")]),
                    ]
                ),
            ]
        })
    );
}

#[test]
fn a_less_indented_item_joins_the_items_before_it() {
    assert_eq!(
        build("a\n    x: \"1\"\n  b\n    y: \"2\"\n  z: \"3\""),
        Ok(Content {
            items: vec![node(
                "a",
                vec![declaration("x", "1"), node("b", vec![declaration("y", "2")]), declaration("z", "3")]
            )]
        })
    );
}

#[test]
fn a_line_under_a_declaration_is_a_structural_violation() {
    assert_eq!(
        build("body\n  width: \"1px\"\n\n    color: \"red\""),
        Err(CompileError { kind: ErrorKind::StructuralViolation, line: 3, level: 4, token: 0 })
    );
    assert_eq!(
        build("width: \"1px\"\n body"),
        Err(CompileError { kind: ErrorKind::StructuralViolation, line: 1, level: 1, token: 0 })
    );
}

#[test]
fn failures_of_the_build() {
    assert_eq!(
        build("\n  \n"),
        Err(CompileError { kind: ErrorKind::EmptyInput, line: 0, level: 0, token: 0 })
    );
    assert_eq!(
        build("body\n  color:\n"),
        Err(CompileError { kind: ErrorKind::UnterminatedDeclaration, line: 1, level: 2, token: 2 })
    );
    assert_eq!(
        build("x: \"1\"\n  y: \"2\"\n    .\n"),
        Err(CompileError { kind: ErrorKind::MissingElementName, line: 2, level: 4, token: 1 })
    );
    assert_eq!(
        build("a\n\n   b \"c\""),
        Err(CompileError { kind: ErrorKind::MalformedLine, line: 2, level: 3, token: 1 })
    );
    assert_eq!(
        Parser::from_str("a\n  b: \"c"),
        Err(CompileError { kind: ErrorKind::MalformedLine, line: 1, level: 2, token: 2 })
    );
}

#[test]
fn build_forest_puts_items_together() {
    let nodes = vec![
        BuilderNode { level: 0, inner: node("a", vec![]) },
        BuilderNode { level: 1, inner: declaration("x", "1") },
        BuilderNode { level: 1, inner: node("b", vec![]) },
        BuilderNode { level: 0, inner: declaration("y", "2") },
    ];
    assert_eq!(
        build_forest(nodes),
        Ok(vec![node("a", vec![declaration("x", "1"), node("b", vec![])]), declaration("y", "2")])
    );
    let nodes = vec![
        BuilderNode { level: 0, inner: node("a", vec![]) },
        BuilderNode { level: 1, inner: declaration("x", "1") },
        BuilderNode { level: 1, inner: declaration("y", "2") },
        BuilderNode { level: 2, inner: declaration("z", "3") },
    ];
    assert_eq!(build_forest(nodes), Err(3));
}

#[test]
fn flatten_goes_in_post_order() {
    let sheet = build("a\n  x: \"1\"\n  b\n    c\n      y: \"2\"\n    z: \"3\"\n  d\n    w: \"4\"\n  v: \"5\"\ne\n")
        .unwrap();
    assert_eq!(
        sheet.flatten(),
        Content {
            items: vec![
                node("a b c", vec![declaration("y", "2")]),
                node("a b", vec![declaration("z", "3")]),
                node("a d", vec![declaration("w", "4")]),
                node("a", vec![declaration("x", "1"), declaration("v", "5")]),
                node("e", vec![]),
            ]
        }
    );
}

#[test]
fn a_node_without_declarations_still_gives_its_rule() {
    let sheet = build("a\n  b\n    c: \"1\"").unwrap().flatten();
    assert_eq!(sheet.render(), "a b {c: 1;}a {}");
}

#[test]
fn flatten_leaves_a_flat_sheet_as_it_is() {
    let flat = || CssContent {
        items: vec![
            node("a b", vec![declaration("x", "1"), declaration("y", "2")]),
            node("a", vec![]),
            node(".c", vec![declaration("z", "3")]),
        ],
    };
    assert_eq!(flat().flatten(), flat());
    let nested = || build("a\n  b\n    x: \"1\"\n  y: \"2\"\nc\n  d\n    e\n").unwrap();
    assert_eq!(nested().flatten().flatten(), nested().flatten());
    assert_eq!(Content { items: vec![] }.flatten(), Content { items: vec![] });
}

#[test]
fn a_declaration_under_no_node_stays_where_it_is() {
    let sheet = build("color: \"red\"\nbody\n  x: \"1\"\nwidth: \"2\"").unwrap().flatten();
    assert_eq!(
        sheet,
        Content {
            items: vec![
                declaration("color", "red"),
                node("body", vec![declaration("x", "1")]),
                declaration("width", "2"),
            ]
        }
    );
    assert_eq!(sheet.render(), "color: red;body {x: 1;}width: 2;");
}

#[test]
fn flatten_of_one_item() {
    assert_eq!(
        declaration("x", "1").flatten(Some(s("a"))),
        (Some(declaration("x", "1")), vec![])
    );
    assert_eq!(
        node("b", vec![declaration("x", "1"), node("c", vec![])]).flatten(Some(s("a"))),
        (None, vec![node("a b c", vec![]), node("a b", vec![declaration("x", "1")])])
    );
    assert_eq!(node("b", vec![]).flatten(None), (None, vec![node("b", vec![])]));
}

#[test]
fn items_are_rendered_in_order() {
    assert_eq!(CssItem::Declaration(s("font-size"), s("4em")).render(), "font-size: 4em;");
    assert_eq!(node("a", vec![]).render(), "a {}");
    assert_eq!(
        node("a", vec![declaration("x", "1"), node("b", vec![declaration("y", "2")]), declaration("z", "3")])
            .render(),
        "a {x: 1;b {y: 2;}z: 3;}"
    );
    assert_eq!(Content { items: vec![] }.render(), "");
    assert_eq!(
        Content { items: vec![node("a", vec![]), node("b", vec![declaration("x", "1")])] }.render(),
        "a {}b {x: 1;}"
    );
}

#[test]
fn empty_rules_are_left_out_on_demand() {
    let sheet = || build("a\n  b\n    c: \"1\"\n  d\ne\nf\n  x: \"2\"").unwrap();
    assert_eq!(sheet().flatten_with(true).render(), "a b {c: 1;}a d {}a {}e {}f {x: 2;}");
    assert_eq!(sheet().flatten_with(true), sheet().flatten());
    assert_eq!(sheet().flatten_with(false).render(), "a b {c: 1;}f {x: 2;}");
    assert_eq!(sheet().flatten_with(false).flatten_with(false), sheet().flatten_with(false));
    assert_eq!(sheet().flatten_with(true).flatten_with(false), sheet().flatten_with(false));
    assert_eq!(
        node("b", vec![node("c", vec![]), node("d", vec![declaration("x", "1")])])
            .flatten_with(Some(s("a")), false),
        (None, vec![node("a b d", vec![declaration("x", "1")])])
    );
    assert_eq!(declaration("x", "1").flatten_with(None, false), (Some(declaration("x", "1")), vec![]));
}
