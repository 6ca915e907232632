use tent::html::content::render_all;
use tent::html::parser::Parser;
use tent::lexer::Node;

/// Compiles markup to text. A group stands for an expression of the program
/// around the markup: `resolve` says what each one evaluates to.
fn compile(input: &str, resolve: &dyn Fn(&str) -> String) -> String {
    let mut parser = Parser::from_str(input).unwrap();
    for line in parser.lines.iter_mut() {
        for node in line.nodes.iter_mut() {
            if let Node::Group(text) = node {
                *text = resolve(text.as_str());
            }
        }
    }
    render_all(&parser.build().unwrap())
}

#[test]
fn html_basic_test_simple() {
    assert_eq!(
        compile(
            r#"
            html
                body
                    span.hello "HELLO!"
                    .hello {"Inner Text"}
        "#,
            &|group| match group {
                "{\"Inner Text\"}" => "Inner Text".to_string(),
                other => panic!("{}", other),
            }
        ),
        vec![
            "<html><body>",
            "<span class=\"hello\">HELLO!</span>",
            "<div class=\"hello\">Inner Text</div>",
            "</body></html>"
        ]
        .join("")
    );
}

#[test]
fn test_text_node() {
    assert_eq!(
        compile(
            r#"
            html
                body
                    span.hello
                        "HELLO!"
                        div "Hi"
                    .hello {"Inner Text"}
        "#,
            &|group| match group {
                "{\"Inner Text\"}" => "Inner Text".to_string(),
                other => panic!("{}", other),
            }
        ),
        vec![
            "<html><body>",
            "<span class=\"hello\">HELLO!<div>Hi</div></span>",
            "<div class=\"hello\">Inner Text</div>",
            "</body></html>"
        ]
        .join("")
    );
}

#[test]
fn test_dynamic_params() {
    let dynamic_param = 32i32;
    assert_eq!(
        compile(
            r#"
            html
                body
                    span class={dynamic_param.to_string()} data={"Inner data"}
                        "HELLO!"
        "#,
            &|group| match group {
                "{dynamic_param.to_string()}" => dynamic_param.to_string(),
                "{\"Inner data\"}" => "Inner data".to_string(),
                other => panic!("{}", other),
            }
        ),
        vec![
            "<html><body>",
            "<span class=\"32\" data=\"Inner data\">HELLO!</span>",
            "</body></html>",
        ]
        .join("")
    );
}

#[test]
fn test_svg_node() {
    assert_eq!(
        compile(
            r#"
            html
                body
                    span.hello dataTest="test-data" "HELLO!"
                    svg version="1.1" viewBox="0 0 1 1"
                        path d=""
        "#,
            &|group| panic!("{}", group)
        ),
        vec![
            "<html><body>",
            "<span class=\"hello\" data-test=\"test-data\">HELLO!</span>",
            "<svg version=\"1.1\" viewBox=\"0 0 1 1\">",
            "<path d=\"\"></path>",
            "</svg>",
            "</body></html>"
        ]
        .join("")
    );
}

#[test]
fn markup_scenario() {
    assert_eq!(
        compile(
            "html\n  body\n    span.hello \"HELLO!\"\n    .hello {\"Inner Text\"}",
            &|group| match group {
                "{\"Inner Text\"}" => "Inner Text".to_string(),
                other => panic!("{}", other),
            }
        ),
        "<html><body><span class=\"hello\">HELLO!</span><div class=\"hello\">Inner Text</div></body></html>"
    );
}

#[test]
fn a_group_that_nobody_resolves_is_rendered_as_written() {
    assert_eq!(
        compile("p id={id} {body}", &|group| group.to_string()),
        "<p id=\"{id}\">{body}</p>"
    );
}

#[test]
fn attribute_names_are_dashed_but_for_view_box() {
    assert_eq!(
        compile("svg dataTest=\"a\" viewBox=\"0 0 1 1\" strokeWidth=\"2\"", &|group| panic!("{}", group)),
        "<svg data-test=\"a\" viewBox=\"0 0 1 1\" stroke-width=\"2\"></svg>"
    );
}
