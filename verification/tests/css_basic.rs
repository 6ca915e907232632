use tent::css::parser::Parser;

/// Compiles a style sheet to text.
fn compile(input: &str) -> String {
    Parser::from_str(input).unwrap().build().unwrap().flatten().render()
}

#[test]
fn css_basic_test_simple() {
    assert_eq!(
        compile(
            r#"
            body
                fontFamily: "sans-serif"
            #idTest
                width: "100px"
            .notice
                width: "400px"
                height: "300px"
                margin: "auto"
                fontSize: "2em"
                textAlign: "center"
                .head
                    fontSize: "4em"
                .content
                    fontSize: "0.5em"
                    lineHeight: "1.5em"
        "#
        ),
        vec![
            "body {font-family: sans-serif;}",
            "#idTest {width: 100px;}",
            ".notice .head {font-size: 4em;}",
            ".notice .content {font-size: 0.5em;line-height: 1.5em;}",
            ".notice {width: 400px;height: 300px;margin: auto;font-size: 2em;text-align: center;}",
        ]
        .join(""),
    );
}

#[test]
fn test_font() {
    assert_eq!(
        compile(
            r#"
            @fontFace
                fontFamily: "myfont"
                src: "url('/assets/font.woff') format('woff')"
        "#
        ),
        vec![
            "@font-face {",
            "font-family: myfont;",
            "src: url(\'/assets/font.woff\') format(\'woff\');",
            "}",
        ]
        .join(""),
    );
}

#[test]
fn style_scenario() {
    assert_eq!(
        compile(
            "body\n  fontFamily: \"sans-serif\"\n.notice\n  width: \"400px\"\n  .head\n    fontSize: \"4em\""
        ),
        "body {font-family: sans-serif;}.notice .head {font-size: 4em;}.notice {width: 400px;}"
    );
}

#[test]
fn an_at_rule_keeps_its_prefix() {
    assert_eq!(compile("@fontFace\n  src: \"x\""), "@font-face {src: x;}");
}
