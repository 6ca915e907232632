use tent::html::content::{render_all, Content};
use tent::HtmlContent;

fn s(text: &str) -> String {
    text.to_string()
}

#[test]
fn text_is_rendered_as_it_is() {
    assert_eq!(Content::new_text(s("a < b & \"c\"")).render(), "a < b & \"c\"");
    assert_eq!(Content::new_text(s("")).render(), "");
}

#[test]
fn an_element_without_anything() {
    assert_eq!(Content::new_element(s("br"), vec![], vec![], vec![]).render(), "<br></br>");
}

#[test]
fn classes_come_first_then_the_attributes_in_order() {
    let content = HtmlContent::new_element(
        s("a"),
        vec![s("x"), s("y"), s("z")],
        vec![(s("href"), s("/")), (s("class"), s("w")), (s("data-n"), s(""))],
        vec![Content::new_text(s("go"))],
    );
    assert_eq!(content.render(), "<a class=\"x y z\" href=\"/\" class=\"w\" data-n=\"\">go</a>");
}

#[test]
fn contents_are_rendered_in_order() {
    let content = Content::new_element(
        s("ul"),
        vec![],
        vec![],
        vec![
            Content::new_element(s("li"), vec![s("first")], vec![], vec![Content::new_text(s("1"))]),
            Content::new_text(s(" and ")),
            Content::new_element(s("li"), vec![], vec![], vec![Content::new_text(s("2"))]),
        ],
    );
    assert_eq!(content.render(), "<ul><li class=\"first\">1</li> and <li>2</li></ul>");
}

#[test]
fn new_element_holds_what_it_is_given() {
    assert_eq!(
        Content::new_element(s("p"), vec![s("c")], vec![(s("k"), s("v"))], vec![Content::new_text(s("t"))]),
        Content::Element {
            name: s("p"),
            class_names: vec![s("c")],
            properties: vec![(s("k"), s("v"))],
            contents: vec![Content::Text(s("t"))],
        }
    );
    assert_eq!(Content::new_text(s("t")), Content::Text(s("t")));
}

#[test]
fn a_list_is_rendered_one_after_the_other() {
    assert_eq!(render_all(&vec![]), "");
    assert_eq!(
        render_all(&vec![
            Content::new_text(s("a")),
            Content::new_element(s("b"), vec![], vec![], vec![]),
            Content::new_text(s("c")),
        ]),
        "a<b></b>c"
    );
}
