use tent::html::parser::Line;
use tent::text::join;
use tent::util::{camelcase_to_dashed, push_dashed};
use tent::vecs::reversed;

#[test]
fn uppercase_letters_become_a_hyphen_and_lowercase() {
    assert_eq!(camelcase_to_dashed("fontFamily"), "font-family");
    assert_eq!(camelcase_to_dashed("dataTest"), "data-test");
    assert_eq!(camelcase_to_dashed("viewBox"), "view-box");
    assert_eq!(camelcase_to_dashed("ABc"), "-a-bc");
    assert_eq!(camelcase_to_dashed("Élan"), "-élan");
    assert_eq!(camelcase_to_dashed(""), "");
}

#[test]
fn a_lowercase_form_may_be_longer_than_one_character() {
    assert_eq!(camelcase_to_dashed("\u{130}"), "-i\u{307}");
}

#[test]
fn a_dashed_name_stays() {
    for name in ["font-family", "data-test", "x", "a1-b2", "_private", "-a-bc"] {
        assert_eq!(camelcase_to_dashed(name), name);
        assert_eq!(camelcase_to_dashed(&camelcase_to_dashed(name)), name);
    }
}

#[test]
fn push_dashed_appends_one_character() {
    let mut out = String::from("ab");
    push_dashed(&mut out, 'C', true, "c");
    assert_eq!(out, "ab-c");
    push_dashed(&mut out, 'd', false, "");
    assert_eq!(out, "ab-cd");
    push_dashed(&mut out, 'E', false, "e");
    assert_eq!(out, "ab-cdE");
}

#[test]
fn only_view_box_is_kept_among_attribute_names() {
    assert_eq!(Line::property_name_to_dashed("viewBox"), "viewBox");
    assert_eq!(Line::property_name_to_dashed("dataTest"), "data-test");
    assert_eq!(Line::property_name_to_dashed("viewbox"), "viewbox");
    assert_eq!(Line::property_name_to_dashed("ViewBox"), "-view-box");
    assert_eq!(Line::property_name_to_dashed("viewBoxes"), "view-boxes");
}

#[test]
fn join_puts_the_separator_between() {
    let words = |list: &[&str]| -> Vec<String> { list.iter().map(|w| w.to_string()).collect() };
    assert_eq!(join(&words(&[]), " "), "");
    assert_eq!(join(&words(&["a"]), " "), "a");
    assert_eq!(join(&words(&["a", "b", "c"]), ", "), "a, b, c");
}

#[test]
fn reversed_turns_the_order() {
    assert_eq!(reversed(vec![1, 2, 3]), vec![3, 2, 1]);
    assert_eq!(reversed(Vec::<u8>::new()), Vec::<u8>::new());
}
