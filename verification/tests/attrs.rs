use html_highlight::attrs::{
    captured_value, extract_class_attr, locate, merge_classes, normalize, update_or_add_class,
};

fn chars(s: &str) -> Vec<char> {
    s.chars().collect()
}

fn text(v: &[char]) -> String {
    v.iter().collect()
}

#[test]
fn class_value_in_double_quotes() {
    assert_eq!(extract_class_attr(" class=\"rust\""), Some("rust".to_string()));
    assert_eq!(extract_class_attr(" id=\"x\" class=\"a b\" title=\"t\""), Some("a b".to_string()));
    assert_eq!(extract_class_attr("class = \"a\""), Some("a".to_string()));
    assert_eq!(extract_class_attr("class\t=\n\"a\""), Some("a".to_string()));
}

#[test]
fn class_value_in_single_quotes() {
    assert_eq!(extract_class_attr(" class='python'"), Some("python".to_string()));
    assert_eq!(extract_class_attr(" class = 'a  b'"), Some("a  b".to_string()));
}

#[test]
fn class_value_is_returned_as_it_stands() {
    assert_eq!(extract_class_attr(" class=\"  a   b \""), Some("  a   b ".to_string()));
    assert_eq!(extract_class_attr(" class=\"it's\""), Some("it's".to_string()));
    assert_eq!(extract_class_attr(" class=\"gr\u{fc}n \u{20ac}\""), Some("gr\u{fc}n \u{20ac}".to_string()));
    assert_eq!(extract_class_attr(" \u{20ac}=\"\u{e9}\" class=\"x\""), Some("x".to_string()));
}

#[test]
fn no_class_attribute() {
    assert_eq!(extract_class_attr(""), None);
    assert_eq!(extract_class_attr(" id=\"x\""), None);
    assert_eq!(extract_class_attr(" class=rust"), None);
    assert_eq!(extract_class_attr(" class=\"\""), None);
    assert_eq!(extract_class_attr(" class=''"), None);
    assert_eq!(extract_class_attr(" class=\"open"), None);
}

#[test]
fn double_quotes_are_looked_for_first() {
    assert_eq!(extract_class_attr(" class='a' class=\"b\""), Some("b".to_string()));
    assert_eq!(extract_class_attr(" class=\"\" class='c'"), Some("c".to_string()));
}

#[test]
fn other_attributes_may_use_the_other_quotes() {
    assert_eq!(extract_class_attr(" id='a' class=\"b\""), Some("b".to_string()));
    assert_eq!(extract_class_attr(" id=\"a\" class='b'"), Some("b".to_string()));
    assert_eq!(
        update_or_add_class(" id='a' class=\"b\"", "m", None),
        " id='a' class=\"b m\""
    );
    assert_eq!(
        update_or_add_class(" id=\"a\" class='b'", "m", None),
        " id=\"a\" class='b m'"
    );
}

#[test]
fn only_the_first_class_attribute_counts() {
    assert_eq!(extract_class_attr(" class=\"a\" class=\"b\""), Some("a".to_string()));
    assert_eq!(extract_class_attr(" class='a' class='b'"), Some("a".to_string()));
}

#[test]
fn single_quoted_class_is_merged_in_single_quotes() {
    assert_eq!(
        update_or_add_class("class='a b'", "sourceCode", Some("rust")),
        " class='a b sourceCode rust'"
    );
    assert_eq!(
        update_or_add_class(" class='a b'", "sourceCode", Some("rust")),
        " class='a b sourceCode rust'"
    );
}

#[test]
fn double_quoted_class_is_merged_in_double_quotes() {
    assert_eq!(
        update_or_add_class(" class=\"rust\"", "sourceCode", Some("rust")),
        " class=\"rust sourceCode\""
    );
    assert_eq!(
        update_or_add_class(" id=\"x\" class=\"a\" title=\"t\"", "sourceCode", None),
        " id=\"x\" class=\"a sourceCode\" title=\"t\""
    );
}

#[test]
fn words_that_are_present_are_not_added_again() {
    assert_eq!(
        update_or_add_class(" class=\"sourceCode rust\"", "sourceCode", Some("rust")),
        " class=\"sourceCode rust\""
    );
    assert_eq!(
        update_or_add_class(" class=\"b a\"", "a b c", Some("a")),
        " class=\"b a c\""
    );
    assert_eq!(update_or_add_class("", "x x", Some("x")), " class=\"x\"");
}

#[test]
fn words_of_the_value_are_joined_by_single_spaces() {
    assert_eq!(
        update_or_add_class(" class=\"  a \t b  \"", "c", None),
        " class=\"a b c\""
    );
    assert_eq!(update_or_add_class(" class=\"\"", "c", None), " class=\"c\"");
    assert_eq!(update_or_add_class(" class = ' a '", "", None), " class='a'");
}

#[test]
fn marker_classes_come_before_the_language() {
    assert_eq!(update_or_add_class("", "sourceCode", Some("rust")), " class=\"sourceCode rust\"");
    assert_eq!(update_or_add_class("", "m1 m2", Some("css")), " class=\"m1 m2 css\"");
    assert_eq!(update_or_add_class("", "", Some("css")), " class=\"css\"");
}

#[test]
fn a_class_attribute_is_added_where_there_is_none() {
    assert_eq!(update_or_add_class("", "sourceCode", None), " class=\"sourceCode\"");
    assert_eq!(update_or_add_class("   ", "sourceCode", None), " class=\"sourceCode\"");
    assert_eq!(
        update_or_add_class("id=\"x\" data-y=\"1\"", "sourceCode", None),
        " id=\"x\" data-y=\"1\" class=\"sourceCode\""
    );
    assert_eq!(
        update_or_add_class(" id=\"x\" data-y=\"1\"", "sourceCode", Some("rust")),
        " id=\"x\" data-y=\"1\" class=\"sourceCode rust\""
    );
    assert_eq!(
        update_or_add_class("  id=\"x\"  ", "a", None),
        " id=\"x\" class=\"a\""
    );
}

#[test]
fn nothing_to_add_leaves_the_attributes() {
    assert_eq!(update_or_add_class(" id=\"x\"", "", None), " id=\"x\"");
    assert_eq!(update_or_add_class("id=\"x\"", "", None), " id=\"x\"");
    assert_eq!(update_or_add_class(" id=\"x\"", "  ", None), " id=\"x\"");
    assert_eq!(update_or_add_class("", "", None), "");
    assert_eq!(update_or_add_class(" \t\n", "", None), "");
}

#[test]
fn the_result_starts_with_exactly_one_space() {
    assert_eq!(update_or_add_class("class=\"a\"", "b", None), " class=\"a b\"");
    assert_eq!(update_or_add_class("   class=\"a\"", "b", None), " class=\"a b\"");
    assert_eq!(update_or_add_class("\tclass=\"a\"", "b", None), " \tclass=\"a b\"");
    assert_eq!(update_or_add_class(" class=\"a\"  ", "b", None), " class=\"a b\"  ");
}

#[test]
fn merging_twice_is_merging_once() {
    let samples = [
        "",
        " id=\"x\"",
        " class=\"a b\"",
        "class='a b'",
        " id=\"x\" class = \"  rust  \" data-y='1'",
        "   lang=\"en\"   ",
    ];
    for attrs in samples {
        let once = update_or_add_class(attrs, "sourceCode", Some("rust"));
        let twice = update_or_add_class(&once, "sourceCode", Some("rust"));
        assert_eq!(once, twice);
    }
}

#[test]
fn merging_twice_can_differ_after_an_open_quote() {
    let once = update_or_add_class(" class=\"a", "sourceCode", None);
    assert_eq!(once, " class=\"a class=\"sourceCode\"");
    let twice = update_or_add_class(&once, "sourceCode", None);
    assert_eq!(twice, " class=\"a class= sourceCode\"sourceCode\"");
}

#[test]
fn other_attributes_are_kept_as_they_are() {
    let out = update_or_add_class("id=\"x\" data-y=\"1\"", "sourceCode", Some("python"));
    assert!(out.contains("id=\"x\" data-y=\"1\""));
    assert!(out.ends_with(" class=\"sourceCode python\""));
    let out = update_or_add_class(" a='1'  class=\"k\"  b=\"2\"", "m", None);
    assert_eq!(out, " a='1'  class=\"k m\"  b=\"2\"");
}

#[test]
fn a_dollar_sign_in_a_class_is_kept() {
    assert_eq!(update_or_add_class(" class=\"$1 a$0\"", "m", None), " class=\"$1 a$0 m\"");
}

#[test]
fn a_report_is_checked_before_it_is_used() {
    let attrs = chars(" class=\"ab\"");
    let good = Some(vec![Some((1, 11)), Some((8, 10))]);
    assert!(locate(attrs.len(), &good).is_some());
    assert_eq!(captured_value(&attrs, &good), Some(chars("ab")));
    let too_long = Some(vec![Some((1, 12)), Some((8, 10))]);
    assert!(locate(attrs.len(), &too_long).is_none());
    let outside = Some(vec![Some((1, 9)), Some((8, 10))]);
    assert!(locate(attrs.len(), &outside).is_none());
    let reversed = Some(vec![Some((1, 11)), Some((10, 8))]);
    assert!(locate(attrs.len(), &reversed).is_none());
    let short = Some(vec![Some((1, 11))]);
    assert!(locate(attrs.len(), &short).is_none());
    let missing = Some(vec![Some((1, 11)), None]);
    assert!(locate(attrs.len(), &missing).is_none());
    assert!(locate(attrs.len(), &None).is_none());
    assert_eq!(captured_value(&attrs, &None), None);
}

#[test]
fn classes_are_merged_at_the_reported_place() {
    let attrs = chars(" class=\"ab\" x");
    let double = Some(vec![Some((1, 11)), Some((8, 10))]);
    let added = vec![chars("m"), chars("ab"), chars("n")];
    assert_eq!(text(&merge_classes(&attrs, &double, &None, &added)), " class=\"ab m n\" x");
    let attrs = chars("class='ab'");
    let single = Some(vec![Some((0, 10)), Some((7, 9))]);
    assert_eq!(text(&merge_classes(&attrs, &None, &single, &added)), " class='ab m n'");
    assert_eq!(text(&merge_classes(&attrs, &None, &None, &added)), " class='ab' class=\"m ab n\"");
    let bad = Some(vec![Some((0, 99)), Some((7, 9))]);
    assert_eq!(text(&merge_classes(&attrs, &bad, &single, &added)), " class='ab m n'");
}

#[test]
fn attribute_text_is_normalized() {
    assert_eq!(text(&normalize(&chars(""))), "");
    assert_eq!(text(&normalize(&chars(" \u{a0}\u{2003}"))), "");
    assert_eq!(text(&normalize(&chars("a"))), " a");
    assert_eq!(text(&normalize(&chars(" a"))), " a");
    assert_eq!(text(&normalize(&chars("    a "))), " a ");
    assert_eq!(text(&normalize(&chars("\n a"))), " \n a");
}
