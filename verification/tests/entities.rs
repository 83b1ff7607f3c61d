use html_highlight::entities::{html_unescape, unescape_chars};

fn escape(s: &str) -> String {
    let mut out = String::new();
    for c in s.chars() {
        match c {
            '<' => out.push_str("&lt;"),
            '>' => out.push_str("&gt;"),
            '&' => out.push_str("&amp;"),
            '"' => out.push_str("&quot;"),
            _ => out.push(c),
        }
    }
    out
}

#[test]
fn named_references_are_decoded() {
    assert_eq!(html_unescape("a &lt; b &amp;&amp; c &gt; d"), "a < b && c > d");
    assert_eq!(html_unescape("&quot;x&quot;"), "\"x\"");
    assert_eq!(html_unescape("&lt;"), "<");
    assert_eq!(html_unescape("&gt;"), ">");
    assert_eq!(html_unescape("&amp;"), "&");
    assert_eq!(html_unescape("&quot;"), "\"");
}

#[test]
fn text_without_references_is_unchanged() {
    assert_eq!(html_unescape(""), "");
    assert_eq!(html_unescape("fn main() {}"), "fn main() {}");
    assert_eq!(html_unescape("x = 1; y = 2;"), "x = 1; y = 2;");
}

#[test]
fn decimal_references_are_decoded() {
    assert_eq!(html_unescape("&#65;"), "A");
    assert_eq!(html_unescape("&#065;&#66;"), "AB");
    assert_eq!(html_unescape("&#8364;"), "\u{20ac}");
    assert_eq!(html_unescape("&#1114111;"), "\u{10ffff}");
    assert_eq!(html_unescape("&#0;"), "\u{0}");
}

#[test]
fn hexadecimal_references_are_decoded() {
    assert_eq!(html_unescape("&#x41;"), "A");
    assert_eq!(html_unescape("&#X41;"), "A");
    assert_eq!(html_unescape("&#x20AC;"), "\u{20ac}");
    assert_eq!(html_unescape("&#x20ac;"), "\u{20ac}");
    assert_eq!(html_unescape("&#x1F600;"), "\u{1f600}");
    assert_eq!(html_unescape("&#x10FFFF;"), "\u{10ffff}");
}

#[test]
fn a_sign_is_no_digit() {
    assert_eq!(html_unescape("&#+65;"), "&#+65;");
    assert_eq!(html_unescape("&#x+41;"), "&#x+41;");
    assert_eq!(html_unescape("&#+;"), "&#+;");
    assert_eq!(html_unescape("&#-65;"), "&#-65;");
}

#[test]
fn a_reference_without_semicolon_is_kept() {
    assert_eq!(html_unescape("&lt"), "&lt");
    assert_eq!(html_unescape("&#65"), "&#65");
    assert_eq!(html_unescape("&#x41"), "&#x41");
    assert_eq!(html_unescape("a & b"), "a & b");
    assert_eq!(html_unescape("&"), "&");
    assert_eq!(html_unescape("&&"), "&&");
}

#[test]
fn a_reference_with_wrong_digits_is_kept() {
    assert_eq!(html_unescape("&#;"), "&#;");
    assert_eq!(html_unescape("&#x;"), "&#x;");
    assert_eq!(html_unescape("&#12a;"), "&#12a;");
    assert_eq!(html_unescape("&#xg1;"), "&#xg1;");
    assert_eq!(html_unescape("&#6 5;"), "&#6 5;");
    assert_eq!(html_unescape("&#x41 and more;"), "&#x41 and more;");
}

#[test]
fn a_number_that_names_no_character_is_kept() {
    assert_eq!(html_unescape("&#xD800;"), "&#xD800;");
    assert_eq!(html_unescape("&#xDFFF;"), "&#xDFFF;");
    assert_eq!(html_unescape("&#x110000;"), "&#x110000;");
    assert_eq!(html_unescape("&#1114112;"), "&#1114112;");
    assert_eq!(html_unescape("&#4294967296;"), "&#4294967296;");
    assert_eq!(html_unescape("&#99999999999999999999999;"), "&#99999999999999999999999;");
    assert_eq!(html_unescape("&#xD7FF;"), "\u{d7ff}");
    assert_eq!(html_unescape("&#xE000;"), "\u{e000}");
}

#[test]
fn what_follows_a_kept_ampersand_is_read_again() {
    assert_eq!(html_unescape("&#x&lt;;"), "&#x<;");
    assert_eq!(html_unescape("&&amp;"), "&&");
    assert_eq!(html_unescape("&#&#65;"), "&#A");
    assert_eq!(html_unescape("&l&lt;"), "&l<");
}

#[test]
fn decoding_is_done_once() {
    assert_eq!(html_unescape("&amp;lt;"), "&lt;");
    assert_eq!(html_unescape("&amp;#65;"), "&#65;");
    assert_eq!(html_unescape(&html_unescape("&amp;lt;")), "<");
}

#[test]
fn characters_of_several_bytes_are_kept_whole() {
    assert_eq!(html_unescape("h\u{e9}llo &lt; w\u{f6}rld"), "h\u{e9}llo < w\u{f6}rld");
    assert_eq!(html_unescape("\u{1f600}&amp;\u{1f600}"), "\u{1f600}&\u{1f600}");
    assert_eq!(html_unescape("&\u{e9};"), "&\u{e9};");
}

#[test]
fn decoding_undoes_escaping() {
    let samples = [
        "",
        "plain",
        "<a href=\"x\">T&C</a>",
        "&lt; already escaped &amp; more",
        "&&&&",
        "<<>>\"\"",
        "fn main() { println!(\"{}\", 1 < 2 && 3 > 2); }",
        "\u{e9}\u{20ac}\u{1f600}<\u{0}>",
        "&#65; &#x41; &#",
    ];
    for s in samples {
        assert_eq!(html_unescape(&escape(s)), s);
    }
}

#[test]
fn decoded_text_without_references_is_a_fixed_point() {
    let samples = ["a < b", "x && y", "&#65", "& lt;", "AT&T", "&#xZZ;", "\"q\""];
    for s in samples {
        assert_eq!(html_unescape(s), s);
        assert_eq!(html_unescape(&html_unescape(s)), html_unescape(s));
    }
}

#[test]
fn characters_are_decoded_as_strings_are() {
    let s: Vec<char> = "a&lt;b&#x41;&".chars().collect();
    let expected: Vec<char> = "a<bA&".chars().collect();
    assert_eq!(unescape_chars(&s), expected);
}
