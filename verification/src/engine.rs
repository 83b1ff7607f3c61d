//! The highlighting engine: tree-sitter parses the source and marks its
//! tokens, and the result is rendered as HTML in which each token stands in a
//! `span` with the classes of its category.

use crate::engine::Grammar::{Css, Html, Javascript, Python, Rust};
use crate::text::string_view;
use tree_sitter_css::{HIGHLIGHTS_QUERY as CSS_QUERY, LANGUAGE as CSS};
use tree_sitter_highlight::{Highlight, HighlightConfiguration, Highlighter, HtmlRenderer};
use tree_sitter_html::{HIGHLIGHTS_QUERY as HTML_QUERY, LANGUAGE as HTML};
use tree_sitter_javascript::{HIGHLIGHT_QUERY as JAVASCRIPT_QUERY, LANGUAGE as JAVASCRIPT};
use tree_sitter_python::{HIGHLIGHTS_QUERY as PYTHON_QUERY, LANGUAGE as PYTHON};
use tree_sitter_rust::{HIGHLIGHTS_QUERY as RUST_QUERY, LANGUAGE as RUST};
use vstd::prelude::*;
use vstd::utf8::encode_utf8;

verus! {

/// A grammar that the engine knows.
#[derive(Clone, Copy, Debug, PartialEq, Eq, Structural)]
pub enum Grammar {
    Rust,
    Javascript,
    Html,
    Css,
    Python,
}

/// The engine's working state: a parser and its cursors, which successive
/// calls reuse. It has no influence on what is rendered.
#[verifier::external_type_specification]
#[verifier::external_body]
pub struct ExHighlighter(Highlighter);

/// The highlighting query that comes with `grammar`.
pub uninterp spec fn highlights_query_of(grammar: Grammar) -> Seq<char>;

/// `name` with each dot turned into a space: the segments of a category
/// name, as a list of classes.
pub open spec fn spaced(name: Seq<u8>) -> Seq<u8> {
    name.map_values(
        |b: u8|
            if b == 0x2e {
                0x20u8
            } else {
                b
            },
    )
}

/// The attribute `class="…"` for the category `name`, in bytes.
pub open spec fn class_markup(name: Seq<u8>) -> Seq<u8> {
    seq![0x63u8, 0x6c, 0x61, 0x73, 0x73, 0x3d, 0x22] + spaced(name) + seq![0x22u8]
}

/// What is written for the category with index `index` of `names`: its class
/// attribute, and nothing where `names` has no such index.
pub open spec fn category_markup(names: Seq<String>, index: int) -> Seq<u8> {
    if 0 <= index < names.len() {
        class_markup(encode_utf8(names[index]@))
    } else {
        Seq::empty()
    }
}

/// The HTML that the engine renders for `source` in the language of
/// `grammar`, configured under the name `language_name` with the three
/// queries; `None` where the configuration is not valid or the source cannot
/// be highlighted.
pub uninterp spec fn rendered(
    grammar: Grammar,
    language_name: Seq<char>,
    highlights_query: Seq<char>,
    injections_query: Seq<char>,
    locals_query: Seq<char>,
    source: Seq<char>,
) -> Option<Seq<char>>;

/// Appends to `out` the class attribute of the category with index `index`
/// of `names`: the name's segments, which dots separate, become classes, which
/// spaces separate.
pub fn write_class(names: &Vec<String>, index: usize, out: &mut Vec<u8>)
    ensures
        final(out)@ == old(out)@ + category_markup(names@, index as int),
{
    if index >= names.len() {
        assert(out@ =~= old(out)@ + category_markup(names@, index as int));
        return ;
    }
    let name = names[index].as_str().as_bytes();
    out.push(0x63);
    out.push(0x6c);
    out.push(0x61);
    out.push(0x73);
    out.push(0x73);
    out.push(0x3d);
    out.push(0x22);
    let ghost head = out@;
    let mut i: usize = 0;
    while i < name.len()
        invariant
            i <= name.len(),
            out@ == head + spaced(name@).take(i as int),
        decreases name.len() - i,
    {
        let b = name[i];
        out.push(if b == 0x2e {
            0x20
        } else {
            b
        });
        assert(out@ =~= head + spaced(name@).take(i + 1));
        i += 1;
    }
    out.push(0x22);
    assert(spaced(name@).take(name.len() as int) =~= spaced(name@));
    assert(out@ =~= old(out)@ + category_markup(names@, index as int));
}

/// The highlighting query that comes with `grammar`.
///
/// Trusted: the constant `HIGHLIGHTS_QUERY` of the grammar's crate
/// (`HIGHLIGHT_QUERY` for JavaScript). The contract only gives it its name.
#[verifier::external_body]
pub(crate) fn highlights_query(grammar: Grammar) -> (r: &'static str)
    ensures
        r@ == highlights_query_of(grammar),
{
    match grammar {
        Rust => RUST_QUERY,
        Javascript => JAVASCRIPT_QUERY,
        Html => HTML_QUERY,
        Css => CSS_QUERY,
        Python => PYTHON_QUERY,
    }
}

/// A fresh working state for the engine.
///
/// Trusted: `Highlighter::new`, of which nothing is claimed.
#[verifier::external_body]
pub(crate) fn new_highlighter() -> Highlighter {
    Highlighter::new()
}

/// The source `source`, highlighted and rendered as HTML.
///
/// Trusted: builds a `HighlightConfiguration` for the grammar's `LANGUAGE`
/// and the three queries, configures it with all of its own capture names,
/// runs `Highlighter::highlight` over the source without injected languages,
/// and lets `HtmlRenderer::render` write the HTML, with `write_class`
/// giving each token's attribute. Any failure on the way gives `None`. The
/// contract only gives the outcome its name; it claims nothing of the
/// working state.
#[verifier::external_body]
pub(crate) fn highlight_to_html(
    highlighter: &mut Highlighter,
    grammar: Grammar,
    language_name: &str,
    highlights_query: &str,
    injections_query: &str,
    locals_query: &str,
    source: &str,
) -> (r: Option<String>)
    ensures
        string_view(r) == rendered(
            grammar,
            language_name@,
            highlights_query@,
            injections_query@,
            locals_query@,
            source@,
        ),
{
    let language = match grammar {
        Rust => RUST, Javascript => JAVASCRIPT, Html => HTML, Css => CSS, Python => PYTHON,
    };
    let mut config = HighlightConfiguration::new(language.into(), language_name, highlights_query, injections_query, locals_query).ok()?;
    let names: Vec<String> = config.names().iter().map(|name| name.to_string()).collect();
    config.configure(&names);
    let events = highlighter.highlight(&config, source.as_bytes(), None, None, |_| None).ok()?;
    let mut renderer = HtmlRenderer::new();
    renderer.render(events, source.as_bytes(), &|h: Highlight, out: &mut Vec<u8>| write_class(&names, h.0, out)).ok()?;
    String::from_utf8(renderer.html).ok()
}

} // verus!
