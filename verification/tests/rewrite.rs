use html_highlight::engine::{write_class, Grammar};
use html_highlight::languages::{language_map, LanguageEntry, LanguageMap};
use html_highlight::rewrite::{
    block_at, finish_block, highlight_block, highlight_html, highlight_html_with, language_of,
    splice,
};

fn chars(s: &str) -> Vec<char> {
    s.chars().collect()
}

fn text(v: &[char]) -> String {
    v.iter().collect()
}

#[test]
fn a_rust_block_is_highlighted() {
    let out = highlight_html("<pre><code class=\"rust\">fn main() {}</code></pre>");
    assert_eq!(
        out,
        "<div class=\"sourceCode\"><pre class=\"sourceCode\"><code class=\"rust sourceCode\">\
         <span class=\"keyword\">fn</span> <span class=\"function\">main</span>\
         <span class=\"punctuation bracket\">(</span><span class=\"punctuation bracket\">)</span> \
         <span class=\"punctuation bracket\">{</span><span class=\"punctuation bracket\">}</span>\n\
         </code></pre></div>"
    );
}

#[test]
fn the_language_may_stand_on_the_pre_tag() {
    let out = highlight_html("<pre class=\"python\"><code>x = 1</code></pre>");
    assert_eq!(
        out,
        "<div class=\"sourceCode\"><pre class=\"python sourceCode\"><code class=\"sourceCode python\">\
         <span class=\"variable\">x</span> <span class=\"operator\">=</span> \
         <span class=\"number\">1</span>\n</code></pre></div>"
    );
    assert_eq!(
        language_of(" class=\"python\"", "", &language_map()).map(|e| text(&e.name)),
        Some("python".to_string())
    );
}

#[test]
fn a_block_in_an_unknown_language_is_left_as_it_is() {
    let doc = "<pre><code class=\"cobol\">PROGRAM.</code></pre>";
    assert_eq!(highlight_html(doc), doc);
    let doc = "<pre class=\"fortran\"><code class='cobol x'>A &lt; B</code></pre>";
    assert_eq!(highlight_html(doc), doc);
    let doc = "<pre><code>no class at all</code></pre>";
    assert_eq!(highlight_html(doc), doc);
}

#[test]
fn a_document_without_blocks_is_left_as_it_is() {
    let docs = [
        "",
        "plain text",
        "<p>Inline <code class=\"rust\">let x = 1;</code> stays.</p>",
        "<pre class=\"rust\">fn main() {}</pre>",
        "<pre><code class=\"rust\">fn main() {}</code>",
        "<pre><code class=\"rust\">fn main() {}</code> x </pre>",
        "<PRE><CODE class=\"rust\">fn main() {}</CODE></PRE>",
        "<!DOCTYPE html>\n<html><body>\u{e9}\u{20ac} &amp; &lt;</body></html>\n",
    ];
    for doc in docs {
        assert_eq!(highlight_html(doc), doc);
    }
}

#[test]
fn what_lies_around_the_blocks_is_copied() {
    let doc = "<h1>\u{dc}ber</h1>\n<pre><code class=\"cobol\">A.</code></pre>\n<p>mid</p>\n\
               <pre><code class=\"python\">x = 1</code></pre>\n<p>end &amp; out</p>\n";
    let out = highlight_html(doc);
    assert!(out.starts_with(
        "<h1>\u{dc}ber</h1>\n<pre><code class=\"cobol\">A.</code></pre>\n<p>mid</p>\n\
         <div class=\"sourceCode\"><pre class=\"sourceCode\"><code class=\"python sourceCode\">"
    ));
    assert!(out.ends_with("</code></pre></div>\n<p>end &amp; out</p>\n"));
}

#[test]
fn every_block_is_highlighted_once() {
    let doc = "<pre><code class=\"rust\">fn a() {}</code></pre><pre><code class=\"rust\">fn b() {}</code></pre>";
    let out = highlight_html(doc);
    assert_eq!(out.matches("<div class=\"sourceCode\">").count(), 2);
    assert_eq!(out.matches("</code></pre></div>").count(), 2);
    assert_eq!(out.matches("<span class=\"function\">a</span>").count(), 1);
    assert_eq!(out.matches("<span class=\"function\">b</span>").count(), 1);
    let a = out.find("<span class=\"function\">a</span>").unwrap();
    let b = out.find("<span class=\"function\">b</span>").unwrap();
    assert!(a < b);
}

#[test]
fn the_body_is_decoded_before_it_is_highlighted() {
    let out = highlight_html("<pre><code class=\"rust\">let s = &quot;a&lt;b&quot;;</code></pre>");
    assert!(out.contains("<span class=\"string\">&quot;a&lt;b&quot;</span>"));
    let out = highlight_html("<pre><code class=\"rust\">let c = &#x27;x&#39;;</code></pre>");
    assert!(out.contains("&#39;x&#39;"));
}

#[test]
fn white_space_and_line_breaks_are_allowed_inside_a_block() {
    let doc = "<pre id=\"k\">\n  <code class='language javascript'>let x = 1;\nf(x);</code>\n</pre> tail";
    let out = highlight_html(doc);
    assert!(out.starts_with(
        "<div class=\"sourceCode\"><pre id=\"k\" class=\"sourceCode\">\
         <code class='language javascript sourceCode'><span class=\"keyword\">let</span>"
    ));
    assert!(out.ends_with(
        "<span class=\"punctuation delimiter\">;</span>\n</code></pre></div> tail"
    ));
    assert!(out.contains("</span>\n<span class=\"function\">f</span>"));
}

#[test]
fn the_body_ends_at_the_first_closing_that_fits() {
    let doc = "<pre><code class=\"css\">a</code>b</code></pre>";
    let out = highlight_html(doc);
    assert!(out.starts_with("<div class=\"sourceCode\"><pre class=\"sourceCode\"><code class=\"css sourceCode\">"));
    assert!(out.contains("code"));
    assert!(out.ends_with("\n</code></pre></div>"));
}

#[test]
fn markup_in_the_body_is_text_for_the_engine() {
    let out = highlight_html("<pre><code class=\"rust\">let <b>x</b> = 1;</code></pre>");
    assert!(out.starts_with("<div class=\"sourceCode\"><pre class=\"sourceCode\">"));
    assert!(out.contains("&lt;"));
    assert!(out.contains("&gt;"));
    assert!(!out.contains("<b>"));
}

#[test]
fn each_supported_language_is_highlighted() {
    let blocks = [
        ("rust", "fn f() {}", "<span class=\"keyword\">fn</span>"),
        ("javascript", "let x = 1;", "<span class=\"keyword\">let</span>"),
        ("html", "&lt;p&gt;hi&lt;/p&gt;", "<span class=\"tag\">p</span>"),
        ("css", "a { color: red; }", "<span class=\"property\">color</span>"),
        ("python", "x = 1", "<span class=\"number\">1</span>"),
    ];
    for (name, body, expected) in blocks {
        let doc = format!("<pre><code class=\"{}\">{}</code></pre>", name, body);
        let out = highlight_html(&doc);
        assert!(out.contains(expected), "{}: {}", name, out);
        assert!(out.contains(&format!("<code class=\"{} sourceCode\">", name)));
    }
}

#[test]
fn a_block_on_which_the_engine_fails_is_left_as_it_is() {
    let broken = LanguageEntry {
        name: chars("rust"),
        grammar: Grammar::Rust,
        highlights_query: "(this is no query".to_string(),
        injections_query: String::new(),
        locals_query: String::new(),
    };
    let registry = LanguageMap::new().insert(broken);
    let doc = "a<pre><code class=\"rust\">fn main() {}</code></pre>b";
    assert_eq!(highlight_html_with(doc, &registry), doc);
    let broken = LanguageEntry {
        name: chars("rust"),
        grammar: Grammar::Rust,
        highlights_query: "(identifier) @variable".to_string(),
        injections_query: "(nothing_like_this) @injection.content".to_string(),
        locals_query: String::new(),
    };
    let registry = LanguageMap::new().insert(broken);
    assert_eq!(highlight_html_with(doc, &registry), doc);
}

#[test]
fn a_registry_of_ones_own_decides_what_is_highlighted() {
    let entry = LanguageEntry {
        name: chars("rs"),
        grammar: Grammar::Rust,
        highlights_query: "(identifier) @variable.other".to_string(),
        injections_query: String::new(),
        locals_query: String::new(),
    };
    let registry = LanguageMap::new().insert(entry);
    let doc = "<pre><code class=\"rust\">fn main() {}</code></pre>";
    assert_eq!(highlight_html_with(doc, &registry), doc);
    let doc = "<pre><code class=\"rs\">fn main() {}</code></pre>";
    assert_eq!(
        highlight_html_with(doc, &registry),
        "<div class=\"sourceCode\"><pre class=\"sourceCode\"><code class=\"rs sourceCode\">\
         fn <span class=\"variable other\">main</span>() {}\n</code></pre></div>"
    );
    assert_eq!(highlight_html_with("no block", &LanguageMap::new()), "no block");
}

#[test]
fn a_block_is_finished_from_what_the_engine_gave() {
    let whole = chars("<pre a='1'><code class=\"x\">body</code></pre>");
    assert_eq!(text(&finish_block(&whole, " a='1'", " class=\"x\"", "css", &None)), text(&whole));
    let html = Some("<span>body</span>\n".to_string());
    assert_eq!(
        text(&finish_block(&whole, " a='1'", " class=\"x\"", "css", &html)),
        "<div class=\"sourceCode\"><pre a='1' class=\"sourceCode\">\
         <code class=\"x sourceCode css\"><span>body</span>\n</code></pre></div>"
    );
    assert_eq!(
        text(&finish_block(&whole, "", "", "css", &Some(String::new()))),
        "<div class=\"sourceCode\"><pre class=\"sourceCode\">\
         <code class=\"sourceCode css\"></code></pre></div>"
    );
}

#[test]
fn a_reported_block_is_checked_before_it_is_used() {
    let good = vec![Some((2, 40)), Some((6, 6)), Some((12, 25)), Some((26, 27))];
    let block = block_at(50, 0, &good).unwrap();
    assert_eq!((block.start, block.end), (2, 40));
    assert_eq!(block.pre_attrs, (6, 6));
    assert_eq!(block.code_attrs, (12, 25));
    assert_eq!(block.body, (26, 27));
    assert!(block_at(50, 2, &good).is_some());
    assert!(block_at(50, 3, &good).is_none());
    assert!(block_at(39, 0, &good).is_none());
    assert!(block_at(50, 0, &good[..3].to_vec()).is_none());
    let missing = vec![Some((2, 40)), None, Some((12, 25)), Some((26, 27))];
    assert!(block_at(50, 0, &missing).is_none());
    let outside = vec![Some((2, 40)), Some((6, 6)), Some((12, 25)), Some((26, 41))];
    assert!(block_at(50, 0, &outside).is_none());
    let reversed = vec![Some((2, 40)), Some((7, 6)), Some((12, 25)), Some((26, 27))];
    assert!(block_at(50, 0, &reversed).is_none());
}

#[test]
fn a_category_becomes_a_list_of_classes() {
    let names = vec!["keyword.control.flow".to_string(), "string".to_string()];
    let mut out = b"<span ".to_vec();
    write_class(&names, 0, &mut out);
    assert_eq!(out, b"<span class=\"keyword control flow\"".to_vec());
    let mut out = Vec::new();
    write_class(&names, 1, &mut out);
    assert_eq!(out, b"class=\"string\"".to_vec());
    let mut out = b"x".to_vec();
    write_class(&names, 2, &mut out);
    assert_eq!(out, b"x".to_vec());
}

#[test]
fn reported_blocks_are_spliced_in_their_order() {
    let mut highlighter = tree_sitter_highlight::Highlighter::new();
    let registry = language_map();
    let doc = chars("ab<pre><code class=\"x\">y</code></pre>cd");
    let whole = Some((2, 37));
    let block = vec![whole, Some((6, 6)), Some((12, 22)), Some((23, 24))];
    assert_eq!(text(&splice(&mut highlighter, &doc, &vec![], &registry)), text(&doc));
    assert_eq!(text(&splice(&mut highlighter, &doc, &vec![block.clone()], &registry)), text(&doc));
    let twice = vec![block.clone(), block.clone()];
    assert_eq!(text(&splice(&mut highlighter, &doc, &twice, &registry)), text(&doc));
    let beyond = vec![vec![Some((2, 99)), Some((6, 6)), Some((12, 22)), Some((23, 24))]];
    assert_eq!(text(&splice(&mut highlighter, &doc, &beyond, &registry)), text(&doc));
}

#[test]
fn a_reported_block_of_a_known_language_is_replaced() {
    let mut highlighter = tree_sitter_highlight::Highlighter::new();
    let registry = language_map();
    let doc = chars("ab<pre><code class=\"css\">a{}</code></pre>cd");
    let block = vec![Some((2, 41)), Some((6, 6)), Some((12, 24)), Some((25, 28))];
    let out = text(&splice(&mut highlighter, &doc, &vec![block.clone()], &registry));
    assert!(out.starts_with("ab<div class=\"sourceCode\"><pre class=\"sourceCode\"><code class=\"css sourceCode\">"));
    assert!(out.ends_with("\n</code></pre></div>cd"));
    let later = vec![Some((1, 41)), Some((6, 6)), Some((12, 24)), Some((25, 28))];
    let out = text(&splice(&mut highlighter, &doc, &vec![block, later], &registry));
    assert_eq!(out.matches("<div class=\"sourceCode\">").count(), 1);
    assert!(out.ends_with("\n</code></pre></div>cd"));
}

#[test]
fn one_block_is_highlighted_from_its_parts() {
    let mut highlighter = tree_sitter_highlight::Highlighter::new();
    let registry = language_map();
    let whole = chars("<pre><code class=\"python\">x = 1</code></pre>");
    let out = highlight_block(
        &mut highlighter,
        &whole,
        &chars(""),
        &chars(" class=\"python\""),
        &chars("x = 1"),
        &registry,
    );
    assert_eq!(
        text(&out),
        "<div class=\"sourceCode\"><pre class=\"sourceCode\"><code class=\"python sourceCode\">\
         <span class=\"variable\">x</span> <span class=\"operator\">=</span> \
         <span class=\"number\">1</span>\n</code></pre></div>"
    );
    let out = highlight_block(
        &mut highlighter,
        &whole,
        &chars(""),
        &chars(" class=\"cobol\""),
        &chars("x = 1"),
        &registry,
    );
    assert_eq!(text(&out), text(&whole));
}
