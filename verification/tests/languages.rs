use html_highlight::engine::Grammar;
use html_highlight::languages::{language_map, plain_entry, LanguageEntry, LanguageMap};

fn chars(s: &str) -> Vec<char> {
    s.chars().collect()
}

fn name_of(entry: Option<&LanguageEntry>) -> Option<String> {
    entry.map(|e| e.name.iter().collect())
}

fn class(s: &str) -> Option<String> {
    Some(s.to_string())
}

#[test]
fn five_languages_are_supported_from_the_start() {
    let map = language_map();
    assert_eq!(map.len(), 5);
    for name in ["rust", "javascript", "html", "css", "python"] {
        assert!(map.contains_key(&chars(name)), "{}", name);
    }
    for name in ["cobol", "Rust", "RUST", "js", "", "rust ", "pythons"] {
        assert!(!map.contains_key(&chars(name)), "{}", name);
    }
}

#[test]
fn each_language_has_its_grammar_and_no_further_queries() {
    let map = language_map();
    let expected = [
        ("rust", Grammar::Rust),
        ("javascript", Grammar::Javascript),
        ("html", Grammar::Html),
        ("css", Grammar::Css),
        ("python", Grammar::Python),
    ];
    for (name, grammar) in expected {
        let entry = map.get(&chars(name)).unwrap();
        assert_eq!(entry.grammar, grammar);
        assert_eq!(entry.injections_query, "");
        assert_eq!(entry.locals_query, "");
        assert!(!entry.highlights_query.is_empty());
    }
}

#[test]
fn each_grammar_brings_its_own_highlighting_query() {
    let map = language_map();
    let rust = &map.get(&chars("rust")).unwrap().highlights_query;
    let python = &map.get(&chars("python")).unwrap().highlights_query;
    let css = &map.get(&chars("css")).unwrap().highlights_query;
    assert_ne!(rust, python);
    assert_ne!(rust, css);
    assert_ne!(python, css);
    assert!(rust.contains("@"));
}

#[test]
fn the_code_class_wins_over_the_pre_class() {
    let map = language_map();
    assert_eq!(name_of(map.resolve(&class("rust"), &class("python"))), class("rust"));
    assert_eq!(name_of(map.resolve(&class("css"), &None)), class("css"));
}

#[test]
fn the_pre_class_is_used_where_the_code_class_names_no_language() {
    let map = language_map();
    assert_eq!(name_of(map.resolve(&None, &class("python"))), class("python"));
    assert_eq!(name_of(map.resolve(&class("cobol big"), &class("x html"))), class("html"));
    assert_eq!(name_of(map.resolve(&class(""), &class("javascript"))), class("javascript"));
}

#[test]
fn the_first_word_that_names_a_language_wins() {
    let map = language_map();
    assert_eq!(name_of(map.select(&class("sourceCode css rust"))), class("css"));
    assert_eq!(name_of(map.select(&class("  rust\tpython "))), class("rust"));
    assert_eq!(name_of(map.select(&class("language-rust python"))), class("python"));
}

#[test]
fn no_language_where_neither_class_names_one() {
    let map = language_map();
    assert_eq!(name_of(map.resolve(&None, &None)), None);
    assert_eq!(name_of(map.resolve(&class("cobol"), &class("fortran"))), None);
    assert_eq!(name_of(map.resolve(&class("Rust"), &class("PYTHON"))), None);
    assert_eq!(name_of(map.select(&None)), None);
}

#[test]
fn an_entry_replaces_the_entry_of_its_name() {
    let map = LanguageMap::new();
    assert_eq!(map.len(), 0);
    let map = map.insert(plain_entry("a", Grammar::Rust));
    let map = map.insert(plain_entry("b", Grammar::Css));
    assert_eq!(map.len(), 2);
    let map = map.insert(plain_entry("a", Grammar::Python));
    assert_eq!(map.len(), 2);
    assert_eq!(map.get(&chars("a")).unwrap().grammar, Grammar::Python);
    assert_eq!(map.get(&chars("b")).unwrap().grammar, Grammar::Css);
    assert!(map.get(&chars("c")).is_none());
}
