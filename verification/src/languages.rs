//! The supported languages, by name, and the choice of a block's language
//! from the class words of its tags.

use crate::engine::{highlights_query, highlights_query_of, Grammar};
use crate::text::{chars_of, same_text, split_whitespace, string_view, tokens, views};
use vstd::prelude::*;

verus! {

/// What the engine needs for one language.
pub struct LanguageEntry {
    /// The name by which class words select the language.
    pub name: Vec<char>,
    /// The grammar by which the engine parses the language.
    pub grammar: Grammar,
    /// The query that assigns categories to the tokens.
    pub highlights_query: String,
    /// The query for other languages embedded in the text; may be empty.
    pub injections_query: String,
    /// The query for local definitions and references; may be empty.
    pub locals_query: String,
}

/// What a `LanguageEntry` holds.
pub struct LanguageSpec {
    pub name: Seq<char>,
    pub grammar: Grammar,
    pub highlights_query: Seq<char>,
    pub injections_query: Seq<char>,
    pub locals_query: Seq<char>,
}

impl View for LanguageEntry {
    type V = LanguageSpec;

    open spec fn view(&self) -> LanguageSpec {
        LanguageSpec {
            name: self.name@,
            grammar: self.grammar,
            highlights_query: self.highlights_query@,
            injections_query: self.injections_query@,
            locals_query: self.locals_query@,
        }
    }
}

/// The entry of `entries` that is named `name`, if there is one.
pub open spec fn entry_named(entries: Seq<LanguageSpec>, name: Seq<char>) -> Option<LanguageSpec>
    decreases entries.len(),
{
    if entries.len() == 0 {
        None
    } else if entries[0].name == name {
        Some(entries[0])
    } else {
        entry_named(entries.drop_first(), name)
    }
}

/// `entries` with `entry` in the place of the entry of the same name, or at
/// the end where no entry has that name.
pub open spec fn with_entry(entries: Seq<LanguageSpec>, entry: LanguageSpec) -> Seq<LanguageSpec>
    decreases entries.len(),
{
    if entries.len() == 0 {
        seq![entry]
    } else if entries[0].name == entry.name {
        seq![entry] + entries.drop_first()
    } else {
        seq![entries[0]] + with_entry(entries.drop_first(), entry)
    }
}

/// Whether no two of `entries` have the same name.
pub open spec fn distinct_names(entries: Seq<LanguageSpec>) -> bool {
    forall|i: int, j: int|
        0 <= i < j < entries.len() ==> (#[trigger] entries[i]).name != (#[trigger] entries[j]).name
}

/// The entry of the first of `words` that names a language of `entries`.
pub open spec fn first_known(words: Seq<Seq<char>>, entries: Seq<LanguageSpec>) -> Option<
    LanguageSpec,
>
    decreases words.len(),
{
    if words.len() == 0 {
        None
    } else {
        match entry_named(entries, words[0]) {
            Some(entry) => Some(entry),
            None => first_known(words.drop_first(), entries),
        }
    }
}

/// The language that a class value selects: that of its first word that
/// names one. No class value selects none.
pub open spec fn class_language(class: Option<Seq<char>>, entries: Seq<LanguageSpec>) -> Option<
    LanguageSpec,
> {
    match class {
        Some(value) => first_known(tokens(value), entries),
        None => None,
    }
}

/// The language of a block, from the class value of its `code` tag and that
/// of its `pre` tag: what the `code` class selects, and only where it selects
/// nothing, what the `pre` class selects.
pub open spec fn resolved(
    code_class: Option<Seq<char>>,
    pre_class: Option<Seq<char>>,
    entries: Seq<LanguageSpec>,
) -> Option<LanguageSpec> {
    match class_language(code_class, entries) {
        Some(entry) => Some(entry),
        None => class_language(pre_class, entries),
    }
}

/// A language with the highlighting query that comes with its grammar, and
/// without queries for injections and locals.
pub open spec fn plain_language(name: Seq<char>, grammar: Grammar) -> LanguageSpec {
    LanguageSpec {
        name,
        grammar,
        highlights_query: highlights_query_of(grammar),
        injections_query: Seq::empty(),
        locals_query: Seq::empty(),
    }
}

/// The five languages that are supported from the start, none of them with
/// a query for injections or locals.
pub open spec fn standard_languages() -> Seq<LanguageSpec> {
    seq![
        plain_language("rust"@, Grammar::Rust),
        plain_language("javascript"@, Grammar::Javascript),
        plain_language("html"@, Grammar::Html),
        plain_language("css"@, Grammar::Css),
        plain_language("python"@, Grammar::Python),
    ]
}

/// What a list of entries holds.
pub open spec fn entries_view(entries: Seq<LanguageEntry>) -> Seq<LanguageSpec> {
    entries.map_values(|e: LanguageEntry| e@)
}

/// The registry of supported languages: entries with distinct names, in the
/// order in which their names were first added.
pub struct LanguageMap {
    entries: Vec<LanguageEntry>,
}

impl View for LanguageMap {
    type V = Seq<LanguageSpec>;

    closed spec fn view(&self) -> Seq<LanguageSpec> {
        entries_view(self.entries@)
    }
}

/// An entry takes the place of the first entry of its name.
pub proof fn lemma_with_entry_replaces(entries: Seq<LanguageSpec>, entry: LanguageSpec, i: int)
    requires
        0 <= i < entries.len(),
        entries[i].name == entry.name,
        forall|k: int| 0 <= k < i ==> (#[trigger] entries[k]).name != entry.name,
    ensures
        with_entry(entries, entry) == entries.update(i, entry),
    decreases i,
{
    if i == 0 {
        assert(seq![entry] + entries.drop_first() =~= entries.update(0, entry));
    } else {
        let rest = entries.drop_first();
        assert forall|k: int| 0 <= k < i - 1 implies (#[trigger] rest[k]).name != entry.name by {
            assert(rest[k] == entries[k + 1]);
        }
        lemma_with_entry_replaces(rest, entry, i - 1);
        assert(seq![entries[0]] + rest.update(i - 1, entry) =~= entries.update(i, entry));
    }
}

/// An entry whose name is new goes to the end.
pub proof fn lemma_with_entry_appends(entries: Seq<LanguageSpec>, entry: LanguageSpec)
    requires
        forall|k: int| 0 <= k < entries.len() ==> (#[trigger] entries[k]).name != entry.name,
    ensures
        with_entry(entries, entry) == entries.push(entry),
    decreases entries.len(),
{
    if entries.len() == 0 {
        assert(seq![entry] =~= entries.push(entry));
    } else {
        let rest = entries.drop_first();
        assert forall|k: int| 0 <= k < rest.len() implies (#[trigger] rest[k]).name != entry.name by {
            assert(rest[k] == entries[k + 1]);
        }
        lemma_with_entry_appends(rest, entry);
        assert(seq![entries[0]] + rest.push(entry) =~= entries.push(entry));
    }
}

impl LanguageMap {
    #[verifier::type_invariant]
    spec fn names_are_distinct(self) -> bool {
        distinct_names(entries_view(self.entries@))
    }

    /// A registry without languages.
    pub fn new() -> (r: LanguageMap)
        ensures
            r@ == Seq::<LanguageSpec>::empty(),
    {
        let entries: Vec<LanguageEntry> = Vec::new();
        assert(entries_view(entries@) =~= Seq::<LanguageSpec>::empty());
        LanguageMap { entries }
    }

    /// The number of languages, no two of which have the same name.
    pub fn len(&self) -> (r: usize)
        ensures
            r == self@.len(),
            distinct_names(self@),
    {
        proof {
            use_type_invariant(self);
        }
        self.entries.len()
    }

    /// The registry with `entry` in the place of the language of the same
    /// name, or after the others where the name is new.
    pub fn insert(self, entry: LanguageEntry) -> (r: LanguageMap)
        ensures
            r@ == with_entry(self@, entry@),
    {
        proof {
            use_type_invariant(&self);
        }
        let ghost before = self@;
        let ghost added = entry@;
        let mut entries = self.entries;
        let mut i: usize = 0;
        while i < entries.len() && !same_text(entries[i].name.as_slice(), entry.name.as_slice())
            invariant
                i <= entries.len(),
                entries_view(entries@) == before,
                added == entry@,
                forall|k: int| 0 <= k < i ==> (#[trigger] before[k]).name != added.name,
            decreases entries.len() - i,
        {
            assert(before[i as int] == entries@[i as int]@);
            i += 1;
        }
        if i < entries.len() {
            assert(before[i as int] == entries@[i as int]@);
            proof {
                lemma_with_entry_replaces(before, added, i as int);
            }
            entries.set(i, entry);
            assert(entries_view(entries@) =~= before.update(i as int, added));
        } else {
            proof {
                lemma_with_entry_appends(before, added);
            }
            entries.push(entry);
            assert(entries_view(entries@) =~= before.push(added));
        }
        LanguageMap { entries }
    }

    /// The language named `name`, if the registry has it.
    pub fn get(&self, name: &[char]) -> (r: Option<&LanguageEntry>)
        ensures
            match r {
                Some(entry) => entry_named(self@, name@) == Some(entry@),
                None => entry_named(self@, name@) is None,
            },
    {
        let mut i: usize = 0;
        assert(self@.skip(0) =~= self@);
        while i < self.entries.len()
            invariant
                i <= self.entries.len(),
                entry_named(self@, name@) == entry_named(self@.skip(i as int), name@),
            decreases self.entries.len() - i,
        {
            let ghost rest = self@.skip(i as int);
            assert(rest[0] == self.entries@[i as int]@);
            assert(rest.drop_first() =~= self@.skip(i + 1));
            if same_text(self.entries[i].name.as_slice(), name) {
                return Some(&self.entries[i]);
            }
            i += 1;
        }
        None
    }

    /// Whether the registry has a language named `name`.
    pub fn contains_key(&self, name: &[char]) -> (r: bool)
        ensures
            r == entry_named(self@, name@).is_some(),
    {
        self.get(name).is_some()
    }

    /// The language that a class value selects: that of its first word that
    /// names one.
    pub fn select(&self, class: &Option<String>) -> (r: Option<&LanguageEntry>)
        ensures
            match r {
                Some(entry) => class_language(string_view(*class), self@) == Some(
                    entry@,
                ),
                None => class_language(string_view(*class), self@) is None,
            },
    {
        match class {
            Some(value) => {
                let chars = chars_of(value.as_str());
                let words = split_whitespace(chars.as_slice());
                let mut i: usize = 0;
                assert(views(words@).skip(0) =~= views(words@));
                while i < words.len()
                    invariant
                        i <= words.len(),
                        class_language(string_view(*class), self@) == first_known(
                            views(words@).skip(i as int),
                            self@,
                        ),
                    decreases words.len() - i,
                {
                    let ghost rest = views(words@).skip(i as int);
                    assert(rest[0] == words@[i as int]@);
                    assert(rest.drop_first() =~= views(words@).skip(i + 1));
                    match self.get(words[i].as_slice()) {
                        Some(entry) => {
                            return Some(entry);
                        },
                        None => {},
                    }
                    i += 1;
                }
                None
            },
            None => None,
        }
    }

    /// The language of a block, from the class value of its `code` tag and
    /// that of its `pre` tag. A language that the `code` class names wins over
    /// one that the `pre` class names.
    pub fn resolve(&self, code_class: &Option<String>, pre_class: &Option<String>) -> (r: Option<
        &LanguageEntry,
    >)
        ensures
            match r {
                Some(entry) => resolved(
                    string_view(*code_class),
                    string_view(*pre_class),
                    self@,
                ) == Some(entry@),
                None => resolved(
                    string_view(*code_class),
                    string_view(*pre_class),
                    self@,
                ) is None,
            },
    {
        match self.select(code_class) {
            Some(entry) => Some(entry),
            None => self.select(pre_class),
        }
    }
}

/// An entry for the language `name` with the grammar `grammar`, the
/// highlighting query that comes with it, and no queries for injections and
/// locals.
pub fn plain_entry(name: &str, grammar: Grammar) -> (r: LanguageEntry)
    ensures
        r@ == plain_language(name@, grammar),
{
    LanguageEntry {
        name: chars_of(name),
        grammar,
        highlights_query: highlights_query(grammar).to_owned(),
        injections_query: String::new(),
        locals_query: String::new(),
    }
}

/// The registry of the languages that are supported from the start: `rust`,
/// `javascript`, `html`, `css` and `python`.
pub fn language_map() -> (r: LanguageMap)
    ensures
        r@ == standard_languages(),
{
    proof {
        reveal_strlit("rust");
        reveal_strlit("javascript");
        reveal_strlit("html");
        reveal_strlit("css");
        reveal_strlit("python");
    }
    let rust = plain_entry("rust", Grammar::Rust);
    let javascript = plain_entry("javascript", Grammar::Javascript);
    let html = plain_entry("html", Grammar::Html);
    let css = plain_entry("css", Grammar::Css);
    let python = plain_entry("python", Grammar::Python);
    proof {
        assert("rust"@[0] == 'r' && "html"@[0] == 'h');
        assert("rust"@.len() == 4 && "javascript"@.len() == 10 && "html"@.len() == 4);
        assert("css"@.len() == 3 && "python"@.len() == 6);
        let none = Seq::<LanguageSpec>::empty();
        lemma_with_entry_appends(none, rust@);
        lemma_with_entry_appends(none.push(rust@), javascript@);
        lemma_with_entry_appends(none.push(rust@).push(javascript@), html@);
        lemma_with_entry_appends(none.push(rust@).push(javascript@).push(html@), css@);
        lemma_with_entry_appends(
            none.push(rust@).push(javascript@).push(html@).push(css@),
            python@,
        );
        assert(none.push(rust@).push(javascript@).push(html@).push(css@).push(python@)
            =~= standard_languages());
    }
    let m = LanguageMap::new();
    let m = m.insert(rust);
    let m = m.insert(javascript);
    let m = m.insert(html);
    let m = m.insert(css);
    let m = m.insert(python);
    m
}

} // verus!
