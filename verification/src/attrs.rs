//! The `class` attribute inside the raw attribute text of a tag: reading its
//! value, and merging further classes into it.
//!
//! Attribute text is what stands between a tag's name and its closing `>`,
//! such as ` id="x" class="a b"`. It is never parsed into a map: the `class`
//! attribute is searched for, and everything around it is kept as it is.

use crate::patterns::{
    captures, first_match, CLASS_DOUBLE_QUOTED, CLASS_DOUBLE_QUOTED_ANY, CLASS_SINGLE_QUOTED,
    CLASS_SINGLE_QUOTED_ANY,
};
use crate::text::{
    all_space, are_words, chars_of, is_space, is_whitespace, join, join_words, lemma_tokens_are_words,
    lemma_tokens_join, lemma_trim, no_space, push_all, same_text, slice_of, split_whitespace,
    str_view, string_of, string_view, tokens, trim, trim_bounds, views,
};
use vstd::prelude::*;

verus! {

/// Where a `class` attribute stands in an attribute text: the attribute from
/// `start` up to `end`, and inside it the value, without its quotes, from
/// `value_start` up to `value_end`. Positions count characters.
#[derive(Clone, Copy, Debug)]
pub struct ClassSpan {
    pub start: usize,
    pub end: usize,
    pub value_start: usize,
    pub value_end: usize,
}

impl ClassSpan {
    /// Whether the span lies in a text of `len` characters, the value inside
    /// the attribute.
    pub open spec fn fits(self, len: nat) -> bool {
        self.start <= self.value_start <= self.value_end <= self.end <= len
    }
}

/// What a search holds, if it found anything.
pub open spec fn found_view(found: Option<Vec<Option<(usize, usize)>>>) -> Option<
    Seq<Option<(usize, usize)>>,
> {
    match found {
        Some(groups) => Some(groups@),
        None => None,
    }
}

/// The class attribute that a search reports in a text of `len` characters:
/// group 0 is the attribute and group 1 its value. A report without these two
/// groups, or with positions that do not fit, counts as nothing found.
pub open spec fn located(len: nat, found: Option<Seq<Option<(usize, usize)>>>) -> Option<
    ClassSpan,
> {
    match found {
        Some(groups) => if groups.len() >= 2 {
            match (groups[0], groups[1]) {
                (Some(whole), Some(value)) => {
                    let span = ClassSpan {
                        start: whole.0,
                        end: whole.1,
                        value_start: value.0,
                        value_end: value.1,
                    };
                    if span.fits(len) {
                        Some(span)
                    } else {
                        None
                    }
                },
                _ => None,
            }
        } else {
            None
        },
        None => None,
    }
}

/// The value of the class attribute that a search reports in `attrs`.
pub open spec fn value_at(attrs: Seq<char>, found: Option<Seq<Option<(usize, usize)>>>) -> Option<
    Seq<char>,
> {
    match located(attrs.len(), found) {
        Some(span) => Some(attrs.subrange(span.value_start as int, span.value_end as int)),
        None => None,
    }
}

/// The class value of `attrs`, given what the search for a double-quoted
/// class attribute found and what the search for a single-quoted one found:
/// the double-quoted value where there is one, else the single-quoted.
pub open spec fn class_value(
    attrs: Seq<char>,
    double: Option<Seq<Option<(usize, usize)>>>,
    single: Option<Seq<Option<(usize, usize)>>>,
) -> Option<Seq<char>> {
    match value_at(attrs, double) {
        Some(value) => Some(value),
        None => value_at(attrs, single),
    }
}

/// `existing` followed by those of `added` that are not yet in the list, in
/// the order of `added`: no word is added twice.
pub open spec fn union(existing: Seq<Seq<char>>, added: Seq<Seq<char>>) -> Seq<Seq<char>>
    decreases added.len(),
{
    if added.len() == 0 {
        existing
    } else if existing.contains(added[0]) {
        union(existing, added.drop_first())
    } else {
        union(existing.push(added[0]), added.drop_first())
    }
}

/// The classes to add, as one text: `add_classes`, then, where there is one,
/// the language, after a space if anything stands before it.
pub open spec fn combined(add_classes: Seq<char>, add_lang: Option<Seq<char>>) -> Seq<char> {
    match add_lang {
        Some(lang) => if add_classes.len() == 0 {
            lang
        } else {
            add_classes + seq![' '] + lang
        },
        None => add_classes,
    }
}

/// A class attribute: `class=`, then `words` joined by single spaces between
/// two `quote` characters.
pub open spec fn class_attribute(quote: char, words: Seq<Seq<char>>) -> Seq<char> {
    seq!['c', 'l', 'a', 's', 's', '=', quote] + join(words) + seq![quote]
}

/// `attrs` with the class attribute at `span` replaced by one that holds its
/// words and then those of `added` that it lacked, in quotes of the same kind.
pub open spec fn substituted(
    attrs: Seq<char>,
    span: ClassSpan,
    quote: char,
    added: Seq<Seq<char>>,
) -> Seq<char> {
    let value = attrs.subrange(span.value_start as int, span.value_end as int);
    attrs.take(span.start as int) + class_attribute(quote, union(tokens(value), added))
        + attrs.skip(span.end as int)
}

/// `attrs`, trimmed, with a new double-quoted class attribute of the words
/// `added` after it, each word once; `attrs` itself where there is no word to
/// add.
pub open spec fn appended(attrs: Seq<char>, added: Seq<Seq<char>>) -> Seq<char> {
    let words = union(Seq::empty(), added);
    if words.len() == 0 {
        attrs
    } else {
        trim(attrs) + seq![' '] + class_attribute('"', words)
    }
}

/// `s` without the spaces it starts with.
pub open spec fn without_leading_spaces(s: Seq<char>) -> Seq<char>
    decreases s.len(),
{
    if s.len() > 0 && s[0] == ' ' {
        without_leading_spaces(s.drop_first())
    } else {
        s
    }
}

/// Attribute text in the form in which it is written after a tag's name:
/// empty where `s` is nothing but white space, and with exactly one leading
/// space otherwise.
pub open spec fn normalized(s: Seq<char>) -> Seq<char> {
    if all_space(s) {
        Seq::empty()
    } else {
        seq![' '] + without_leading_spaces(s)
    }
}

/// The class attribute of `attrs` that a merge works on, with its kind of
/// quote: the double-quoted one that was found, else the single-quoted one.
pub open spec fn class_place(
    attrs: Seq<char>,
    double: Option<Seq<Option<(usize, usize)>>>,
    single: Option<Seq<Option<(usize, usize)>>>,
) -> Option<(ClassSpan, char)> {
    match located(attrs.len(), double) {
        Some(span) => Some((span, '"')),
        None => match located(attrs.len(), single) {
            Some(span) => Some((span, '\'')),
            None => None,
        },
    }
}

/// `attrs` with the words `added` merged into its class attribute, given what
/// the searches for a double-quoted and for a single-quoted class attribute
/// found in `attrs`. The double-quoted attribute is taken where both are
/// found; where neither is, a new attribute is added at the end.
pub open spec fn merged(
    attrs: Seq<char>,
    double: Option<Seq<Option<(usize, usize)>>>,
    single: Option<Seq<Option<(usize, usize)>>>,
    added: Seq<Seq<char>>,
) -> Seq<char> {
    normalized(
        match class_place(attrs, double, single) {
            Some((span, quote)) => substituted(attrs, span, quote, added),
            None => appended(attrs, added),
        },
    )
}

/// The class value of `attrs`: what stands between the quotes of its first
/// double-quoted class attribute with a value, else of its first
/// single-quoted one.
pub open spec fn class_of(attrs: Seq<char>) -> Option<Seq<char>> {
    class_value(
        attrs,
        first_match(CLASS_DOUBLE_QUOTED@, attrs),
        first_match(CLASS_SINGLE_QUOTED@, attrs),
    )
}

/// `attrs` with the classes of `add_classes`, and then the class `add_lang`
/// where there is one, merged into its class attribute.
pub open spec fn updated(
    attrs: Seq<char>,
    add_classes: Seq<char>,
    add_lang: Option<Seq<char>>,
) -> Seq<char> {
    merged(
        attrs,
        first_match(CLASS_DOUBLE_QUOTED_ANY@, attrs),
        first_match(CLASS_SINGLE_QUOTED_ANY@, attrs),
        tokens(combined(add_classes, add_lang)),
    )
}

/// The words of the class attribute that a merge writes, with its kind of
/// quote; `None` where the merge writes no class attribute, because `attrs`
/// has none and there is no word to add.
pub open spec fn written_class(
    attrs: Seq<char>,
    double: Option<Seq<Option<(usize, usize)>>>,
    single: Option<Seq<Option<(usize, usize)>>>,
    added: Seq<Seq<char>>,
) -> Option<(char, Seq<Seq<char>>)> {
    match class_place(attrs, double, single) {
        Some((span, quote)) => Some(
            (
                quote,
                union(
                    tokens(attrs.subrange(span.value_start as int, span.value_end as int)),
                    added,
                ),
            ),
        ),
        None => if union(Seq::empty(), added).len() == 0 {
            None
        } else {
            Some(('"', union(Seq::empty(), added)))
        },
    }
}

/// What a merge keeps of `attrs` before the class attribute that it writes:
/// the text before the attribute that was found, without leading spaces; or,
/// where none was found, the trimmed text and a space.
pub open spec fn kept_before(
    attrs: Seq<char>,
    double: Option<Seq<Option<(usize, usize)>>>,
    single: Option<Seq<Option<(usize, usize)>>>,
) -> Seq<char> {
    match class_place(attrs, double, single) {
        Some((span, quote)) => without_leading_spaces(attrs.take(span.start as int)),
        None => if trim(attrs).len() == 0 {
            Seq::empty()
        } else {
            trim(attrs) + seq![' ']
        },
    }
}

/// What a merge keeps of `attrs` after the class attribute that it writes:
/// the text after the attribute that was found, and nothing where none was.
pub open spec fn kept_after(
    attrs: Seq<char>,
    double: Option<Seq<Option<(usize, usize)>>>,
    single: Option<Seq<Option<(usize, usize)>>>,
) -> Seq<char> {
    match class_place(attrs, double, single) {
        Some((span, quote)) => attrs.skip(span.end as int),
        None => Seq::empty(),
    }
}

/// Whether the search result `found` reports a class attribute in `text` that
/// starts at `at` and is `class=`, a quote, `value` and a quote.
pub open spec fn reports(
    text: Seq<char>,
    found: Option<Seq<Option<(usize, usize)>>>,
    at: int,
    value: Seq<char>,
) -> bool {
    located(text.len(), found) matches Some(span) && span.start == at && span.value_start == at + 7
        && span.value_end == at + 7 + value.len() && span.end == at + 8 + value.len()
}

/// Whether the two searches over the result of a merge find the class
/// attribute that the merge wrote, where it wrote it: in double quotes by the
/// search for a double-quoted attribute, in single quotes by the search for a
/// single-quoted one and not by the other; and find nothing where the merge
/// wrote no class attribute.
pub open spec fn finds_written(
    attrs: Seq<char>,
    double: Option<Seq<Option<(usize, usize)>>>,
    single: Option<Seq<Option<(usize, usize)>>>,
    added: Seq<Seq<char>>,
    double_again: Option<Seq<Option<(usize, usize)>>>,
    single_again: Option<Seq<Option<(usize, usize)>>>,
) -> bool {
    let out = merged(attrs, double, single, added);
    let at = 1 + kept_before(attrs, double, single).len() as int;
    match written_class(attrs, double, single, added) {
        Some((quote, words)) => if quote == '"' {
            reports(out, double_again, at, join(words))
        } else {
            located(out.len(), double_again) is None && reports(out, single_again, at, join(words))
        },
        None => located(out.len(), double_again) is None && located(out.len(), single_again)
            is None,
    }
}

/// What `union` yields: the existing words first, every added word
/// somewhere, and no word from elsewhere.
pub proof fn lemma_union(existing: Seq<Seq<char>>, added: Seq<Seq<char>>)
    ensures
        existing.len() <= union(existing, added).len(),
        union(existing, added).take(existing.len() as int) == existing,
        forall|k: int| 0 <= k < added.len() ==> union(existing, added).contains(#[trigger] added[k]),
        forall|k: int|
            0 <= k < union(existing, added).len() ==> existing.contains(
                #[trigger] union(existing, added)[k],
            ) || added.contains(union(existing, added)[k]),
    decreases added.len(),
{
    let all = union(existing, added);
    if added.len() == 0 {
        assert(all.take(existing.len() as int) =~= existing);
        assert forall|k: int| 0 <= k < all.len() implies existing.contains(#[trigger] all[k]) by {
            assert(existing[k] == all[k]);
        }
    } else {
        let rest = added.drop_first();
        let next = if existing.contains(added[0]) {
            existing
        } else {
            existing.push(added[0])
        };
        lemma_union(next, rest);
        assert(all == union(next, rest));
        assert(all.take(existing.len() as int) =~= all.take(next.len() as int).take(
            existing.len() as int,
        ));
        assert(next.take(existing.len() as int) =~= existing);
        assert forall|k: int| 0 <= k < added.len() implies all.contains(#[trigger] added[k]) by {
            if k == 0 {
                if existing.contains(added[0]) {
                    let i = choose|i: int| 0 <= i < existing.len() && existing[i] == added[0];
                    assert(all.take(next.len() as int)[i] == all[i]);
                } else {
                    assert(all.take(next.len() as int)[existing.len() as int] == all[existing.len() as int]);
                    assert(next[existing.len() as int] == added[0]);
                }
            } else {
                assert(rest[k - 1] == added[k]);
            }
        }
        assert forall|k: int| 0 <= k < all.len() implies existing.contains(#[trigger] all[k])
            || added.contains(all[k]) by {
            if next.contains(all[k]) {
                let i = choose|i: int| 0 <= i < next.len() && next[i] == all[k];
                if i < existing.len() {
                    assert(existing[i] == all[k]);
                } else {
                    assert(added[0] == all[k]);
                }
            } else {
                let j = choose|j: int| 0 <= j < rest.len() && rest[j] == all[k];
                assert(added[j + 1] == all[k]);
            }
        }
    }
}

/// Adding words that are all there changes nothing.
pub proof fn lemma_union_absorbs(existing: Seq<Seq<char>>, added: Seq<Seq<char>>)
    requires
        forall|k: int| 0 <= k < added.len() ==> existing.contains(#[trigger] added[k]),
    ensures
        union(existing, added) == existing,
    decreases added.len(),
{
    if added.len() > 0 {
        let rest = added.drop_first();
        assert(existing.contains(added[0]));
        assert forall|k: int| 0 <= k < rest.len() implies existing.contains(#[trigger] rest[k]) by {
            assert(rest[k] == added[k + 1]);
        }
        lemma_union_absorbs(existing, rest);
    }
}

/// Merging the same words a second time adds nothing: no class is
/// duplicated.
pub proof fn lemma_union_idempotent(existing: Seq<Seq<char>>, added: Seq<Seq<char>>)
    ensures
        union(union(existing, added), added) == union(existing, added),
{
    lemma_union(existing, added);
    lemma_union_absorbs(union(existing, added), added);
}

/// A union of words is a list of words.
pub proof fn lemma_union_of_words(existing: Seq<Seq<char>>, added: Seq<Seq<char>>)
    requires
        are_words(existing),
        are_words(added),
    ensures
        are_words(union(existing, added)),
{
    lemma_union(existing, added);
    let all = union(existing, added);
    assert forall|k: int| 0 <= k < all.len() implies (#[trigger] all[k]).len() > 0 && no_space(
        all[k],
    ) by {
        if existing.contains(all[k]) {
            let i = choose|i: int| 0 <= i < existing.len() && existing[i] == all[k];
            assert(existing[i].len() > 0);
        } else {
            let j = choose|j: int| 0 <= j < added.len() && added[j] == all[k];
            assert(added[j].len() > 0);
        }
    }
}

/// Leading spaces are taken from the first of two texts only, where the
/// second does not start with a space.
pub proof fn lemma_without_leading_spaces(a: Seq<char>, b: Seq<char>)
    requires
        b.len() > 0,
        b[0] != ' ',
    ensures
        without_leading_spaces(a + b) == without_leading_spaces(a) + b,
    decreases a.len(),
{
    if a.len() == 0 {
        assert(a + b =~= b);
        assert(without_leading_spaces(a) + b =~= b);
    } else if a[0] == ' ' {
        assert((a + b)[0] == a[0]);
        assert((a + b).drop_first() =~= a.drop_first() + b);
        lemma_without_leading_spaces(a.drop_first(), b);
    } else {
        assert((a + b)[0] == a[0]);
    }
}

/// What is left without leading spaces does not start with a space.
pub proof fn lemma_no_leading_space(s: Seq<char>)
    ensures
        without_leading_spaces(s).len() > 0 ==> without_leading_spaces(s)[0] != ' ',
    decreases s.len(),
{
    if s.len() > 0 && s[0] == ' ' {
        lemma_no_leading_space(s.drop_first());
    }
}

/// Attribute text that is a space and then a text with a character other
/// than white space, and no space at its start, is in normal form.
pub proof fn lemma_normal_form(rest: Seq<char>, k: int)
    requires
        0 <= k < rest.len(),
        !is_space(rest[k]),
        rest[0] != ' ',
    ensures
        normalized(seq![' '] + rest) == seq![' '] + rest,
{
    let s = seq![' '] + rest;
    assert(s[k + 1] == rest[k]);
    assert(!all_space(s));
    assert(s.drop_first() =~= rest);
    assert(without_leading_spaces(rest) == rest);
    assert(without_leading_spaces(s) == without_leading_spaces(s.drop_first()));
}

/// Unrelated attributes are kept as they are. The result of a merge is one
/// space, what is kept of the text before the class attribute, the class
/// attribute with the merged words, and the text after the attribute that was
/// found, untouched. Where no class attribute was found and no word is to be
/// added, it is the text in normal form.
pub proof fn lemma_merge_keeps_other_attributes(
    attrs: Seq<char>,
    double: Option<Seq<Option<(usize, usize)>>>,
    single: Option<Seq<Option<(usize, usize)>>>,
    added: Seq<Seq<char>>,
)
    ensures
        match written_class(attrs, double, single, added) {
            Some((quote, words)) => merged(attrs, double, single, added) == seq![' '] + kept_before(
                attrs,
                double,
                single,
            ) + class_attribute(quote, words) + kept_after(attrs, double, single),
            None => merged(attrs, double, single, added) == normalized(attrs),
        },
{
    match written_class(attrs, double, single, added) {
        Some((quote, words)) => {
            let class = class_attribute(quote, words);
            let after = kept_after(attrs, double, single);
            assert(class[0] == 'c');
            assert((class + after)[0] == 'c');
            match class_place(attrs, double, single) {
                Some((span, q)) => {
                    let before = attrs.take(span.start as int);
                    let raw = substituted(attrs, span, quote, added);
                    assert(merged(attrs, double, single, added) == normalized(raw));
                    assert(raw =~= before + (class + after));
                    lemma_without_leading_spaces(before, class + after);
                    assert(raw[before.len() as int] == 'c');
                    assert(!all_space(raw));
                    assert(seq![' '] + (without_leading_spaces(before) + (class + after)) =~= seq![
                        ' ',
                    ] + without_leading_spaces(before) + class + after);
                },
                None => {
                    let raw = appended(attrs, added);
                    assert(merged(attrs, double, single, added) == normalized(raw));
                    lemma_trim(attrs);
                    let kept = trim(attrs);
                    assert(raw =~= kept + (seq![' '] + class));
                    assert(raw[kept.len() as int + 1] == 'c');
                    assert(!all_space(raw));
                    if kept.len() == 0 {
                        assert(raw =~= seq![' '] + class);
                        assert(raw.drop_first() =~= class);
                        assert(without_leading_spaces(class) == class);
                        assert(without_leading_spaces(raw) == without_leading_spaces(
                            raw.drop_first(),
                        ));
                        assert(seq![' '] + class =~= seq![' '] + Seq::<char>::empty() + class
                            + Seq::<char>::empty());
                    } else {
                        assert(raw[0] == kept[0]);
                        assert(without_leading_spaces(raw) == raw);
                        assert(seq![' '] + raw =~= seq![' '] + (kept + seq![' ']) + class
                            + Seq::<char>::empty());
                    }
                },
            }
        },
        None => {},
    }
}

/// Attribute text in normal form stays as it is when it is brought into
/// normal form again.
pub proof fn lemma_normalized_twice(s: Seq<char>)
    ensures
        normalized(normalized(s)) == normalized(s),
{
    if !all_space(s) {
        let k = choose|k: int| 0 <= k < s.len() && !is_space(#[trigger] s[k]);
        lemma_kept_character(s, k);
        lemma_no_leading_space(s);
        let rest = without_leading_spaces(s);
        let j = choose|j: int| 0 <= j < rest.len() && !is_space(#[trigger] rest[j]);
        lemma_normal_form(rest, j);
    }
}

/// A character that is no white space is still there when the leading spaces
/// are gone.
pub proof fn lemma_kept_character(s: Seq<char>, k: int)
    requires
        0 <= k < s.len(),
        !is_space(s[k]),
    ensures
        !all_space(without_leading_spaces(s)),
    decreases s.len(),
{
    if s.len() > 0 && s[0] == ' ' {
        assert(s.drop_first()[k - 1] == s[k]);
        lemma_kept_character(s.drop_first(), k - 1);
    } else {
        assert(!is_space(without_leading_spaces(s)[k]));
    }
}

/// Merging is idempotent: merging the same words into the result of a merge
/// changes nothing, whenever the searches over that result find the class
/// attribute that the first merge wrote, where it wrote it.
pub proof fn lemma_merge_idempotent(
    attrs: Seq<char>,
    double: Option<Seq<Option<(usize, usize)>>>,
    single: Option<Seq<Option<(usize, usize)>>>,
    added: Seq<Seq<char>>,
    double_again: Option<Seq<Option<(usize, usize)>>>,
    single_again: Option<Seq<Option<(usize, usize)>>>,
)
    requires
        are_words(added),
        finds_written(attrs, double, single, added, double_again, single_again),
    ensures
        merged(merged(attrs, double, single, added), double_again, single_again, added) == merged(
            attrs,
            double,
            single,
            added,
        ),
{
    let out = merged(attrs, double, single, added);
    lemma_merge_keeps_other_attributes(attrs, double, single, added);
    match written_class(attrs, double, single, added) {
        Some((quote, words)) => {
            let before = kept_before(attrs, double, single);
            let after = kept_after(attrs, double, single);
            let class = class_attribute(quote, words);
            let at = 1 + before.len() as int;
            assert(out == seq![' '] + before + class + after);
            assert(are_words(words)) by {
                match class_place(attrs, double, single) {
                    Some((span, q)) => {
                        let value = attrs.subrange(span.value_start as int, span.value_end as int);
                        lemma_tokens_are_words(value);
                        lemma_union_of_words(tokens(value), added);
                    },
                    None => {
                        lemma_union_of_words(Seq::empty(), added);
                    },
                }
            }
            assert(forall|k: int| 0 <= k < added.len() ==> words.contains(#[trigger] added[k])) by {
                match class_place(attrs, double, single) {
                    Some((span, q)) => {
                        let value = attrs.subrange(span.value_start as int, span.value_end as int);
                        lemma_union(tokens(value), added);
                    },
                    None => {
                        lemma_union(Seq::empty(), added);
                    },
                }
            }
            lemma_tokens_join(words);
            lemma_union_absorbs(words, added);
            let span = if quote == '"' {
                located(out.len(), double_again)->0
            } else {
                located(out.len(), single_again)->0
            };
            assert(class_place(out, double_again, single_again) == Some((span, quote)));
            assert(out.subrange(span.value_start as int, span.value_end as int) =~= join(words));
            let again = substituted(out, span, quote, added);
            assert(again =~= out);
            assert(out.drop_first() =~= before + class + after);
            assert(out[at] == 'c');
            assert((before + class + after)[0] != ' ') by {
                if before.len() > 0 {
                    match class_place(attrs, double, single) {
                        Some((span, q)) => {
                            lemma_no_leading_space(attrs.take(span.start as int));
                        },
                        None => {
                            lemma_trim(attrs);
                        },
                    }
                }
            }
            lemma_normal_form(before + class + after, before.len() as int);
            assert(seq![' '] + (before + class + after) =~= out);
        },
        None => {
            assert(union(Seq::empty(), added).len() == 0);
            assert(appended(out, added) == out);
            lemma_normalized_twice(attrs);
        },
    }
}

/// The class attribute that a search reports in a text of `len` characters.
pub fn locate(len: usize, found: &Option<Vec<Option<(usize, usize)>>>) -> (r: Option<ClassSpan>)
    ensures
        r == located(len as nat, found_view(*found)),
{
    match found {
        Some(groups) => {
            if groups.len() < 2 {
                return None;
            }
            match (groups[0], groups[1]) {
                (Some(whole), Some(value)) => {
                    if whole.0 <= value.0 && value.0 <= value.1 && value.1 <= whole.1 && whole.1
                        <= len {
                        Some(
                            ClassSpan {
                                start: whole.0,
                                end: whole.1,
                                value_start: value.0,
                                value_end: value.1,
                            },
                        )
                    } else {
                        None
                    }
                },
                _ => None,
            }
        },
        None => None,
    }
}

/// The value of the class attribute that a search reports in `attrs`.
pub fn captured_value(attrs: &[char], found: &Option<Vec<Option<(usize, usize)>>>) -> (r: Option<
    Vec<char>,
>)
    ensures
        match r {
            Some(value) => value_at(attrs@, found_view(*found)) == Some(value@),
            None => value_at(attrs@, found_view(*found)) is None,
        },
{
    match locate(attrs.len(), found) {
        Some(span) => Some(slice_of(attrs, span.value_start, span.value_end)),
        None => None,
    }
}

/// The value of the `class` attribute of `attrs`, as it stands between its
/// quotes: that of the first double-quoted class attribute with a value,
/// else that of the first single-quoted one, else `None`.
pub fn extract_class_attr(attrs: &str) -> (r: Option<String>)
    ensures
        string_view(r) == class_of(attrs@),
{
    let chars = chars_of(attrs);
    let double = captures(CLASS_DOUBLE_QUOTED, attrs);
    match captured_value(chars.as_slice(), &double) {
        Some(value) => Some(string_of(value.as_slice())),
        None => {
            let single = captures(CLASS_SINGLE_QUOTED, attrs);
            match captured_value(chars.as_slice(), &single) {
                Some(value) => Some(string_of(value.as_slice())),
                None => None,
            }
        },
    }
}

/// Whether `word` is one of `words`.
pub fn contains_word(words: &Vec<Vec<char>>, word: &[char]) -> (r: bool)
    ensures
        r == views(words@).contains(word@),
{
    let mut i: usize = 0;
    while i < words.len()
        invariant
            i <= words.len(),
            forall|k: int| 0 <= k < i ==> views(words@)[k] != word@,
        decreases words.len() - i,
    {
        if same_text(words[i].as_slice(), word) {
            assert(views(words@)[i as int] == word@);
            return true;
        }
        i += 1;
    }
    false
}

/// Adds to `words` those of `added` that it lacks, in their order.
pub fn add_words(words: &mut Vec<Vec<char>>, added: &Vec<Vec<char>>)
    ensures
        views(final(words)@) == union(views(old(words)@), views(added@)),
{
    let mut i: usize = 0;
    assert(views(added@).skip(0) =~= views(added@));
    while i < added.len()
        invariant
            i <= added.len(),
            union(views(old(words)@), views(added@)) == union(
                views(words@),
                views(added@).skip(i as int),
            ),
        decreases added.len() - i,
    {
        let ghost rest = views(added@).skip(i as int);
        assert(rest.drop_first() =~= views(added@).skip(i + 1));
        assert(rest[0] == added@[i as int]@);
        if !contains_word(words, added[i].as_slice()) {
            let word = slice_of(added[i].as_slice(), 0, added[i].len());
            assert(word@ =~= added@[i as int]@);
            assert(views(words@.push(word)) =~= views(words@).push(word@));
            words.push(word);
        }
        i += 1;
    }
}

/// Appends a class attribute of `words` in quotes `quote` to `out`.
pub fn push_class_attribute(out: &mut Vec<char>, quote: char, words: &Vec<Vec<char>>)
    ensures
        final(out)@ == old(out)@ + class_attribute(quote, views(words@)),
{
    out.push('c');
    out.push('l');
    out.push('a');
    out.push('s');
    out.push('s');
    out.push('=');
    out.push(quote);
    let value = join_words(words);
    push_all(out, value.as_slice());
    out.push(quote);
    assert(out@ =~= old(out)@ + class_attribute(quote, views(words@)));
}

/// `attrs` with the class attribute at `span` replaced by one that holds its
/// words and then those of `added` that it lacked.
pub fn substitute_class(attrs: &[char], span: ClassSpan, quote: char, added: &Vec<Vec<char>>) -> (r:
    Vec<char>)
    requires
        span.fits(attrs@.len()),
    ensures
        r@ == substituted(attrs@, span, quote, views(added@)),
{
    let value = slice_of(attrs, span.value_start, span.value_end);
    let mut words = split_whitespace(value.as_slice());
    add_words(&mut words, added);
    let mut out = slice_of(attrs, 0, span.start);
    push_class_attribute(&mut out, quote, &words);
    let rest = slice_of(attrs, span.end, attrs.len());
    push_all(&mut out, rest.as_slice());
    assert(attrs@.take(span.start as int) =~= attrs@.subrange(0, span.start as int));
    assert(attrs@.skip(span.end as int) =~= attrs@.subrange(
        span.end as int,
        attrs@.len() as int,
    ));
    out
}

/// `attrs`, trimmed, with a new double-quoted class attribute of the words
/// `added` after it; `attrs` itself where there is no word to add.
pub fn append_class(attrs: &[char], added: &Vec<Vec<char>>) -> (r: Vec<char>)
    ensures
        r@ == appended(attrs@, views(added@)),
{
    let mut words: Vec<Vec<char>> = Vec::new();
    assert(views(words@) =~= Seq::<Seq<char>>::empty());
    add_words(&mut words, added);
    if words.len() == 0 {
        let same = slice_of(attrs, 0, attrs.len());
        assert(same@ =~= attrs@);
        return same;
    }
    let (from, to) = trim_bounds(attrs);
    let mut out = slice_of(attrs, from, to);
    out.push(' ');
    push_class_attribute(&mut out, '"', &words);
    out
}

/// Whether `s` is nothing but white space.
pub fn is_blank(s: &[char]) -> (r: bool)
    ensures
        r == all_space(s@),
{
    let mut i: usize = 0;
    while i < s.len()
        invariant
            i <= s.len(),
            forall|k: int| 0 <= k < i ==> is_space(#[trigger] s@[k]),
        decreases s.len() - i,
    {
        if !is_whitespace(s[i]) {
            return false;
        }
        i += 1;
    }
    true
}

/// Attribute text as it is written after a tag's name: empty where `s` is
/// nothing but white space, and with exactly one leading space otherwise.
pub fn normalize(s: &[char]) -> (r: Vec<char>)
    ensures
        r@ == normalized(s@),
{
    if is_blank(s) {
        return Vec::new();
    }
    let mut i: usize = 0;
    assert(s@.skip(0) =~= s@);
    while i < s.len() && s[i] == ' '
        invariant
            i <= s.len(),
            without_leading_spaces(s@) == without_leading_spaces(s@.skip(i as int)),
        decreases s.len() - i,
    {
        assert(s@.skip(i as int).drop_first() =~= s@.skip(i + 1));
        i += 1;
    }
    let mut out: Vec<char> = Vec::new();
    out.push(' ');
    let rest = slice_of(s, i, s.len());
    push_all(&mut out, rest.as_slice());
    assert(out@ =~= seq![' '] + s@.skip(i as int));
    out
}

/// `attrs` with the words `added` merged into the class attribute that the
/// searches report: `double` from the search for a double-quoted class
/// attribute, `single` from the search for a single-quoted one.
pub fn merge_classes(
    attrs: &[char],
    double: &Option<Vec<Option<(usize, usize)>>>,
    single: &Option<Vec<Option<(usize, usize)>>>,
    added: &Vec<Vec<char>>,
) -> (r: Vec<char>)
    ensures
        r@ == merged(attrs@, found_view(*double), found_view(*single), views(added@)),
{
    let raw = match locate(attrs.len(), double) {
        Some(span) => substitute_class(attrs, span, '"', added),
        None => match locate(attrs.len(), single) {
            Some(span) => substitute_class(attrs, span, '\'', added),
            None => append_class(attrs, added),
        },
    };
    normalize(raw.as_slice())
}

/// The classes to add, as one text.
pub fn combine(add_classes: &str, add_lang: Option<&str>) -> (r: Vec<char>)
    ensures
        r@ == combined(add_classes@, str_view(add_lang)),
{
    let mut out = chars_of(add_classes);
    match add_lang {
        Some(lang) => {
            if out.len() > 0 {
                out.push(' ');
            }
            let more = chars_of(lang);
            push_all(&mut out, more.as_slice());
        },
        None => {},
    }
    out
}

/// `attrs` with the classes of `add_classes`, and then the class `add_lang`
/// where there is one, merged into its class attribute.
///
/// An attribute in double quotes is looked for first, then one in single
/// quotes; the one found keeps its place and its kind of quotes, holds its
/// words separated by single spaces, and after them those of the new classes
/// that it lacked. Where none is found, a double-quoted class attribute of the
/// new classes is added after the trimmed text. The result is empty where it
/// would be nothing but white space, and starts with exactly one space
/// otherwise, so that it can be written directly after a tag's name.
pub fn update_or_add_class(attrs: &str, add_classes: &str, add_lang: Option<&str>) -> (r: String)
    ensures
        r@ == updated(attrs@, add_classes@, str_view(add_lang)),
{
    let chars = chars_of(attrs);
    let all = combine(add_classes, add_lang);
    let added = split_whitespace(all.as_slice());
    let double = captures(CLASS_DOUBLE_QUOTED_ANY, attrs);
    let single = captures(CLASS_SINGLE_QUOTED_ANY, attrs);
    let out = merge_classes(chars.as_slice(), &double, &single, &added);
    string_of(out.as_slice())
}

} // verus!
