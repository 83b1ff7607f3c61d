//! Finding the blocks of a document and putting highlighted blocks in their
//! place.
//!
//! A block is a `pre` element that holds nothing but a `code` element. The
//! blocks are searched for in the document as it was given; what lies between
//! them is copied, and so is every block whose language is not known or
//! which the engine fails on.

use crate::attrs::{class_of, extract_class_attr, update_or_add_class, updated};
use crate::engine::{highlight_to_html, new_highlighter, rendered};
use crate::entities::{decode, unescape_chars};
use crate::languages::{
    language_map, resolved, standard_languages, LanguageEntry, LanguageMap, LanguageSpec,
};
use crate::patterns::{all_matches, captures_iter, matches_view, BLOCK};
use crate::text::{chars_of, push_all, slice_of, string_of, string_view};
use tree_sitter_highlight::Highlighter;
use vstd::prelude::*;

verus! {

/// The class that marks a highlighted block.
pub const MARKER: &'static str = "sourceCode";

/// A block in a document: the block itself from `start` up to `end`, and
/// inside it the attribute text of the `pre` tag, that of the `code` tag, and
/// the escaped text between `<code…>` and `</code>`. Positions count
/// characters.
#[derive(Clone, Copy, Debug)]
pub struct BlockMatch {
    pub start: usize,
    pub end: usize,
    pub pre_attrs: (usize, usize),
    pub code_attrs: (usize, usize),
    pub body: (usize, usize),
}

impl BlockMatch {
    /// Whether `span` lies inside the block.
    pub open spec fn holds(self, span: (usize, usize)) -> bool {
        self.start <= span.0 <= span.1 <= self.end
    }

    /// Whether the block lies in a document of `len` characters at or after
    /// position `from`, with its three parts inside it.
    pub open spec fn fits(self, from: nat, len: nat) -> bool {
        &&& from <= self.start <= self.end <= len
        &&& self.holds(self.pre_attrs)
        &&& self.holds(self.code_attrs)
        &&& self.holds(self.body)
    }
}

/// The part of `doc` that `span` covers.
pub open spec fn cut(doc: Seq<char>, span: (usize, usize)) -> Seq<char> {
    doc.subrange(span.0 as int, span.1 as int)
}

/// The block that a match of the block pattern reports in a document of `len`
/// characters, for a search that has come to position `from`. Group 0 is the
/// block, groups 1 to 3 are its parts. A match without these groups, one that
/// starts before `from`, and one with positions that do not fit count as no
/// block.
pub open spec fn block_of(len: nat, from: nat, groups: Seq<Option<(usize, usize)>>) -> Option<
    BlockMatch,
> {
    if groups.len() >= 4 {
        match (groups[0], groups[1], groups[2], groups[3]) {
            (Some(whole), Some(pre_attrs), Some(code_attrs), Some(body)) => {
                let block = BlockMatch {
                    start: whole.0,
                    end: whole.1,
                    pre_attrs,
                    code_attrs,
                    body,
                };
                if block.fits(from, len) {
                    Some(block)
                } else {
                    None
                }
            },
            _ => None,
        }
    } else {
        None
    }
}

/// The language of a block with the attribute texts `pre_attrs` and
/// `code_attrs`: the one that the class of the `code` tag names, else the one
/// that the class of the `pre` tag names.
pub open spec fn block_language(
    pre_attrs: Seq<char>,
    code_attrs: Seq<char>,
    registry: Seq<LanguageSpec>,
) -> Option<LanguageSpec> {
    resolved(class_of(code_attrs), class_of(pre_attrs), registry)
}

/// A highlighted block: the rendered HTML inside a `code` and a `pre`
/// element with the given attribute texts, inside a marked `div`.
pub open spec fn wrapped(pre_attrs: Seq<char>, code_attrs: Seq<char>, html: Seq<char>) -> Seq<
    char,
> {
    "<div class=\"sourceCode\"><pre"@ + pre_attrs + "><code"@ + code_attrs + ">"@ + html
        + "</code></pre></div>"@
}

/// What stands for a block of the language named `language`, given what the
/// engine rendered for it: the block as it was where the engine failed, and
/// else the rendered HTML, wrapped, with the marker class merged into both
/// attribute texts and the language's name into that of the `code` tag.
pub open spec fn finished(
    whole: Seq<char>,
    pre_attrs: Seq<char>,
    code_attrs: Seq<char>,
    language: Seq<char>,
    html: Option<Seq<char>>,
) -> Seq<char> {
    match html {
        Some(html) => wrapped(
            updated(pre_attrs, MARKER@, None),
            updated(code_attrs, MARKER@, Some(language)),
            html,
        ),
        None => whole,
    }
}

/// What stands for the block `whole` with the parts `pre_attrs`, `code_attrs`
/// and `body`: the block as it was where no language is found for it, and
/// else what the engine's rendering of the decoded body gives.
pub open spec fn highlighted(
    whole: Seq<char>,
    pre_attrs: Seq<char>,
    code_attrs: Seq<char>,
    body: Seq<char>,
    registry: Seq<LanguageSpec>,
) -> Seq<char> {
    match block_language(pre_attrs, code_attrs, registry) {
        Some(language) => finished(
            whole,
            pre_attrs,
            code_attrs,
            language.name,
            rendered(
                language.grammar,
                language.name,
                language.highlights_query,
                language.injections_query,
                language.locals_query,
                decode(body),
            ),
        ),
        None => whole,
    }
}

/// What stands for the block `block` of `doc`.
pub open spec fn replacement(doc: Seq<char>, block: BlockMatch, registry: Seq<LanguageSpec>) -> Seq<
    char,
> {
    highlighted(
        cut(doc, (block.start, block.end)),
        cut(doc, block.pre_attrs),
        cut(doc, block.code_attrs),
        cut(doc, block.body),
        registry,
    )
}

/// `doc` from position `from` on, with each block that `matches` reports, in
/// their order, replaced by what stands for it. What lies before, between and
/// after the blocks is copied; a match that reports no block at or after the
/// end of the block before it is passed over.
pub open spec fn spliced(
    doc: Seq<char>,
    matches: Seq<Seq<Option<(usize, usize)>>>,
    from: nat,
    registry: Seq<LanguageSpec>,
) -> Seq<char>
    decreases matches.len(),
{
    if matches.len() == 0 {
        doc.skip(from as int)
    } else {
        match block_of(doc.len(), from, matches[0]) {
            Some(block) => doc.subrange(from as int, block.start as int) + replacement(
                doc,
                block,
                registry,
            ) + spliced(doc, matches.drop_first(), block.end as nat, registry),
            None => spliced(doc, matches.drop_first(), from, registry),
        }
    }
}

/// `doc` with each of its blocks replaced by what stands for it.
pub open spec fn rewritten(doc: Seq<char>, registry: Seq<LanguageSpec>) -> Seq<char> {
    spliced(doc, all_matches(BLOCK@, doc), 0, registry)
}

/// Whether the match `groups` leaves `doc` as it is: it reports no block, or
/// one that stands for itself.
pub open spec fn passes_through(
    doc: Seq<char>,
    groups: Seq<Option<(usize, usize)>>,
    registry: Seq<LanguageSpec>,
) -> bool {
    block_of(doc.len(), 0, groups) matches Some(block) ==> replacement(doc, block, registry) == cut(
        doc,
        (block.start, block.end),
    )
}

/// Whether the match `groups` reports no block in `doc`, or one for which no
/// language is found: neither the class of its `code` tag nor that of its
/// `pre` tag names a language of `registry`.
pub open spec fn unresolved(
    doc: Seq<char>,
    groups: Seq<Option<(usize, usize)>>,
    registry: Seq<LanguageSpec>,
) -> bool {
    block_of(doc.len(), 0, groups) matches Some(block) ==> block_language(
        cut(doc, block.pre_attrs),
        cut(doc, block.code_attrs),
        registry,
    ) is None
}

/// Where every block stands for itself, the document from any position on
/// comes out as it went in: nothing is lost, doubled or moved.
pub proof fn lemma_splice_identity(
    doc: Seq<char>,
    matches: Seq<Seq<Option<(usize, usize)>>>,
    from: nat,
    registry: Seq<LanguageSpec>,
)
    requires
        from <= doc.len(),
        forall|k: int| 0 <= k < matches.len() ==> passes_through(doc, #[trigger] matches[k], registry),
    ensures
        spliced(doc, matches, from, registry) == doc.skip(from as int),
    decreases matches.len(),
{
    if matches.len() == 0 {
    } else {
        let rest = matches.drop_first();
        assert forall|k: int| 0 <= k < rest.len() implies passes_through(
            doc,
            #[trigger] rest[k],
            registry,
        ) by {
            assert(rest[k] == matches[k + 1]);
        }
        assert(passes_through(doc, matches[0], registry));
        match block_of(doc.len(), from, matches[0]) {
            Some(block) => {
                assert(block_of(doc.len(), 0, matches[0]) == Some(block));
                lemma_splice_identity(doc, rest, block.end as nat, registry);
                assert(doc.subrange(from as int, block.start as int) + cut(
                    doc,
                    (block.start, block.end),
                ) + doc.skip(block.end as int) =~= doc.skip(from as int));
            },
            None => {
                lemma_splice_identity(doc, rest, from, registry);
            },
        }
    }
}

/// A document without blocks is left as it is.
pub proof fn lemma_no_block(doc: Seq<char>, registry: Seq<LanguageSpec>)
    requires
        all_matches(BLOCK@, doc).len() == 0,
    ensures
        rewritten(doc, registry) == doc,
{
    assert(doc.skip(0) =~= doc);
}

/// A document is left as it is where for none of its blocks a language is
/// found: each such block passes through unchanged.
pub proof fn lemma_unresolved_blocks(doc: Seq<char>, registry: Seq<LanguageSpec>)
    requires
        forall|k: int|
            0 <= k < all_matches(BLOCK@, doc).len() ==> unresolved(
                doc,
                #[trigger] all_matches(BLOCK@, doc)[k],
                registry,
            ),
    ensures
        rewritten(doc, registry) == doc,
{
    let matches = all_matches(BLOCK@, doc);
    assert forall|k: int| 0 <= k < matches.len() implies passes_through(
        doc,
        #[trigger] matches[k],
        registry,
    ) by {
        assert(unresolved(doc, matches[k], registry));
    }
    lemma_splice_identity(doc, matches, 0, registry);
    assert(doc.skip(0) =~= doc);
}

/// The block that a match of the block pattern reports in a document of `len`
/// characters, for a search that has come to position `from`.
pub fn block_at(len: usize, from: usize, groups: &Vec<Option<(usize, usize)>>) -> (r: Option<
    BlockMatch,
>)
    ensures
        r == block_of(len as nat, from as nat, groups@),
{
    if groups.len() < 4 {
        return None;
    }
    match (groups[0], groups[1], groups[2], groups[3]) {
        (Some(whole), Some(pre_attrs), Some(code_attrs), Some(body)) => {
            let inside = |span: (usize, usize)| -> (b: bool)
                ensures
                    b == (whole.0 <= span.0 <= span.1 <= whole.1),
                { whole.0 <= span.0 && span.0 <= span.1 && span.1 <= whole.1 };
            if from <= whole.0 && whole.0 <= whole.1 && whole.1 <= len && inside(pre_attrs)
                && inside(code_attrs) && inside(body) {
                Some(BlockMatch { start: whole.0, end: whole.1, pre_attrs, code_attrs, body })
            } else {
                None
            }
        },
        _ => None,
    }
}

/// The language of a block with the attribute texts `pre_attrs` and
/// `code_attrs`.
pub fn language_of<'a>(pre_attrs: &str, code_attrs: &str, registry: &'a LanguageMap) -> (r: Option<
    &'a LanguageEntry,
>)
    ensures
        match r {
            Some(entry) => block_language(pre_attrs@, code_attrs@, registry@) == Some(entry@),
            None => block_language(pre_attrs@, code_attrs@, registry@) is None,
        },
{
    let code_class = extract_class_attr(code_attrs);
    let pre_class = extract_class_attr(pre_attrs);
    registry.resolve(&code_class, &pre_class)
}

/// What stands for a block of the language named `language`, given what the
/// engine rendered for it.
pub fn finish_block(
    whole: &[char],
    pre_attrs: &str,
    code_attrs: &str,
    language: &str,
    html: &Option<String>,
) -> (r: Vec<char>)
    ensures
        r@ == finished(whole@, pre_attrs@, code_attrs@, language@, string_view(*html)),
{
    match html {
        Some(html) => {
            let new_pre_attrs = update_or_add_class(pre_attrs, MARKER, None);
            let new_code_attrs = update_or_add_class(code_attrs, MARKER, Some(language));
            let mut out = chars_of("<div class=\"sourceCode\"><pre");
            push_all(&mut out, chars_of(new_pre_attrs.as_str()).as_slice());
            push_all(&mut out, chars_of("><code").as_slice());
            push_all(&mut out, chars_of(new_code_attrs.as_str()).as_slice());
            push_all(&mut out, chars_of(">").as_slice());
            push_all(&mut out, chars_of(html.as_str()).as_slice());
            push_all(&mut out, chars_of("</code></pre></div>").as_slice());
            out
        },
        None => {
            let same = slice_of(whole, 0, whole.len());
            assert(same@ =~= whole@);
            same
        },
    }
}

/// What stands for the block `whole` with the parts `pre_attrs`, `code_attrs`
/// and `body`. A block for which no language is found comes back as it is.
pub fn highlight_block(
    highlighter: &mut Highlighter,
    whole: &[char],
    pre_attrs: &[char],
    code_attrs: &[char],
    body: &[char],
    registry: &LanguageMap,
) -> (r: Vec<char>)
    ensures
        r@ == highlighted(whole@, pre_attrs@, code_attrs@, body@, registry@),
        block_language(pre_attrs@, code_attrs@, registry@) is None ==> r@ == whole@,
{
    let pre_attrs = string_of(pre_attrs);
    let code_attrs = string_of(code_attrs);
    match language_of(pre_attrs.as_str(), code_attrs.as_str(), registry) {
        Some(entry) => {
            let decoded = unescape_chars(body);
            let source = string_of(decoded.as_slice());
            let name = string_of(entry.name.as_slice());
            let html = highlight_to_html(
                highlighter,
                entry.grammar,
                name.as_str(),
                entry.highlights_query.as_str(),
                entry.injections_query.as_str(),
                entry.locals_query.as_str(),
                source.as_str(),
            );
            finish_block(whole, pre_attrs.as_str(), code_attrs.as_str(), name.as_str(), &html)
        },
        None => {
            let same = slice_of(whole, 0, whole.len());
            assert(same@ =~= whole@);
            same
        },
    }
}

/// `doc` with each block that `matches` reports replaced by what stands for
/// it.
pub fn splice(
    highlighter: &mut Highlighter,
    doc: &[char],
    matches: &Vec<Vec<Option<(usize, usize)>>>,
    registry: &LanguageMap,
) -> (r: Vec<char>)
    ensures
        r@ == spliced(doc@, matches_view(matches@), 0, registry@),
{
    let mut out: Vec<char> = Vec::new();
    let mut from: usize = 0;
    let mut k: usize = 0;
    let ghost all = matches_view(matches@);
    assert(all.skip(0) =~= all);
    while k < matches.len()
        invariant
            k <= matches.len(),
            from <= doc.len(),
            all == matches_view(matches@),
            spliced(doc@, all, 0, registry@) == out@ + spliced(
                doc@,
                all.skip(k as int),
                from as nat,
                registry@,
            ),
        decreases matches.len() - k,
    {
        let ghost rest = all.skip(k as int);
        assert(rest[0] == matches@[k as int]@);
        assert(rest.drop_first() =~= all.skip(k + 1));
        match block_at(doc.len(), from, &matches[k]) {
            Some(block) => {
                let between = slice_of(doc, from, block.start);
                let whole = slice_of(doc, block.start, block.end);
                let pre_attrs = slice_of(doc, block.pre_attrs.0, block.pre_attrs.1);
                let code_attrs = slice_of(doc, block.code_attrs.0, block.code_attrs.1);
                let body = slice_of(doc, block.body.0, block.body.1);
                let new_block = highlight_block(
                    highlighter,
                    whole.as_slice(),
                    pre_attrs.as_slice(),
                    code_attrs.as_slice(),
                    body.as_slice(),
                    registry,
                );
                assert(new_block@ == replacement(doc@, block, registry@));
                assert(out@ + between@ + new_block@ + spliced(
                    doc@,
                    rest.drop_first(),
                    block.end as nat,
                    registry@,
                ) =~= out@ + (between@ + new_block@ + spliced(
                    doc@,
                    rest.drop_first(),
                    block.end as nat,
                    registry@,
                )));
                push_all(&mut out, between.as_slice());
                push_all(&mut out, new_block.as_slice());
                from = block.end;
            },
            None => {},
        }
        k += 1;
    }
    let tail = slice_of(doc, from, doc.len());
    assert(tail@ =~= doc@.skip(from as int));
    push_all(&mut out, tail.as_slice());
    out
}

/// `input` with each block whose language `registry` knows replaced by its
/// highlighted form.
///
/// The blocks are the matches of the block pattern in `input`, from left to
/// right. A block without a known language, and one on which the engine
/// fails, is left as it is; so is everything outside the blocks.
pub fn highlight_html_with(input: &str, registry: &LanguageMap) -> (r: String)
    ensures
        r@ == rewritten(input@, registry@),
        all_matches(BLOCK@, input@).len() == 0 ==> r@ == input@,
        (forall|k: int|
            0 <= k < all_matches(BLOCK@, input@).len() ==> unresolved(
                input@,
                #[trigger] all_matches(BLOCK@, input@)[k],
                registry@,
            )) ==> r@ == input@,
{
    proof {
        if all_matches(BLOCK@, input@).len() == 0 {
            lemma_no_block(input@, registry@);
        }
        if forall|k: int|
            0 <= k < all_matches(BLOCK@, input@).len() ==> unresolved(
                input@,
                #[trigger] all_matches(BLOCK@, input@)[k],
                registry@,
            ) {
            lemma_unresolved_blocks(input@, registry@);
        }
    }
    let doc = chars_of(input);
    let matches = captures_iter(BLOCK, input);
    let mut highlighter = new_highlighter();
    let out = splice(&mut highlighter, doc.as_slice(), &matches, registry);
    string_of(out.as_slice())
}

/// `input` with each block in one of the supported languages replaced by
/// its highlighted form: the rendered HTML inside
/// `<div class="sourceCode"><pre…><code…>` … `</code></pre></div>`, where both
/// tags keep their attributes and gain the class `sourceCode`, and the `code`
/// tag the name of the language as well.
pub fn highlight_html(input: &str) -> (r: String)
    ensures
        r@ == rewritten(input@, standard_languages()),
        all_matches(BLOCK@, input@).len() == 0 ==> r@ == input@,
        (forall|k: int|
            0 <= k < all_matches(BLOCK@, input@).len() ==> unresolved(
                input@,
                #[trigger] all_matches(BLOCK@, input@)[k],
                standard_languages(),
            )) ==> r@ == input@,
{
    let registry = language_map();
    highlight_html_with(input, &registry)
}

} // verus!
