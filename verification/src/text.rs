//! Character sequences: white space, trimming, splitting into words and
//! joining words again.
//!
//! Text is modelled as `Seq<char>`. Executable code holds it as `Vec<char>` or
//! `&[char]`, so that every position is a character and never part of one.

use vstd::prelude::*;

verus! {

/// Whether `c` is white space: one of the characters that carry the Unicode
/// property `White_Space`.
pub open spec fn is_space(c: char) -> bool {
    let n = c as u32;
    (0x09 <= n <= 0x0d) || n == 0x20 || n == 0x85 || n == 0xa0 || n == 0x1680 || (0x2000 <= n
        <= 0x200a) || n == 0x2028 || n == 0x2029 || n == 0x202f || n == 0x205f || n == 0x3000
}

/// Whether every character of `s` is white space (true of the empty text).
pub open spec fn all_space(s: Seq<char>) -> bool {
    forall|k: int| 0 <= k < s.len() ==> is_space(#[trigger] s[k])
}

/// Whether no character of `s` is white space.
pub open spec fn no_space(s: Seq<char>) -> bool {
    forall|k: int| 0 <= k < s.len() ==> !is_space(#[trigger] s[k])
}

/// `s` without its leading white space.
pub open spec fn trim_start(s: Seq<char>) -> Seq<char>
    decreases s.len(),
{
    if s.len() > 0 && is_space(s[0]) {
        trim_start(s.drop_first())
    } else {
        s
    }
}

/// `s` without its trailing white space.
pub open spec fn trim_end(s: Seq<char>) -> Seq<char>
    decreases s.len(),
{
    if s.len() > 0 && is_space(s.last()) {
        trim_end(s.drop_last())
    } else {
        s
    }
}

/// `s` without leading and trailing white space.
pub open spec fn trim(s: Seq<char>) -> Seq<char> {
    trim_end(trim_start(s))
}

/// Number of characters at the start of `s` before the first white space.
pub open spec fn word_len(s: Seq<char>) -> nat
    decreases s.len(),
{
    if s.len() == 0 || is_space(s[0]) {
        0
    } else {
        1 + word_len(s.drop_first())
    }
}

/// The words of `s`: its maximal runs of characters that are not white space,
/// in the order in which they occur.
pub open spec fn tokens(s: Seq<char>) -> Seq<Seq<char>>
    decreases s.len(),
    via tokens_decreases
{
    if s.len() == 0 {
        Seq::empty()
    } else if is_space(s[0]) {
        tokens(s.drop_first())
    } else {
        seq![s.take(word_len(s) as int)] + tokens(s.skip(word_len(s) as int))
    }
}

#[via_fn]
proof fn tokens_decreases(s: Seq<char>) {
    lemma_word_len(s);
}

/// `words` written one after the other with a single space between neighbours.
pub open spec fn join(words: Seq<Seq<char>>) -> Seq<char>
    decreases words.len(),
{
    if words.len() == 0 {
        Seq::empty()
    } else if words.len() == 1 {
        words[0]
    } else {
        join(words.drop_last()) + seq![' '] + words.last()
    }
}

/// Whether each of `words` is non-empty and free of white space, as the words
/// that `tokens` yields are.
pub open spec fn are_words(words: Seq<Seq<char>>) -> bool {
    forall|k: int| 0 <= k < words.len() ==> (#[trigger] words[k]).len() > 0 && no_space(words[k])
}

/// The text of an optional string.
pub open spec fn string_view(s: Option<String>) -> Option<Seq<char>> {
    match s {
        Some(s) => Some(s@),
        None => None,
    }
}

/// The text of an optional string slice.
pub open spec fn str_view(s: Option<&str>) -> Option<Seq<char>> {
    match s {
        Some(s) => Some(s@),
        None => None,
    }
}

/// The texts that a vector of character vectors holds.
pub open spec fn views(v: Seq<Vec<char>>) -> Seq<Seq<char>> {
    v.map_values(|w: Vec<char>| w@)
}

/// `word_len` stops at the first white space, or at the end.
pub proof fn lemma_word_len(s: Seq<char>)
    ensures
        word_len(s) <= s.len(),
        s.len() > 0 && !is_space(s[0]) ==> word_len(s) >= 1,
        no_space(s.take(word_len(s) as int)),
        word_len(s) < s.len() ==> is_space(s[word_len(s) as int]),
    decreases s.len(),
{
    if s.len() == 0 || is_space(s[0]) {
    } else {
        let r = s.drop_first();
        lemma_word_len(r);
        let w = word_len(s) as int;
        assert forall|k: int| 0 <= k < w implies !is_space(#[trigger] s.take(w)[k]) by {
            if k > 0 {
                assert(s.take(w)[k] == r.take(w - 1)[k - 1]);
            }
        }
        if w < s.len() {
            assert(s[w] == r[w - 1]);
        }
    }
}

/// A run of `w` characters without white space that ends at white space, or at
/// the end of the text, is the first word.
pub proof fn lemma_word_len_is(s: Seq<char>, w: int)
    requires
        0 <= w <= s.len(),
        no_space(s.take(w)),
        w < s.len() ==> is_space(s[w]),
    ensures
        word_len(s) == w,
    decreases w,
{
    if w == 0 {
    } else {
        assert(s.take(w)[0] == s[0]);
        let r = s.drop_first();
        assert forall|k: int| 0 <= k < w - 1 implies !is_space(#[trigger] r.take(w - 1)[k]) by {
            assert(r.take(w - 1)[k] == s.take(w)[k + 1]);
        }
        lemma_word_len_is(r, w - 1);
    }
}

/// The words of a text that starts with a word of `w` characters.
pub proof fn lemma_tokens_word(s: Seq<char>, w: int)
    requires
        0 < w <= s.len(),
        no_space(s.take(w)),
        w < s.len() ==> is_space(s[w]),
    ensures
        tokens(s) == seq![s.take(w)] + tokens(s.skip(w)),
{
    lemma_word_len_is(s, w);
    assert(s.take(w)[0] == s[0]);
}

/// The words that `tokens` yields are non-empty and free of white space.
pub proof fn lemma_tokens_are_words(s: Seq<char>)
    ensures
        are_words(tokens(s)),
    decreases s.len(),
{
    if s.len() == 0 {
    } else if is_space(s[0]) {
        lemma_tokens_are_words(s.drop_first());
    } else {
        lemma_word_len(s);
        let w = word_len(s) as int;
        lemma_tokens_are_words(s.skip(w));
        let rest = tokens(s.skip(w));
        let all = seq![s.take(w)] + rest;
        assert forall|k: int| 0 <= k < all.len() implies (#[trigger] all[k]).len() > 0 && no_space(
            all[k],
        ) by {
            if k > 0 {
                assert(all[k] == rest[k - 1]);
            }
        }
    }
}

/// A text that is one word has that word as its only word.
pub proof fn lemma_tokens_of_word(w: Seq<char>)
    requires
        w.len() > 0,
        no_space(w),
    ensures
        tokens(w) == seq![w],
{
    assert(w.take(w.len() as int) =~= w);
    lemma_tokens_word(w, w.len() as int);
    assert(w.skip(w.len() as int) =~= Seq::<char>::empty());
    assert(seq![w] + Seq::<Seq<char>>::empty() =~= seq![w]);
}

/// White space between two texts keeps their words apart: the words of the
/// whole are the words of the first text and then those of the second.
pub proof fn lemma_tokens_concat(a: Seq<char>, sp: char, b: Seq<char>)
    requires
        is_space(sp),
    ensures
        tokens(a + seq![sp] + b) == tokens(a) + tokens(b),
    decreases a.len(),
{
    let s = a + seq![sp] + b;
    if a.len() == 0 {
        assert(s.drop_first() =~= b);
        assert(tokens(a) + tokens(b) =~= tokens(b));
    } else if is_space(a[0]) {
        assert(s[0] == a[0]);
        assert(s.drop_first() =~= a.drop_first() + seq![sp] + b);
        lemma_tokens_concat(a.drop_first(), sp, b);
    } else {
        lemma_word_len(a);
        let w = word_len(a) as int;
        assert(s[0] == a[0]);
        assert(s.take(w) =~= a.take(w));
        assert(s[w] == if w < a.len() {
            a[w]
        } else {
            sp
        });
        lemma_tokens_word(s, w);
        lemma_tokens_word(a, w);
        assert(s.skip(w) =~= a.skip(w) + seq![sp] + b);
        lemma_tokens_concat(a.skip(w), sp, b);
        assert(seq![a.take(w)] + (tokens(a.skip(w)) + tokens(b)) =~= (seq![a.take(w)] + tokens(
            a.skip(w),
        )) + tokens(b));
    }
}

/// Splitting what was joined gives the words back.
pub proof fn lemma_tokens_join(words: Seq<Seq<char>>)
    requires
        are_words(words),
    ensures
        tokens(join(words)) == words,
    decreases words.len(),
{
    if words.len() == 0 {
    } else if words.len() == 1 {
        lemma_tokens_of_word(words[0]);
        assert(seq![words[0]] =~= words);
    } else {
        let front = words.drop_last();
        assert forall|k: int| 0 <= k < front.len() implies (#[trigger] front[k]).len() > 0
            && no_space(front[k]) by {
            assert(front[k] == words[k]);
        }
        lemma_tokens_join(front);
        lemma_tokens_concat(join(front), ' ', words.last());
        lemma_tokens_of_word(words.last());
        assert(front + seq![words.last()] =~= words);
    }
}

/// A trimmed text neither starts nor ends with white space.
pub proof fn lemma_trim(s: Seq<char>)
    ensures
        trim(s).len() > 0 ==> !is_space(trim(s)[0]) && !is_space(trim(s).last()),
        trim(s).len() <= s.len(),
        all_space(s) <==> trim(s).len() == 0,
{
    lemma_trim_start(s);
    lemma_trim_end(trim_start(s));
}

/// What is left without leading white space does not start with any, and is
/// empty only for a text of nothing but white space.
pub proof fn lemma_trim_start(s: Seq<char>)
    ensures
        trim_start(s).len() > 0 ==> !is_space(trim_start(s)[0]),
        trim_start(s).len() <= s.len(),
        all_space(s) <==> trim_start(s).len() == 0,
    decreases s.len(),
{
    if s.len() > 0 && is_space(s[0]) {
        let r = s.drop_first();
        lemma_trim_start(r);
        if all_space(r) {
            assert forall|k: int| 0 <= k < s.len() implies is_space(#[trigger] s[k]) by {
                if k > 0 {
                    assert(s[k] == r[k - 1]);
                }
            }
        }
        if all_space(s) {
            assert forall|k: int| 0 <= k < r.len() implies is_space(#[trigger] r[k]) by {
                assert(r[k] == s[k + 1]);
            }
        }
    }
}

/// What is left without trailing white space does not end with any, keeps
/// its first character, and is empty only for a text of nothing but white
/// space.
pub proof fn lemma_trim_end(s: Seq<char>)
    ensures
        trim_end(s).len() > 0 ==> !is_space(trim_end(s).last()) && trim_end(s)[0] == s[0],
        trim_end(s).len() <= s.len(),
        all_space(s) <==> trim_end(s).len() == 0,
    decreases s.len(),
{
    if s.len() > 0 && is_space(s.last()) {
        let r = s.drop_last();
        lemma_trim_end(r);
        if all_space(r) {
            assert forall|k: int| 0 <= k < s.len() implies is_space(#[trigger] s[k]) by {
                if k < r.len() {
                    assert(s[k] == r[k]);
                }
            }
        }
        if all_space(s) {
            assert forall|k: int| 0 <= k < r.len() implies is_space(#[trigger] r[k]) by {
                assert(r[k] == s[k]);
            }
        }
    }
}

/// Whether `c` is white space.
pub fn is_whitespace(c: char) -> (r: bool)
    ensures
        r == is_space(c),
{
    let n: u32 = c as u32;
    (0x09 <= n && n <= 0x0d) || n == 0x20 || n == 0x85 || n == 0xa0 || n == 0x1680 || (0x2000 <= n
        && n <= 0x200a) || n == 0x2028 || n == 0x2029 || n == 0x202f || n == 0x205f || n == 0x3000
}

/// The characters of `s`, one element each.
pub fn chars_of(s: &str) -> (r: Vec<char>)
    ensures
        r@ == s@,
{
    let mut out: Vec<char> = Vec::new();
    for c in it: s.chars()
        invariant
            out@ == it.seq().take(it.index() as int),
            it.seq() == s@,
    {
        out.push(c);
    }
    out
}

/// Appends `c` to `s`.
///
/// Trusted: `String::push` puts the character at the end of the string and
/// leaves the rest as it was.
#[verifier::external_body]
pub(crate) fn push_char(s: &mut String, c: char)
    ensures
        final(s)@ == old(s)@.push(c),
{
    s.push(c)
}

/// The text that `v` holds, as a string.
pub fn string_of(v: &[char]) -> (r: String)
    ensures
        r@ == v@,
{
    let mut out = String::new();
    let mut i: usize = 0;
    while i < v.len()
        invariant
            i <= v.len(),
            out@ == v@.take(i as int),
        decreases v.len() - i,
    {
        push_char(&mut out, v[i]);
        assert(v@.take(i + 1) =~= v@.take(i as int).push(v@[i as int]));
        i += 1;
    }
    assert(v@.take(v.len() as int) =~= v@);
    out
}

/// Whether `a` and `b` hold the same text.
pub fn same_text(a: &[char], b: &[char]) -> (r: bool)
    ensures
        r == (a@ == b@),
{
    if a.len() != b.len() {
        return false;
    }
    let mut i: usize = 0;
    while i < a.len()
        invariant
            a.len() == b.len(),
            i <= a.len(),
            forall|k: int| 0 <= k < i ==> a@[k] == b@[k],
        decreases a.len() - i,
    {
        if a[i] != b[i] {
            return false;
        }
        i += 1;
    }
    assert(a@ =~= b@);
    true
}

/// Appends the characters of `s` to `out`.
pub fn push_all(out: &mut Vec<char>, s: &[char])
    ensures
        final(out)@ == old(out)@ + s@,
{
    let mut i: usize = 0;
    while i < s.len()
        invariant
            i <= s.len(),
            out@ == old(out)@ + s@.take(i as int),
        decreases s.len() - i,
    {
        out.push(s[i]);
        i += 1;
    }
    assert(s@.take(s.len() as int) =~= s@);
}

/// The characters of `s` from position `from` up to, not including, `to`.
pub fn slice_of(s: &[char], from: usize, to: usize) -> (r: Vec<char>)
    requires
        from <= to <= s.len(),
    ensures
        r@ == s@.subrange(from as int, to as int),
{
    let mut out: Vec<char> = Vec::new();
    let mut i: usize = from;
    while i < to
        invariant
            from <= i <= to <= s.len(),
            out@ == s@.subrange(from as int, i as int),
        decreases to - i,
    {
        out.push(s[i]);
        i += 1;
    }
    out
}

/// The bounds of `s` without leading and trailing white space.
pub fn trim_bounds(s: &[char]) -> (r: (usize, usize))
    ensures
        r.0 <= r.1 <= s.len(),
        s@.subrange(r.0 as int, r.1 as int) == trim(s@),
{
    let mut a: usize = 0;
    assert(s@.skip(0) =~= s@);
    while a < s.len() && is_whitespace(s[a])
        invariant
            a <= s.len(),
            trim_start(s@) == trim_start(s@.skip(a as int)),
        decreases s.len() - a,
    {
        assert(s@.skip(a as int).drop_first() =~= s@.skip(a as int + 1));
        a += 1;
    }
    assert(trim_start(s@) == s@.skip(a as int));
    let mut b: usize = s.len();
    while b > a && is_whitespace(s[b - 1])
        invariant
            a <= b <= s.len(),
            trim(s@) == trim_end(s@.subrange(a as int, b as int)),
        decreases b,
    {
        assert(s@.subrange(a as int, b as int).drop_last() =~= s@.subrange(a as int, b as int - 1));
        b -= 1;
    }
    assert(b > a ==> s@.subrange(a as int, b as int).last() == s@[b as int - 1]);
    (a, b)
}

/// The words of `s`: its maximal runs of characters that are not white space.
pub fn split_whitespace(s: &[char]) -> (r: Vec<Vec<char>>)
    ensures
        views(r@) == tokens(s@),
{
    let mut out: Vec<Vec<char>> = Vec::new();
    let mut i: usize = 0;
    assert(s@.skip(0) =~= s@);
    assert(views(out@) =~= Seq::<Seq<char>>::empty());
    while i < s.len()
        invariant
            i <= s.len(),
            tokens(s@) == views(out@) + tokens(s@.skip(i as int)),
        decreases s.len() - i,
    {
        if is_whitespace(s[i]) {
            assert(s@.skip(i as int).drop_first() =~= s@.skip(i as int + 1));
            i += 1;
        } else {
            let start = i;
            while i < s.len() && !is_whitespace(s[i])
                invariant
                    start <= i <= s.len(),
                    forall|k: int| start <= k < i ==> !is_space(s@[k]),
                decreases s.len() - i,
            {
                i += 1;
            }
            let word = slice_of(s, start, i);
            proof {
                let t = s@.skip(start as int);
                let w = i - start;
                assert(t.take(w) =~= word@);
                lemma_tokens_word(t, w);
                assert(t.skip(w) =~= s@.skip(i as int));
                assert(views(out@.push(word)) =~= views(out@) + seq![word@]);
            }
            out.push(word);
        }
    }
    assert(tokens(s@.skip(i as int)) =~= Seq::<Seq<char>>::empty());
    out
}

/// `words` written one after the other with a single space between neighbours.
pub fn join_words(words: &Vec<Vec<char>>) -> (r: Vec<char>)
    ensures
        r@ == join(views(words@)),
{
    let mut out: Vec<char> = Vec::new();
    let mut i: usize = 0;
    while i < words.len()
        invariant
            i <= words.len(),
            out@ == join(views(words@).take(i as int)),
        decreases words.len() - i,
    {
        if i > 0 {
            out.push(' ');
        }
        push_all(&mut out, words[i].as_slice());
        proof {
            let v = views(words@);
            assert(v.take(i as int + 1).drop_last() =~= v.take(i as int));
            assert(v.take(i as int + 1).last() == words@[i as int]@);
            if i == 0 {
                assert(out@ =~= words@[0]@);
            }
        }
        i += 1;
    }
    assert(views(words@).take(words.len() as int) =~= views(words@));
    out
}

} // verus!
