//! Decoding of HTML character references.
//!
//! Four named references (`&lt;`, `&gt;`, `&amp;`, `&quot;`) and the numeric
//! references in decimal (`&#NNN;`) and hexadecimal (`&#xHH;`, `&#XHH;`) are
//! replaced by the character they stand for. An ampersand that starts none of
//! these stays as it is, and what follows it is read again.

use crate::text::{chars_of, string_of};
use vstd::prelude::*;

verus! {

/// Whether `n` is a Unicode scalar value: a code point that is no surrogate.
pub open spec fn is_scalar_value(n: nat) -> bool {
    n <= 0xD7FF || 0xE000 <= n <= 0x10FFFF
}

/// Whether `c` is a digit: `0` to `9`, and with `hex` also `a` to `f` in
/// either case.
pub open spec fn is_digit(c: char, hex: bool) -> bool {
    let n = c as u32;
    (0x30 <= n <= 0x39) || (hex && ((0x61 <= n <= 0x66) || (0x41 <= n <= 0x46)))
}

/// The value of the digit `c`.
pub open spec fn digit_of(c: char) -> nat {
    let n = c as u32;
    if 0x30 <= n <= 0x39 {
        (n - 0x30) as nat
    } else if 0x61 <= n <= 0x66 {
        (n - 0x61 + 10) as nat
    } else {
        (n - 0x41 + 10) as nat
    }
}

/// The number that the digits `d` write, most significant digit first, in base
/// sixteen if `hex` and in base ten otherwise.
pub open spec fn digits_value(d: Seq<char>, hex: bool) -> nat
    decreases d.len(),
{
    if d.len() == 0 {
        0
    } else if hex {
        16 * digits_value(d.drop_last(), hex) + digit_of(d.last())
    } else {
        10 * digits_value(d.drop_last(), hex) + digit_of(d.last())
    }
}

/// Whether `d` is one or more digits.
pub open spec fn all_digits(d: Seq<char>, hex: bool) -> bool {
    d.len() > 0 && forall|k: int| 0 <= k < d.len() ==> is_digit(#[trigger] d[k], hex)
}

/// The character that the number `body` names: `body` is one or more digits
/// and nothing else, and their value is a Unicode scalar value.
pub open spec fn scalar_of(body: Seq<char>, hex: bool) -> Option<char> {
    if all_digits(body, hex) && is_scalar_value(digits_value(body, hex)) {
        Some(digits_value(body, hex) as char)
    } else {
        None
    }
}

/// Position of the first `c` in `t`, or the length of `t` where there is none.
pub open spec fn find(t: Seq<char>, c: char) -> nat
    decreases t.len(),
{
    if t.len() == 0 || t[0] == c {
        0
    } else {
        1 + find(t.drop_first(), c)
    }
}

/// The numeric reference at the start of `t`, whose digits begin after `skip`
/// characters and end before the first semicolon of `t`.
pub open spec fn numeric_reference(t: Seq<char>, skip: nat, hex: bool) -> Option<(char, nat)> {
    let end = find(t, ';');
    if skip <= end < t.len() {
        match scalar_of(t.subrange(skip as int, end as int), hex) {
            Some(c) => Some((c, end + 1)),
            None => None,
        }
    } else {
        None
    }
}

/// The character reference at the start of `t`: the character it stands for
/// and the number of characters it takes up, or `None` where `t` starts with
/// no reference.
pub open spec fn reference(t: Seq<char>) -> Option<(char, nat)> {
    if seq!['&', 'l', 't', ';'].is_prefix_of(t) {
        Some(('<', 4))
    } else if seq!['&', 'g', 't', ';'].is_prefix_of(t) {
        Some(('>', 4))
    } else if seq!['&', 'a', 'm', 'p', ';'].is_prefix_of(t) {
        Some(('&', 5))
    } else if seq!['&', 'q', 'u', 'o', 't', ';'].is_prefix_of(t) {
        Some(('"', 6))
    } else if seq!['&', '#', 'x'].is_prefix_of(t) || seq!['&', '#', 'X'].is_prefix_of(t) {
        numeric_reference(t, 3, true)
    } else if seq!['&', '#'].is_prefix_of(t) {
        numeric_reference(t, 2, false)
    } else {
        None
    }
}

/// `t` with each character reference replaced by its character, read from
/// left to right.
pub open spec fn decode(t: Seq<char>) -> Seq<char>
    decreases t.len(),
    via decode_decreases
{
    if t.len() == 0 {
        Seq::empty()
    } else {
        match reference(t) {
            Some((c, n)) => seq![c] + decode(t.skip(n as int)),
            None => seq![t[0]] + decode(t.skip(1)),
        }
    }
}

#[via_fn]
proof fn decode_decreases(t: Seq<char>) {
    lemma_reference_bounds(t);
}

/// A reference takes up at least two characters of the text, and no more
/// than the text has; it starts with an ampersand.
pub proof fn lemma_reference_bounds(t: Seq<char>)
    ensures
        reference(t) matches Some((c, n)) ==> 2 <= n <= t.len() && t[0] == '&',
{
    if reference(t) is Some {
        assert(t.len() >= 2);
        assert(t.subrange(0, 2)[0] == t[0]);
        assert(t.len() >= 3 ==> t.subrange(0, 3)[0] == t[0]);
        assert(t.len() >= 4 ==> t.subrange(0, 4)[0] == t[0]);
        assert(t.len() >= 5 ==> t.subrange(0, 5)[0] == t[0]);
        assert(t.len() >= 6 ==> t.subrange(0, 6)[0] == t[0]);
    }
}

/// A position before which no `c` stands, and which holds `c` or is the end,
/// is what `find` gives.
pub proof fn lemma_find_is(t: Seq<char>, c: char, j: int)
    requires
        0 <= j <= t.len(),
        forall|k: int| 0 <= k < j ==> t[k] != c,
        j < t.len() ==> t[j] == c,
    ensures
        find(t, c) == j,
    decreases j,
{
    if j == 0 {
    } else {
        let r = t.drop_first();
        assert forall|k: int| 0 <= k < j - 1 implies r[k] != c by {
            assert(r[k] == t[k + 1]);
        }
        lemma_find_is(r, c, j - 1);
    }
}

/// How `c` is written in escaped text: the four characters that markup gives a
/// meaning to become their named references, every other stands for itself.
pub open spec fn escape_char(c: char) -> Seq<char> {
    if c == '<' {
        seq!['&', 'l', 't', ';']
    } else if c == '>' {
        seq!['&', 'g', 't', ';']
    } else if c == '&' {
        seq!['&', 'a', 'm', 'p', ';']
    } else if c == '"' {
        seq!['&', 'q', 'u', 'o', 't', ';']
    } else {
        seq![c]
    }
}

/// `s` with each of its characters escaped.
pub open spec fn escape(s: Seq<char>) -> Seq<char>
    decreases s.len(),
{
    if s.len() == 0 {
        Seq::empty()
    } else {
        escape_char(s[0]) + escape(s.drop_first())
    }
}

/// Whether no character reference starts anywhere in `t`.
pub open spec fn reference_free(t: Seq<char>) -> bool {
    forall|i: int| 0 <= i < t.len() ==> reference(#[trigger] t.skip(i)) is None
}

/// Decoding undoes escaping: whatever characters `s` holds, decoding its
/// escaped form gives `s` back.
pub proof fn lemma_decode_escape(s: Seq<char>)
    ensures
        decode(escape(s)) == s,
    decreases s.len(),
{
    if s.len() == 0 {
    } else {
        let c = s[0];
        let rest = escape(s.drop_first());
        let t = escape_char(c) + rest;
        lemma_decode_escape(s.drop_first());
        lemma_reference_bounds(t);
        if c == '<' || c == '>' {
            assert(t.subrange(0, 4) =~= escape_char(c));
            assert(t.skip(4) =~= rest);
        } else if c == '&' {
            assert(t.subrange(0, 4)[1] == 'a');
            assert(t.subrange(0, 5) =~= escape_char(c));
            assert(t.skip(5) =~= rest);
        } else if c == '"' {
            assert(t.subrange(0, 4)[1] == 'q');
            assert(t.subrange(0, 5)[1] == 'q');
            assert(t.subrange(0, 6) =~= escape_char(c));
            assert(t.skip(6) =~= rest);
        } else {
            assert(t[0] == c);
            assert(t.skip(1) =~= rest);
        }
        assert(decode(t) =~= seq![c] + s.drop_first());
        assert(seq![c] + s.drop_first() =~= s);
    }
}

/// Decoding never lengthens a text, and shortens every text in which a
/// reference starts.
pub proof fn lemma_decode_len(t: Seq<char>)
    ensures
        decode(t).len() <= t.len(),
        !reference_free(t) ==> decode(t).len() < t.len(),
    decreases t.len(),
{
    if t.len() == 0 {
    } else {
        lemma_reference_bounds(t);
        match reference(t) {
            Some((c, n)) => {
                lemma_decode_len(t.skip(n as int));
            },
            None => {
                let r = t.skip(1);
                lemma_decode_len(r);
                if !reference_free(t) {
                    let i = choose|i: int| 0 <= i < t.len() && reference(#[trigger] t.skip(i)) is Some;
                    assert(t.skip(0) =~= t);
                    assert(r.skip(i - 1) =~= t.skip(i));
                    assert(!reference_free(r));
                }
            },
        }
    }
}

/// Decoding leaves a text as it is exactly when no reference starts in it:
/// already decoded text is not decoded a second time.
pub proof fn lemma_decode_fixed_point(t: Seq<char>)
    ensures
        decode(t) == t <==> reference_free(t),
    decreases t.len(),
{
    lemma_decode_len(t);
    if t.len() == 0 {
        assert(decode(t) =~= t);
    } else if reference_free(t) {
        let r = t.skip(1);
        assert(t.skip(0) =~= t);
        assert(reference(t.skip(0)) is None);
        assert forall|i: int| 0 <= i < r.len() implies reference(#[trigger] r.skip(i)) is None by {
            assert(r.skip(i) =~= t.skip(i + 1));
        }
        lemma_decode_fixed_point(r);
        assert(seq![t[0]] + r =~= t);
    }
}

/// A text without an ampersand is left as it is.
pub proof fn lemma_decode_without_ampersand(t: Seq<char>)
    requires
        forall|k: int| 0 <= k < t.len() ==> t[k] != '&',
    ensures
        decode(t) == t,
{
    assert forall|i: int| 0 <= i < t.len() implies reference(#[trigger] t.skip(i)) is None by {
        lemma_reference_bounds(t.skip(i));
    }
    lemma_decode_fixed_point(t);
}

/// The character with code `n`, where `n` is a Unicode scalar value.
///
/// Trusted: `char::from_u32` returns the character whose code is `n` when `n`
/// is at most `0x10FFFF` and no surrogate (`0xD800` to `0xDFFF`), and `None`
/// otherwise.
#[verifier::external_body]
pub(crate) fn scalar_char(n: u32) -> (r: Option<char>)
    ensures
        r == if is_scalar_value(n as nat) {
            Some(n as char)
        } else {
            None::<char>
        },
{
    char::from_u32(n)
}

/// Whether the characters of `p` stand in `s` from position `i` on.
fn starts_with_at(s: &[char], i: usize, p: &[char]) -> (r: bool)
    requires
        i <= s.len(),
    ensures
        r == p@.is_prefix_of(s@.skip(i as int)),
{
    if s.len() - i < p.len() {
        return false;
    }
    let mut k: usize = 0;
    while k < p.len()
        invariant
            i <= s.len(),
            p.len() <= s.len() - i,
            k <= p.len(),
            forall|j: int| 0 <= j < k ==> p@[j] == s@[i + j],
        decreases p.len() - k,
    {
        if p[k] != s[i + k] {
            assert(s@.skip(i as int).subrange(0, p.len() as int)[k as int] == s@[i + k]);
            return false;
        }
        k += 1;
    }
    assert(p@ =~= s@.skip(i as int).subrange(0, p.len() as int));
    true
}

/// Position of the first `c` in `s` at or after `from`, or the length of `s`.
fn find_from(s: &[char], from: usize, c: char) -> (r: usize)
    requires
        from <= s.len(),
    ensures
        from <= r <= s.len(),
        r - from == find(s@.skip(from as int), c),
{
    let mut j: usize = from;
    while j < s.len() && s[j] != c
        invariant
            from <= j <= s.len(),
            forall|k: int| from <= k < j ==> s@[k] != c,
        decreases s.len() - j,
    {
        j += 1;
    }
    proof {
        lemma_find_is(s@.skip(from as int), c, j - from);
    }
    j
}

/// The value of the digit `c`, or `None` where `c` is no digit.
fn digit_value(c: char, hex: bool) -> (r: Option<u32>)
    ensures
        r matches Some(v) ==> is_digit(c, hex) && v == digit_of(c) && v < 16,
        r is None ==> !is_digit(c, hex),
{
    let n: u32 = c as u32;
    if 0x30 <= n && n <= 0x39 {
        Some(n - 0x30)
    } else if hex && 0x61 <= n && n <= 0x66 {
        Some(n - 0x61 + 10)
    } else if hex && 0x41 <= n && n <= 0x46 {
        Some(n - 0x41 + 10)
    } else {
        None
    }
}

/// The character that the number written in `s` from `from` up to `to` names.
fn parse_scalar(s: &[char], from: usize, to: usize, hex: bool) -> (r: Option<char>)
    requires
        from <= to <= s.len(),
    ensures
        r == scalar_of(s@.subrange(from as int, to as int), hex),
{
    let ghost d = s@.subrange(from as int, to as int);
    let mut i: usize = from;
    if i >= to {
        return None;
    }
    let mut acc: u32 = 0;
    let mut big = false;
    while i < to
        invariant
            from <= i <= to <= s.len(),
            d == s@.subrange(from as int, to as int),
            forall|k: int| 0 <= k < i - from ==> is_digit(#[trigger] d[k], hex),
            !big ==> acc == digits_value(d.take(i - from), hex) && acc <= 0x10FFFF,
            big ==> digits_value(d.take(i - from), hex) > 0x10FFFF,
        decreases to - i,
    {
        let ghost prefix = d.take(i - from + 1);
        assert(prefix.drop_last() =~= d.take(i - from));
        assert(prefix.last() == s@[i as int]);
        match digit_value(s[i], hex) {
            None => {
                assert(!is_digit(d[i - from], hex));
                return None;
            },
            Some(v) => {
                if !big {
                    let next: u32 = if hex {
                        16 * acc + v
                    } else {
                        10 * acc + v
                    };
                    if next > 0x10FFFF {
                        big = true;
                    } else {
                        acc = next;
                    }
                }
            },
        }
        i += 1;
    }
    assert(d.take(to - from) =~= d);
    if big {
        None
    } else {
        scalar_char(acc)
    }
}

/// The character reference that starts at position `i` of `s`.
fn reference_at(s: &[char], i: usize) -> (r: Option<(char, usize)>)
    requires
        i < s.len(),
    ensures
        match r {
            Some((c, n)) => reference(s@.skip(i as int)) == Some((c, n as nat)),
            None => reference(s@.skip(i as int)) is None,
        },
{
    let ghost t = s@.skip(i as int);
    proof {
        lemma_reference_bounds(t);
    }
    if s[i] != '&' {
        return None;
    }
    let lt = ['&', 'l', 't', ';'];
    let gt = ['&', 'g', 't', ';'];
    let amp = ['&', 'a', 'm', 'p', ';'];
    let quot = ['&', 'q', 'u', 'o', 't', ';'];
    let lower = ['&', '#', 'x'];
    let upper = ['&', '#', 'X'];
    let number = ['&', '#'];
    assert(lt@ =~= seq!['&', 'l', 't', ';']);
    assert(gt@ =~= seq!['&', 'g', 't', ';']);
    assert(amp@ =~= seq!['&', 'a', 'm', 'p', ';']);
    assert(quot@ =~= seq!['&', 'q', 'u', 'o', 't', ';']);
    assert(lower@ =~= seq!['&', '#', 'x']);
    assert(upper@ =~= seq!['&', '#', 'X']);
    assert(number@ =~= seq!['&', '#']);
    if starts_with_at(s, i, lt.as_slice()) {
        Some(('<', 4))
    } else if starts_with_at(s, i, gt.as_slice()) {
        Some(('>', 4))
    } else if starts_with_at(s, i, amp.as_slice()) {
        Some(('&', 5))
    } else if starts_with_at(s, i, quot.as_slice()) {
        Some(('"', 6))
    } else if starts_with_at(s, i, lower.as_slice()) || starts_with_at(s, i, upper.as_slice()) {
        numeric_at(s, i, 3, true)
    } else if starts_with_at(s, i, number.as_slice()) {
        numeric_at(s, i, 2, false)
    } else {
        None
    }
}

/// The numeric reference at position `i` of `s`, whose digits begin `skip`
/// characters later.
fn numeric_at(s: &[char], i: usize, skip: usize, hex: bool) -> (r: Option<(char, usize)>)
    requires
        i <= s.len(),
        skip <= s.len() - i,
    ensures
        match r {
            Some((c, n)) => numeric_reference(s@.skip(i as int), skip as nat, hex) == Some(
                (c, n as nat),
            ),
            None => numeric_reference(s@.skip(i as int), skip as nat, hex) is None,
        },
{
    let end = find_from(s, i, ';');
    if end < s.len() && end - i >= skip {
        assert(s@.skip(i as int).subrange(skip as int, end - i) =~= s@.subrange(
            i + skip,
            end as int,
        ));
        match parse_scalar(s, i + skip, end, hex) {
            Some(c) => Some((c, end - i + 1)),
            None => None,
        }
    } else {
        None
    }
}

/// `s` with each character reference replaced by its character.
pub fn unescape_chars(s: &[char]) -> (r: Vec<char>)
    ensures
        r@ == decode(s@),
{
    let mut out: Vec<char> = Vec::new();
    let mut i: usize = 0;
    assert(s@.skip(0) =~= s@);
    while i < s.len()
        invariant
            i <= s.len(),
            decode(s@) == out@ + decode(s@.skip(i as int)),
        decreases s.len() - i,
    {
        let ghost t = s@.skip(i as int);
        proof {
            lemma_reference_bounds(t);
        }
        match reference_at(s, i) {
            Some((c, n)) => {
                assert(t.skip(n as int) =~= s@.skip(i + n));
                assert(out@.push(c) + decode(s@.skip(i + n)) =~= out@ + (seq![c] + decode(
                    t.skip(n as int),
                )));
                out.push(c);
                i += n;
            },
            None => {
                assert(t.skip(1) =~= s@.skip(i + 1));
                assert(out@.push(s@[i as int]) + decode(s@.skip(i + 1)) =~= out@ + (seq![t[0]]
                    + decode(t.skip(1))));
                out.push(s[i]);
                i += 1;
            },
        }
    }
    assert(decode(s@.skip(i as int)) =~= Seq::<char>::empty());
    out
}

/// `s` with each character reference replaced by its character.
///
/// Decoding never fails: an ampersand that starts no reference, or one whose
/// number lacks its semicolon, holds anything but digits or names no
/// character, is kept, and the text after it is read as if the ampersand had
/// not been there.
pub fn html_unescape(s: &str) -> (r: String)
    ensures
        r@ == decode(s@),
{
    let chars = chars_of(s);
    let out = unescape_chars(chars.as_slice());
    string_of(out.as_slice())
}

} // verus!
