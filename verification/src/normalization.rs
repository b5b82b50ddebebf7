//! Text canonicalization that defeats common obfuscation before pattern
//! matching: Unicode compatibility composition, lowercase folding, removal
//! of zero-width characters, leetspeak and Cyrillic look-alike folding,
//! and white-space collapsing.

use vstd::prelude::*;
use unicode_normalization::UnicodeNormalization;
use crate::text::{is_space, is_space_char, chars_of, string_from_chars};

verus! {

/// Every character is in the ASCII range.
pub open spec fn is_ascii_seq(t: Seq<char>) -> bool {
    forall|i: int| 0 <= i < t.len() ==> (#[trigger] t[i] as u32) < 128
}

/// What `unicode_normalization`'s NFKC iterator yields for this input.
pub uninterp spec fn nfkc_of(s: Seq<char>) -> Seq<char>;

/// What `str::to_lowercase` yields for this input.
pub uninterp spec fn lower_of(s: Seq<char>) -> Seq<char>;

/// The ASCII lowercase mapping of one character.
pub open spec fn ascii_lower_char(c: char) -> char {
    if c == 'A' { 'a' } else if c == 'B' { 'b' } else if c == 'C' { 'c' }
    else if c == 'D' { 'd' } else if c == 'E' { 'e' } else if c == 'F' { 'f' }
    else if c == 'G' { 'g' } else if c == 'H' { 'h' } else if c == 'I' { 'i' }
    else if c == 'J' { 'j' } else if c == 'K' { 'k' } else if c == 'L' { 'l' }
    else if c == 'M' { 'm' } else if c == 'N' { 'n' } else if c == 'O' { 'o' }
    else if c == 'P' { 'p' } else if c == 'Q' { 'q' } else if c == 'R' { 'r' }
    else if c == 'S' { 's' } else if c == 'T' { 't' } else if c == 'U' { 'u' }
    else if c == 'V' { 'v' } else if c == 'W' { 'w' } else if c == 'X' { 'x' }
    else if c == 'Y' { 'y' } else if c == 'Z' { 'z' } else { c }
}

/// ASCII lowercase applied to every character.
pub open spec fn ascii_lower_map(t: Seq<char>) -> Seq<char>
    decreases t.len(),
{
    if t.len() == 0 {
        t
    } else {
        ascii_lower_map(t.drop_last()).push(ascii_lower_char(t.last()))
    }
}

/// Zero-width space, non-joiner and joiner.
pub open spec fn is_zero_width(c: char) -> bool {
    c == '\u{200b}' || c == '\u{200c}' || c == '\u{200d}'
}

/// Leetspeak digits folded to letters, then Cyrillic look-alikes folded to
/// their Latin equivalents.
pub open spec fn canon_char(c: char) -> char {
    if c == '0' { 'o' } else if c == '1' { 'i' } else if c == '3' { 'e' }
    else if c == '4' { 'a' } else if c == '5' { 's' } else if c == '7' { 't' }
    else if c == '\u{430}' { 'a' } else if c == '\u{435}' { 'e' }
    else if c == '\u{443}' { 'y' } else if c == '\u{440}' { 'p' }
    else if c == '\u{441}' { 'c' } else { c }
}

/// Zero-width characters removed.
pub open spec fn strip_zero_width(t: Seq<char>) -> Seq<char>
    decreases t.len(),
{
    if t.len() == 0 {
        t
    } else if is_zero_width(t.last()) {
        strip_zero_width(t.drop_last())
    } else {
        strip_zero_width(t.drop_last()).push(t.last())
    }
}

/// `canon_char` applied to every character.
pub open spec fn canon_map(t: Seq<char>) -> Seq<char>
    decreases t.len(),
{
    if t.len() == 0 {
        t
    } else {
        canon_map(t.drop_last()).push(canon_char(t.last()))
    }
}

/// One left-to-right pass that turns every run of white space into a single
/// space and drops leading runs; a trailing single space may remain.
pub open spec fn collapse_acc(t: Seq<char>) -> Seq<char>
    decreases t.len(),
{
    if t.len() == 0 {
        t
    } else {
        let p = collapse_acc(t.drop_last());
        if is_space(t.last()) {
            if p.len() > 0 && p.last() != ' ' {
                p.push(' ')
            } else {
                p
            }
        } else {
            p.push(t.last())
        }
    }
}

/// Runs of white space collapsed to single spaces, with both ends trimmed:
/// what `split_whitespace` joined by one space produces.
pub open spec fn collapse_ws(t: Seq<char>) -> Seq<char> {
    let a = collapse_acc(t);
    if a.len() > 0 && a.last() == ' ' {
        a.drop_last()
    } else {
        a
    }
}

/// The verified tail of the normalizer, applied after composition and
/// lowercase folding.
pub open spec fn norm_tail(t: Seq<char>) -> Seq<char> {
    collapse_ws(canon_map(strip_zero_width(t)))
}

/// The whole normalization pipeline. On ASCII input the composition and
/// lowercase stages are fixed to their concrete effect; elsewhere they are
/// the named results of the outside calls.
pub open spec fn norm_spec(s: Seq<char>) -> Seq<char> {
    if is_ascii_seq(s) {
        norm_tail(ascii_lower_map(s))
    } else {
        norm_tail(lower_of(nfkc_of(s)))
    }
}

/// Relies on `unicode_normalization::UnicodeNormalization::nfkc` (an
/// implementation of Unicode normalization form KC): the result is a
/// function of the characters alone, and ASCII text, which has no
/// decompositions and takes part in no compositions, passes through
/// unchanged.
#[verifier::external_body]
fn nfkc_string(s: &str) -> (r: String)
    ensures
        r@ == nfkc_of(s@),
        is_ascii_seq(s@) ==> r@ == s@,
{
    s.nfkc().collect::<String>()
}

/// Relies on std's `str::to_lowercase`: the result is the Unicode lowercase
/// mapping of the input, a function of the characters alone; on ASCII text
/// that mapping takes `'A'..='Z'` to `'a'..='z'` and moves nothing else.
#[verifier::external_body]
fn lowercase_string(s: &str) -> (r: String)
    ensures
        r@ == lower_of(s@),
        is_ascii_seq(s@) ==> r@ == ascii_lower_map(s@),
{
    s.to_lowercase()
}

/// Canonical lowercase form of arbitrary text with obfuscation reduced:
/// NFKC composition, lowercase folding, zero-width removal, leetspeak and
/// Cyrillic look-alike folding, and white-space collapsing, in that order.
pub fn normalize_input(input: &str) -> (r: String)
    ensures
        r@ == norm_spec(input@),
{
    let s1 = nfkc_string(input);
    let s2 = lowercase_string(s1.as_str());
    let t = chars_of(s2.as_str());
    // remove zero-width characters
    let mut u: Vec<char> = Vec::new();
    let mut i: usize = 0;
    while i < t.len()
        invariant
            i <= t@.len(),
            u@ == strip_zero_width(t@.subrange(0, i as int)),
        decreases t@.len() - i,
    {
        let c = t[i];
        proof {
            assert(t@.subrange(0, i + 1 as int).drop_last() =~= t@.subrange(0, i as int));
        }
        if !(c == '\u{200b}' || c == '\u{200c}' || c == '\u{200d}') {
            u.push(c);
        }
        i = i + 1;
    }
    proof {
        assert(t@.subrange(0, t@.len() as int) =~= t@);
    }
    // fold leetspeak digits and Cyrillic look-alikes
    let mut w: Vec<char> = Vec::new();
    let mut j: usize = 0;
    while j < u.len()
        invariant
            j <= u@.len(),
            w@ == canon_map(u@.subrange(0, j as int)),
        decreases u@.len() - j,
    {
        let c = u[j];
        proof {
            assert(u@.subrange(0, j + 1 as int).drop_last() =~= u@.subrange(0, j as int));
        }
        let d = if c == '0' { 'o' } else if c == '1' { 'i' } else if c == '3' { 'e' }
            else if c == '4' { 'a' } else if c == '5' { 's' } else if c == '7' { 't' }
            else if c == '\u{430}' { 'a' } else if c == '\u{435}' { 'e' }
            else if c == '\u{443}' { 'y' } else if c == '\u{440}' { 'p' }
            else if c == '\u{441}' { 'c' } else { c };
        w.push(d);
        j = j + 1;
    }
    proof {
        assert(u@.subrange(0, u@.len() as int) =~= u@);
    }
    // collapse white-space runs to single spaces and trim
    let mut out: Vec<char> = Vec::new();
    let mut k: usize = 0;
    while k < w.len()
        invariant
            k <= w@.len(),
            out@ == collapse_acc(w@.subrange(0, k as int)),
        decreases w@.len() - k,
    {
        let c = w[k];
        proof {
            assert(w@.subrange(0, k + 1 as int).drop_last() =~= w@.subrange(0, k as int));
        }
        if is_space_char(c) {
            if out.len() > 0 && out[out.len() - 1] != ' ' {
                out.push(' ');
            }
        } else {
            out.push(c);
        }
        k = k + 1;
    }
    proof {
        assert(w@.subrange(0, w@.len() as int) =~= w@);
    }
    if out.len() > 0 && out[out.len() - 1] == ' ' {
        out.pop();
    }
    string_from_chars(&out)
}

// ---------------------------------------------------------------------
// idempotence of normalization
// ---------------------------------------------------------------------

/// A character the normalizer's every stage leaves alone.
pub open spec fn settled_char(c: char) -> bool {
    (c as u32) < 128 && ascii_lower_char(c) == c && canon_char(c) == c && !is_zero_width(c) && (
    is_space(c) ==> c == ' ')
}

proof fn lemma_lower_elems(t: Seq<char>)
    ensures
        ascii_lower_map(t).len() == t.len(),
        forall|i: int|
            0 <= i < t.len() ==> #[trigger] ascii_lower_map(t)[i] == ascii_lower_char(t[i]),
    decreases t.len(),
{
    if t.len() > 0 {
        lemma_lower_elems(t.drop_last());
    }
}

proof fn lemma_canon_elems(t: Seq<char>)
    ensures
        canon_map(t).len() == t.len(),
        forall|i: int| 0 <= i < t.len() ==> #[trigger] canon_map(t)[i] == canon_char(t[i]),
    decreases t.len(),
{
    if t.len() > 0 {
        lemma_canon_elems(t.drop_last());
    }
}

proof fn lemma_strip_elems(t: Seq<char>)
    ensures
        forall|i: int|
            0 <= i < strip_zero_width(t).len() ==> exists|j: int|
                0 <= j < t.len() && #[trigger] strip_zero_width(t)[i] == t[j],
        forall|i: int|
            0 <= i < strip_zero_width(t).len() ==> !is_zero_width(
                #[trigger] strip_zero_width(t)[i],
            ),
    decreases t.len(),
{
    if t.len() > 0 {
        lemma_strip_elems(t.drop_last());
        assert(forall|j: int| 0 <= j < t.drop_last().len() ==> t.drop_last()[j] == t[j]);
        if !is_zero_width(t.last()) {
            let r = strip_zero_width(t);
            let p = strip_zero_width(t.drop_last());
            assert(forall|i: int| 0 <= i < p.len() ==> r[i] == p[i]);
            assert(r[r.len() - 1] == t[t.len() - 1]);
        }
    }
}

proof fn lemma_collapse_elems(t: Seq<char>)
    ensures
        forall|i: int|
            0 <= i < collapse_acc(t).len() ==> #[trigger] collapse_acc(t)[i] == ' ' || exists|
                j: int,
            |
                0 <= j < t.len() && !is_space(t[j]) && collapse_acc(t)[i] == t[j],
    decreases t.len(),
{
    if t.len() > 0 {
        lemma_collapse_elems(t.drop_last());
        assert(forall|j: int| 0 <= j < t.drop_last().len() ==> t.drop_last()[j] == t[j]);
        let r = collapse_acc(t);
        let p = collapse_acc(t.drop_last());
        assert(forall|i: int| 0 <= i < p.len() ==> r[i] == p[i]);
    }
}

proof fn lemma_collapse_shape(t: Seq<char>)
    ensures
        ({
            let a = collapse_acc(t);
            (a.len() > 0 ==> a[0] != ' ') && (forall|i: int|
                1 <= i < a.len() ==> !(#[trigger] a[i] == ' ' && a[i - 1] == ' '))
        }),
    decreases t.len(),
{
    if t.len() > 0 {
        lemma_collapse_shape(t.drop_last());
        let a = collapse_acc(t);
        let p = collapse_acc(t.drop_last());
        assert(forall|i: int| 0 <= i < p.len() ==> a[i] == p[i]);
    }
}

/// On text whose white space is already single internal blanks, the
/// collapsing pass does nothing.
proof fn lemma_collapse_identity(y: Seq<char>)
    requires
        y.len() > 0 ==> y[0] != ' ',
        forall|i: int| 1 <= i < y.len() ==> !(#[trigger] y[i] == ' ' && y[i - 1] == ' '),
        forall|i: int| 0 <= i < y.len() ==> (is_space(#[trigger] y[i]) ==> y[i] == ' '),
    ensures
        collapse_acc(y) == y,
    decreases y.len(),
{
    if y.len() > 0 {
        let p = y.drop_last();
        assert(forall|j: int| 0 <= j < p.len() ==> p[j] == y[j]);
        lemma_collapse_identity(p);
        if is_space(y.last()) {
            assert(y.last() == ' ');
            assert(y.len() >= 2);
            assert(p.last() == y[y.len() - 2]);
            assert(y[y.len() - 2] != ' ');
            assert(collapse_acc(y) =~= y);
        } else {
            assert(collapse_acc(y) =~= y);
        }
    }
}

proof fn lemma_strip_identity(t: Seq<char>)
    requires
        forall|i: int| 0 <= i < t.len() ==> !is_zero_width(#[trigger] t[i]),
    ensures
        strip_zero_width(t) == t,
    decreases t.len(),
{
    if t.len() > 0 {
        assert(forall|j: int| 0 <= j < t.drop_last().len() ==> t.drop_last()[j] == t[j]);
        lemma_strip_identity(t.drop_last());
        assert(strip_zero_width(t) =~= t);
    }
}

proof fn lemma_canon_identity(t: Seq<char>)
    requires
        forall|i: int| 0 <= i < t.len() ==> canon_char(#[trigger] t[i]) == t[i],
    ensures
        canon_map(t) == t,
    decreases t.len(),
{
    if t.len() > 0 {
        assert(forall|j: int| 0 <= j < t.drop_last().len() ==> t.drop_last()[j] == t[j]);
        lemma_canon_identity(t.drop_last());
        assert(canon_map(t) =~= t);
    }
}

proof fn lemma_lower_identity(t: Seq<char>)
    requires
        forall|i: int| 0 <= i < t.len() ==> ascii_lower_char(#[trigger] t[i]) == t[i],
    ensures
        ascii_lower_map(t) == t,
    decreases t.len(),
{
    if t.len() > 0 {
        assert(forall|j: int| 0 <= j < t.drop_last().len() ==> t.drop_last()[j] == t[j]);
        lemma_lower_identity(t.drop_last());
        assert(ascii_lower_map(t) =~= t);
    }
}

/// Normalization is idempotent on ASCII input: the normal form of a
/// normal form is itself.
pub proof fn lemma_normalize_idempotent_ascii(s: Seq<char>)
    requires
        is_ascii_seq(s),
    ensures
        norm_spec(norm_spec(s)) == norm_spec(s),
{
    let u = ascii_lower_map(s);
    let v = strip_zero_width(u);
    let w = canon_map(v);
    let a = collapse_acc(w);
    let y = collapse_ws(w);
    assert(norm_spec(s) == y);

    // every character of u is ASCII and fixed under lowercase folding
    lemma_lower_elems(s);
    assert(forall|c: char|
        (c as u32) < 128 ==> ((#[trigger] ascii_lower_char(c) as u32) < 128 && ascii_lower_char(
            ascii_lower_char(c),
        ) == ascii_lower_char(c)));
    assert(forall|i: int|
        0 <= i < u.len() ==> ((#[trigger] u[i] as u32) < 128 && ascii_lower_char(u[i]) == u[i]));

    // stripping keeps those characters and leaves no zero-width ones
    lemma_strip_elems(u);
    assert(forall|i: int|
        0 <= i < v.len() ==> ((#[trigger] v[i] as u32) < 128 && ascii_lower_char(v[i]) == v[i]
            && !is_zero_width(v[i])));

    // folding yields characters every earlier stage leaves alone
    lemma_canon_elems(v);
    assert(forall|c: char|
        ((c as u32) < 128 && ascii_lower_char(c) == c) ==> ((#[trigger] canon_char(c) as u32) < 128
            && ascii_lower_char(canon_char(c)) == canon_char(c) && canon_char(canon_char(c))
            == canon_char(c) && !is_zero_width(canon_char(c)) && (is_space(canon_char(c))
            == is_space(c)) && (is_space(c) ==> canon_char(c) == c)));
    assert(forall|i: int|
        0 <= i < w.len() ==> ((#[trigger] w[i] as u32) < 128 && ascii_lower_char(w[i]) == w[i]
            && canon_char(w[i]) == w[i] && !is_zero_width(w[i])));

    // collapsing yields settled characters in canonical spacing
    lemma_collapse_elems(w);
    lemma_collapse_shape(w);
    assert(settled_char(' '));
    assert(forall|i: int| 0 <= i < a.len() ==> settled_char(#[trigger] a[i]));
    assert(forall|i: int| 0 <= i < y.len() ==> y[i] == a[i]);
    assert(forall|i: int| 0 <= i < y.len() ==> settled_char(#[trigger] y[i]));
    assert(y.len() > 0 ==> y[0] != ' ');
    assert(forall|i: int| 1 <= i < y.len() ==> !(#[trigger] y[i] == ' ' && y[i - 1] == ' '));
    assert(y.len() > 0 ==> y.last() != ' ') by {
        if a.len() > 0 && a.last() == ' ' {
            if y.len() > 0 {
                assert(y.last() == a[a.len() - 2]);
            }
        }
    }

    // the second pass finds nothing to change
    assert(is_ascii_seq(y));
    lemma_lower_identity(y);
    lemma_strip_identity(y);
    lemma_canon_identity(y);
    lemma_collapse_identity(y);
    assert(collapse_acc(y) == y);
    assert(collapse_ws(y) == y);
    assert(norm_spec(y) == y);
}

} // verus!
