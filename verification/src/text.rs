//! Character-level text utilities: whitespace classification, trimming,
//! prefix tests and substring search over sequences of code points.

use vstd::prelude::*;

verus! {

/// The Unicode `White_Space` code points, the set that `str::trim` and
/// `str::split_whitespace` go by.
pub open spec fn is_space(c: char) -> bool {
    c == ' ' || c == '\t' || c == '\n' || c == '\r' || c == '\u{b}' || c == '\u{c}'
        || c == '\u{85}' || c == '\u{a0}' || c == '\u{1680}' || c == '\u{2000}' || c == '\u{2001}'
        || c == '\u{2002}' || c == '\u{2003}' || c == '\u{2004}' || c == '\u{2005}'
        || c == '\u{2006}' || c == '\u{2007}' || c == '\u{2008}' || c == '\u{2009}'
        || c == '\u{200a}' || c == '\u{2028}' || c == '\u{2029}' || c == '\u{202f}'
        || c == '\u{205f}' || c == '\u{3000}'
}

pub fn is_space_char(c: char) -> (b: bool)
    ensures
        b == is_space(c),
{
    c == ' ' || c == '\t' || c == '\n' || c == '\r' || c == '\u{b}' || c == '\u{c}'
        || c == '\u{85}' || c == '\u{a0}' || c == '\u{1680}' || c == '\u{2000}' || c == '\u{2001}'
        || c == '\u{2002}' || c == '\u{2003}' || c == '\u{2004}' || c == '\u{2005}'
        || c == '\u{2006}' || c == '\u{2007}' || c == '\u{2008}' || c == '\u{2009}'
        || c == '\u{200a}' || c == '\u{2028}' || c == '\u{2029}' || c == '\u{202f}'
        || c == '\u{205f}' || c == '\u{3000}'
}

/// Relies on std's `String::push`: appends the given `char` to the end of
/// the string.
pub assume_specification[ String::push ](s: &mut String, c: char)
    ensures
        final(s)@ == old(s)@.push(c),
;

/// The characters of a string, in order.
pub fn chars_of(s: &str) -> (v: Vec<char>)
    ensures
        v@ == s@,
{
    let n = s.unicode_len();
    let mut v: Vec<char> = Vec::new();
    let mut i: usize = 0;
    while i < n
        invariant
            n == s@.len(),
            i <= n,
            v@ == s@.subrange(0, i as int),
        decreases n - i,
    {
        let c = s.get_char(i);
        v.push(c);
        assert(v@ =~= s@.subrange(0, i + 1 as int));
        i = i + 1;
    }
    assert(v@ =~= s@);
    v
}

/// A `String` holding exactly the given characters.
pub fn string_from_chars(v: &Vec<char>) -> (s: String)
    ensures
        s@ == v@,
{
    let mut s = String::new();
    let mut i: usize = 0;
    while i < v.len()
        invariant
            i <= v@.len(),
            s@ == v@.subrange(0, i as int),
        decreases v@.len() - i,
    {
        s.push(v[i]);
        assert(s@ =~= v@.subrange(0, i + 1 as int));
        i = i + 1;
    }
    assert(s@ =~= v@);
    s
}

/// Equality of two string slices, decided character by character.
pub fn str_eq(a: &str, b: &str) -> (r: bool)
    ensures
        r == (a@ == b@),
{
    let na = a.unicode_len();
    let nb = b.unicode_len();
    if na != nb {
        assert(a@ != b@);
        return false;
    }
    let mut i: usize = 0;
    while i < na
        invariant
            na == a@.len(),
            na == b@.len(),
            i <= na,
            forall|j: int| 0 <= j < i ==> a@[j] == b@[j],
        decreases na - i,
    {
        if a.get_char(i) != b.get_char(i) {
            assert(a@[i as int] != b@[i as int]);
            return false;
        }
        i = i + 1;
    }
    assert(a@ =~= b@);
    true
}

/// `p` occurs as a contiguous subsequence of `t`.
pub open spec fn contains_sub(t: Seq<char>, p: Seq<char>) -> bool {
    exists|i: int|
        0 <= i && i + p.len() <= t.len() && #[trigger] t.subrange(i, i + p.len() as int) == p
}

/// `p` stands at the start of `t`.
pub open spec fn is_prefix(t: Seq<char>, p: Seq<char>) -> bool {
    p.len() <= t.len() && t.subrange(0, p.len() as int) == p
}

/// Whether the pattern string stands at the start of the character vector.
pub fn has_prefix(t: &Vec<char>, p: &str) -> (b: bool)
    ensures
        b == is_prefix(t@, p@),
{
    let n = p.unicode_len();
    if n > t.len() {
        return false;
    }
    let mut i: usize = 0;
    while i < n
        invariant
            n == p@.len(),
            n <= t@.len(),
            i <= n,
            forall|j: int| 0 <= j < i ==> t@[j] == p@[j],
        decreases n - i,
    {
        if t[i] != p.get_char(i) {
            assert(t@.subrange(0, n as int)[i as int] != p@[i as int]);
            return false;
        }
        i = i + 1;
    }
    assert(t@.subrange(0, n as int) =~= p@);
    true
}

/// Naive substring search.
pub fn contains_substr(t: &Vec<char>, p: &str) -> (b: bool)
    ensures
        b == contains_sub(t@, p@),
{
    let plen = p.unicode_len();
    let tlen = t.len();
    if plen > tlen {
        assert(!contains_sub(t@, p@));
        return false;
    }
    if plen == 0 {
        assert(t@.subrange(0, 0 + p@.len() as int) =~= p@);
        assert(contains_sub(t@, p@));
        return true;
    }
    let mut i: usize = 0;
    while i <= tlen - plen
        invariant
            plen == p@.len(),
            tlen == t@.len(),
            1 <= plen <= tlen,
            i <= tlen - plen + 1,
            forall|ii: int| 0 <= ii < i ==> #[trigger] t@.subrange(ii, ii + plen as int) != p@,
        decreases tlen - plen + 1 - i,
    {
        let mut j: usize = 0;
        let mut hit = true;
        while j < plen
            invariant
                plen == p@.len(),
                tlen == t@.len(),
                plen <= tlen,
                i <= tlen - plen,
                j <= plen,
                hit ==> forall|k: int| 0 <= k < j ==> t@[i + k] == p@[k],
                !hit ==> t@.subrange(i as int, i + plen as int) != p@,
            decreases plen - j,
        {
            if t[i + j] != p.get_char(j) {
                assert(t@.subrange(i as int, i + plen as int)[j as int] != p@[j as int]);
                hit = false;
                j = plen;
            } else {
                j = j + 1;
            }
        }
        if hit {
            assert(t@.subrange(i as int, i + p@.len() as int) =~= p@);
            assert(contains_sub(t@, p@));
            return true;
        }
        i = i + 1;
    }
    assert(forall|ii: int|
        0 <= ii && ii + p@.len() <= t@.len() ==> #[trigger] t@.subrange(ii, ii + p@.len() as int)
            != p@);
    false
}

/// Drop leading white space.
pub open spec fn trim_start_spec(t: Seq<char>) -> Seq<char>
    decreases t.len(),
{
    if t.len() == 0 {
        t
    } else if is_space(t[0]) {
        trim_start_spec(t.subrange(1, t.len() as int))
    } else {
        t
    }
}

/// Drop trailing white space.
pub open spec fn trim_end_spec(t: Seq<char>) -> Seq<char>
    decreases t.len(),
{
    if t.len() == 0 {
        t
    } else if is_space(t[t.len() - 1]) {
        trim_end_spec(t.drop_last())
    } else {
        t
    }
}

/// White space removed from both ends, as `str::trim` does.
pub open spec fn trim_spec(t: Seq<char>) -> Seq<char> {
    trim_end_spec(trim_start_spec(t))
}

proof fn lemma_trim_start_range(t: Seq<char>, s: int)
    requires
        0 <= s <= t.len(),
        forall|j: int| 0 <= j < s ==> is_space(t[j]),
        s < t.len() ==> !is_space(t[s]),
    ensures
        trim_start_spec(t) == t.subrange(s, t.len() as int),
    decreases s,
{
    if s == 0 {
        if t.len() == 0 {
            assert(t =~= t.subrange(0, t.len() as int));
        } else {
            assert(t =~= t.subrange(0, t.len() as int));
        }
    } else {
        assert(is_space(t[0]));
        let u = t.subrange(1, t.len() as int);
        lemma_trim_start_range(u, s - 1);
        assert(u.subrange(s - 1, u.len() as int) =~= t.subrange(s, t.len() as int));
    }
}

proof fn lemma_trim_end_range(t: Seq<char>, e: int)
    requires
        0 <= e <= t.len(),
        forall|j: int| e <= j < t.len() ==> is_space(t[j]),
        e > 0 ==> !is_space(t[e - 1]),
    ensures
        trim_end_spec(t) == t.subrange(0, e),
    decreases t.len() - e,
{
    if e == t.len() {
        if t.len() == 0 {
            assert(t =~= t.subrange(0, e));
        } else {
            assert(t =~= t.subrange(0, e));
        }
    } else {
        assert(is_space(t[t.len() - 1]));
        let u = t.drop_last();
        lemma_trim_end_range(u, e);
        assert(u.subrange(0, e) =~= t.subrange(0, e));
    }
}

/// White space trimmed from both ends of a character vector.
pub fn trim(t: &Vec<char>) -> (r: Vec<char>)
    ensures
        r@ == trim_spec(t@),
{
    let n = t.len();
    let mut s: usize = 0;
    while s < n && is_space_char(t[s])
        invariant
            n == t@.len(),
            s <= n,
            forall|j: int| 0 <= j < s ==> is_space(t@[j]),
        decreases n - s,
    {
        s = s + 1;
    }
    proof {
        lemma_trim_start_range(t@, s as int);
    }
    let mut e: usize = n;
    while e > s && is_space_char(t[e - 1])
        invariant
            n == t@.len(),
            s <= e <= n,
            forall|j: int| e <= j < n ==> is_space(t@[j]),
        decreases e,
    {
        e = e - 1;
    }
    let ghost mid = t@.subrange(s as int, n as int);
    proof {
        if e == s {
            assert(forall|j: int| 0 <= j < mid.len() ==> is_space(mid[j]));
            lemma_trim_end_range(mid, 0);
        } else {
            assert(!is_space(mid[e - s - 1]));
            lemma_trim_end_range(mid, e - s);
        }
    }
    let mut r: Vec<char> = Vec::new();
    let mut i: usize = s;
    while i < e
        invariant
            n == t@.len(),
            s <= i <= e <= n,
            r@ == t@.subrange(s as int, i as int),
        decreases e - i,
    {
        r.push(t[i]);
        assert(r@ =~= t@.subrange(s as int, i + 1 as int));
        i = i + 1;
    }
    proof {
        assert(mid.subrange(0, e - s) =~= t@.subrange(s as int, e as int));
    }
    r
}

/// The characters of `t` from position `k` on.
pub fn tail_from(t: &Vec<char>, k: usize) -> (r: Vec<char>)
    requires
        k <= t@.len(),
    ensures
        r@ == t@.subrange(k as int, t@.len() as int),
{
    let mut r: Vec<char> = Vec::new();
    let mut i: usize = k;
    while i < t.len()
        invariant
            k <= i <= t@.len(),
            r@ == t@.subrange(k as int, i as int),
        decreases t@.len() - i,
    {
        r.push(t[i]);
        assert(r@ =~= t@.subrange(k as int, i + 1 as int));
        i = i + 1;
    }
    r
}

} // verus!
