//! Shannon entropy of the character distribution of a string, computed in
//! fixed-point binary: logarithms carry 16 fractional bits (scale 65536),
//! and the reported entropy is in millibits.

use vstd::prelude::*;
use vstd::arithmetic::power2::*;
use vstd::arithmetic::mul::*;
use vstd::arithmetic::div_mod::*;
use crate::text::chars_of;

verus! {

/// The integer part of the base-two logarithm.
pub open spec fn floor_lg(n: int) -> int
    decreases n,
{
    if n < 2 {
        0
    } else {
        1 + floor_lg(n / 2)
    }
}

/// `n` normalized into `[2^31, 2^32)` by a power-of-two shift.
pub open spec fn norm31(n: int) -> int {
    let ip = floor_lg(n);
    if ip <= 31 {
        n * pow2((31 - ip) as nat)
    } else {
        n / pow2((ip - 31) as nat) as int
    }
}

/// `k` fractional bits of the base-two logarithm of `v / 2^31`, obtained by
/// repeated squaring with truncation.
pub open spec fn frac_bits(v: int, k: nat) -> int
    decreases k,
{
    if k == 0 {
        0
    } else {
        let w = v * v / 0x80000000;
        if w >= 0x100000000 {
            pow2((k - 1) as nat) as int + frac_bits(w / 2, (k - 1) as nat)
        } else {
            frac_bits(w, (k - 1) as nat)
        }
    }
}

/// The library's fixed-point base-two logarithm: 65536 times `log2(n)`,
/// with 16 fractional bits kept.
pub open spec fn lg_fixed_spec(n: int) -> int {
    floor_lg(n) * 65536 + frac_bits(norm31(n), 16)
}

pub proof fn lemma_floor_lg_bounds(n: int)
    requires
        n >= 1,
    ensures
        0 <= floor_lg(n),
        pow2(floor_lg(n) as nat) <= n < pow2((floor_lg(n) + 1) as nat),
    decreases n,
{
    if n < 2 {
        lemma2_to64();
    } else {
        lemma_floor_lg_bounds(n / 2);
        let ip = floor_lg(n / 2);
        lemma_pow2_unfold((ip + 1) as nat);
        lemma_pow2_unfold((ip + 2) as nat);
        assert(pow2((ip + 1) as nat) == 2 * pow2(ip as nat));
        assert(n >= 2 * (n / 2)) by {
            lemma_div_basics(n);
        }
        assert(n / 2 >= pow2(ip as nat));
        assert(n < 2 * pow2((ip + 1) as nat)) by {
            assert(n / 2 < pow2((ip + 1) as nat));
            assert(n < 2 * (n / 2) + 2) by {
                lemma_div_basics(n);
            }
        }
    }
}

pub proof fn lemma_floor_lg_mono(a: int, b: int)
    requires
        1 <= a <= b,
    ensures
        floor_lg(a) <= floor_lg(b),
    decreases b,
{
    if b < 2 {
    } else if a < 2 {
        lemma_floor_lg_bounds(b);
    } else {
        lemma_div_is_ordered(a, b, 2);
        lemma_floor_lg_mono(a / 2, b / 2);
    }
}

pub proof fn lemma_frac_bits_bounds(v: int, k: nat)
    requires
        v >= 0,
    ensures
        0 <= frac_bits(v, k) < pow2(k),
    decreases k,
{
    if k == 0 {
        lemma2_to64();
    } else {
        let w = v * v / 0x80000000;
        assert(v * v >= 0) by (nonlinear_arith);
        lemma_div_pos_is_pos(v * v, 0x80000000);
        if w >= 0x100000000 {
            lemma_frac_bits_bounds(w / 2, (k - 1) as nat);
            lemma_div_pos_is_pos(w, 2);
            lemma_pow2_unfold(k);
        } else {
            lemma_frac_bits_bounds(w, (k - 1) as nat);
            lemma_pow2_strictly_increases((k - 1) as nat, k);
        }
    }
}

pub proof fn lemma_frac_bits_mono(v1: int, v2: int, k: nat)
    requires
        0 <= v1 <= v2,
    ensures
        frac_bits(v1, k) <= frac_bits(v2, k),
    decreases k,
{
    if k > 0 {
        let w1 = v1 * v1 / 0x80000000;
        let w2 = v2 * v2 / 0x80000000;
        assert(v1 * v1 <= v2 * v2) by (nonlinear_arith)
            requires
                0 <= v1 <= v2,
        ;
        assert(v1 * v1 >= 0) by (nonlinear_arith);
        lemma_div_is_ordered(v1 * v1, v2 * v2, 0x80000000);
        lemma_div_pos_is_pos(v1 * v1, 0x80000000);
        if w1 >= 0x100000000 && w2 >= 0x100000000 {
            lemma_div_is_ordered(w1, w2, 2);
            lemma_div_pos_is_pos(w1, 2);
            lemma_frac_bits_mono(w1 / 2, w2 / 2, (k - 1) as nat);
        } else if w1 < 0x100000000 && w2 < 0x100000000 {
            lemma_frac_bits_mono(w1, w2, (k - 1) as nat);
        } else {
            // w1 below the doubling threshold, w2 above it
            lemma_frac_bits_bounds(w1, (k - 1) as nat);
            lemma_frac_bits_bounds(w2 / 2, (k - 1) as nat);
            lemma_div_pos_is_pos(w2, 2);
        }
    }
}

pub proof fn lemma_floor_lg_u64(n: int)
    requires
        1 <= n < 0x10000000000000000,
    ensures
        0 <= floor_lg(n) <= 63,
{
    lemma_floor_lg_bounds(n);
    lemma2_to64_rest();
    if floor_lg(n) > 64 {
        lemma_pow2_strictly_increases(64, floor_lg(n) as nat);
    }
    if floor_lg(n) >= 64 {
        assert(pow2(64) <= n);
        assert(false);
    }
}

pub proof fn lemma_lg_fixed_nonneg(n: int)
    requires
        n >= 1,
    ensures
        lg_fixed_spec(n) >= 0,
{
    lemma_floor_lg_bounds(n);
    lemma_norm31_bounds(n);
    lemma_frac_bits_bounds(norm31(n), 16);
}

pub proof fn lemma_norm31_bounds(n: int)
    requires
        n >= 1,
    ensures
        pow2(31) <= norm31(n) < pow2(32),
{
    let ip = floor_lg(n);
    lemma_floor_lg_bounds(n);
    if ip <= 31 {
        let d = pow2((31 - ip) as nat);
        lemma_pow2_pos((31 - ip) as nat);
        lemma_pow2_adds(ip as nat, (31 - ip) as nat);
        lemma_pow2_adds((ip + 1) as nat, (31 - ip) as nat);
        assert(pow2(ip as nat) * d <= n * d) by {
            lemma_mul_inequality(pow2(ip as nat) as int, n, d as int);
        }
        assert(n * d < pow2((ip + 1) as nat) * d) by {
            lemma_mul_strict_inequality(n, pow2((ip + 1) as nat) as int, d as int);
        }
        assert(pow2((ip + 1) as nat) * d == pow2(32));
    } else {
        let d = pow2((ip - 31) as nat) as int;
        lemma_pow2_pos((ip - 31) as nat);
        lemma_pow2_adds(31, (ip - 31) as nat);
        lemma_pow2_adds(32, (ip - 31) as nat);
        assert(pow2(31) as int * d <= n) by {
            assert(pow2(ip as nat) as int == pow2(31) as int * d);
        }
        assert(norm31(n) == n / d);
        assert(n / d >= pow2(31)) by {
            lemma_div_is_ordered(pow2(31) as int * d, n, d);
            lemma_div_by_multiple(pow2(31) as int, d);
        }
        assert(n / d < pow2(32)) by {
            assert(n < pow2(32) as int * d);
            lemma_div_by_multiple_is_strongly_ordered(n, pow2(32) as int * d, pow2(32) as int, d);
            lemma_div_by_multiple(pow2(32) as int, d);
        }
    }
}

pub proof fn lemma_lg_fixed_mono(a: int, b: int)
    requires
        1 <= a <= b,
    ensures
        lg_fixed_spec(a) <= lg_fixed_spec(b),
{
    let ipa = floor_lg(a);
    let ipb = floor_lg(b);
    lemma_floor_lg_mono(a, b);
    lemma_floor_lg_bounds(a);
    lemma_floor_lg_bounds(b);
    lemma_norm31_bounds(a);
    lemma_norm31_bounds(b);
    lemma_frac_bits_bounds(norm31(a), 16);
    lemma_frac_bits_bounds(norm31(b), 16);
    if ipa == ipb {
        assert(norm31(a) <= norm31(b)) by {
            if ipa <= 31 {
                lemma_mul_inequality(a, b, pow2((31 - ipa) as nat) as int);
            } else {
                lemma_pow2_pos((ipa - 31) as nat);
                lemma_div_is_ordered(a, b, pow2((ipa - 31) as nat) as int);
            }
        }
        lemma_frac_bits_mono(norm31(a), norm31(b), 16);
    } else {
        assert(ipa < ipb);
        assert(frac_bits(norm31(a), 16) < 65536) by {
            lemma2_to64();
        }
        assert(ipa * 65536 + 65536 <= ipb * 65536) by (nonlinear_arith)
            requires
                ipa < ipb,
        ;
    }
}

pub proof fn lemma_lg_fixed_one()
    ensures
        lg_fixed_spec(1) == 0,
{
    lemma2_to64();
    assert(floor_lg(1) == 0);
    assert(norm31(1) == pow2(31));
    lemma_frac_bits_pow31(16);
}

proof fn lemma_frac_bits_pow31(k: nat)
    ensures
        frac_bits(pow2(31) as int, k) == 0,
    decreases k,
{
    lemma2_to64();
    if k > 0 {
        let v = pow2(31) as int;
        assert(v * v == pow2(62)) by {
            lemma_pow2_adds(31, 31);
        }
        assert(pow2(62) as int / pow2(31) as int == pow2(31)) by {
            lemma_pow2_subtracts(31, 62);
            lemma_pow2_pos(31);
            lemma_div_by_multiple(pow2(31) as int, pow2(31) as int);
        }
        lemma2_to64_rest();
        lemma_frac_bits_pow31((k - 1) as nat);
    }
}

/// `lg_fixed_spec` is exact on powers of two.
pub proof fn lemma_lg_fixed_pow2(k: nat)
    requires
        k < 64,
    ensures
        lg_fixed_spec(pow2(k) as int) == k * 65536,
{
    lemma_floor_lg_pow2(k);
    let n = pow2(k) as int;
    lemma_pow2_pos(k);
    if k <= 31 {
        assert(norm31(n) == pow2(k) * pow2((31 - k) as nat));
        lemma_pow2_adds(k, (31 - k) as nat);
    } else {
        assert(norm31(n) == pow2(k) as int / pow2((k - 31) as nat) as int);
        lemma_pow2_subtracts((k - 31) as nat, k);
        lemma_pow2_pos((k - 31) as nat);
        lemma_div_by_multiple(pow2(31) as int, pow2((k - 31) as nat) as int);
        lemma_pow2_adds(31, (k - 31) as nat);
    }
    lemma_frac_bits_pow31(16);
}

proof fn lemma_floor_lg_pow2(k: nat)
    ensures
        floor_lg(pow2(k) as int) == k,
    decreases k,
{
    if k == 0 {
        lemma2_to64();
    } else {
        lemma_floor_lg_pow2((k - 1) as nat);
        lemma_pow2_unfold(k);
        lemma_pow2_pos((k - 1) as nat);
        lemma_pow2_strictly_increases(0, k);
        assert(pow2(k) as int / 2 == pow2((k - 1) as nat)) by {
            lemma_div_by_multiple(pow2((k - 1) as nat) as int, 2);
        }
    }
}

/// 65536 times the base-two logarithm of `n`, truncated to 16 fractional
/// bits.
pub fn lg_fixed(n: u64) -> (r: u64)
    requires
        n >= 1,
    ensures
        r == lg_fixed_spec(n as int),
        r < 0x400000,
{
    proof {
        lemma_floor_lg_bounds(n as int);
        lemma_norm31_bounds(n as int);
        lemma_frac_bits_bounds(norm31(n as int), 16);
        lemma2_to64();
        lemma2_to64_rest();
    }
    proof {
        lemma_floor_lg_u64(n as int);
    }
    let ghost ip_spec = floor_lg(n as int);
    // integer part
    let mut m: u64 = n;
    let mut ip: u64 = 0;
    while m >= 2
        invariant
            m >= 1,
            floor_lg(n as int) == ip + floor_lg(m as int),
            0 <= floor_lg(n as int) <= 63,
            ip <= 63,
        decreases m,
    {
        proof {
            lemma_floor_lg_bounds(m as int / 2);
        }
        m = m / 2;
        ip = ip + 1;
    }
    assert(ip == ip_spec);
    // normalize into [2^31, 2^32)
    let mut v: u64 = n;
    if ip <= 31 {
        proof {
            lemma2_to64();
            lemma_mul_basics(n as int);
            lemma_pow2_strictly_increases(ip as nat, (ip + 1) as nat);
        }
        let mut c: u64 = ip;
        while c < 31
            invariant
                n >= 1,
                ip == floor_lg(n as int),
                ip <= c <= 31,
                v == n as int * pow2((c - ip) as nat),
                v < pow2((c + 1) as nat),
            decreases 31 - c,
        {
            proof {
                lemma_pow2_unfold((c + 1 - ip) as nat);
                lemma_pow2_unfold((c + 2) as nat);
                lemma2_to64();
                assert(n as int * (pow2((c - ip) as nat) * 2) == (n as int * pow2(
                    (c - ip) as nat,
                )) * 2) by (nonlinear_arith);
                assert(v * 2 < pow2((c + 1) as nat) * 2);
            }
            v = v * 2;
            c = c + 1;
        }
    } else {
        proof {
            lemma2_to64();
            lemma_div_basics(n as int);
        }
        let mut c: u64 = ip;
        while c > 31
            invariant
                n >= 1,
                ip == floor_lg(n as int),
                ip <= 63,
                31 <= c <= ip,
                v == n as int / pow2((ip - c) as nat) as int,
            decreases c,
        {
            proof {
                lemma_pow2_pos((ip - c) as nat);
                lemma_pow2_unfold((ip - c + 1) as nat);
                lemma_div_denominator(n as int, pow2((ip - c) as nat) as int, 2);
                assert(pow2((ip - c) as nat) * 2 == 2 * pow2((ip - c) as nat))
                    by (nonlinear_arith);
            }
            v = v / 2;
            c = c - 1;
        }
    }
    assert(v == norm31(n as int));
    // fractional bits by repeated squaring
    let ghost v0 = v as int;
    let mut vv: u128 = v as u128;
    let mut frac: u64 = 0;
    let mut j: u64 = 0;
    while j < 16
        invariant
            j <= 16,
            pow2(31) <= vv < pow2(32),
            frac < pow2(j as nat),
            frac_bits(v0, 16) == frac * pow2((16 - j) as nat) + frac_bits(
                vv as int,
                (16 - j) as nat,
            ),
        decreases 16 - j,
    {
        proof {
            lemma2_to64();
            lemma2_to64_rest();
            assert(vv as int * vv as int >= pow2(31) * pow2(31)) by (nonlinear_arith)
                requires
                    pow2(31) <= vv,
            ;
            assert((vv as int * vv as int) < pow2(32) * pow2(32)) by (nonlinear_arith)
                requires
                    0 <= vv < pow2(32),
            ;
            lemma_pow2_adds(31, 31);
            lemma_pow2_adds(32, 32);
            lemma_div_is_ordered(pow2(62) as int, vv as int * vv as int, pow2(31) as int);
            lemma_pow2_subtracts(31, 62);
            assert((vv as int * vv as int) / (pow2(31) as int) < pow2(33)) by {
                lemma_div_by_multiple_is_strongly_ordered(
                    vv as int * vv as int,
                    pow2(64) as int,
                    pow2(33) as int,
                    pow2(31) as int,
                );
                lemma_pow2_adds(33, 31);
                lemma_div_by_multiple(pow2(33) as int, pow2(31) as int);
            }
        }
        let w: u128 = (vv * vv) / 0x80000000;
        let ghost krem = (16 - j) as nat;
        proof {
            lemma_pow2_unfold((16 - j) as nat);
            lemma2_to64();
        }
        if w >= 0x100000000 {
            proof {
                lemma_div_pos_is_pos(w as int, 2);
                assert((frac * 2 + 1) * pow2((15 - j) as nat) == frac * pow2((16 - j) as nat)
                    + pow2((15 - j) as nat)) by (nonlinear_arith)
                    requires
                        pow2((16 - j) as nat) == 2 * pow2((15 - j) as nat),
                ;
            }
            vv = w / 2;
            frac = frac * 2 + 1;
        } else {
            proof {
                assert((frac * 2) * pow2((15 - j) as nat) == frac * pow2((16 - j) as nat))
                    by (nonlinear_arith)
                    requires
                        pow2((16 - j) as nat) == 2 * pow2((15 - j) as nat),
                ;
            }
            vv = w;
            frac = frac * 2;
        }
        proof {
            lemma_pow2_unfold((j + 1) as nat);
        }
        j = j + 1;
    }
    proof {
        lemma2_to64();
        assert(pow2(0) == 1);
        assert((16 - j) as nat == 0nat);
        assert(frac_bits(vv as int, 0) == 0);
        assert(frac * pow2(0) == frac as int) by (nonlinear_arith)
            requires
                pow2(0) == 1,
        ;
        assert(frac_bits(v0, 16) == frac);
        assert(ip * 65536 + frac < 0x400000);
    }
    ip * 65536 + frac
}

/// How often `c` occurs in `s`.
pub open spec fn count_in(s: Seq<char>, c: char) -> int
    decreases s.len(),
{
    if s.len() == 0 {
        0
    } else {
        count_in(s.drop_last(), c) + if s.last() == c {
            1int
        } else {
            0int
        }
    }
}

pub proof fn lemma_count_in_bounds(s: Seq<char>, c: char)
    ensures
        0 <= count_in(s, c) <= s.len(),
    decreases s.len(),
{
    if s.len() > 0 {
        lemma_count_in_bounds(s.drop_last(), c);
    }
}

pub proof fn lemma_count_in_present(s: Seq<char>, k: int)
    requires
        0 <= k < s.len(),
    ensures
        count_in(s, s[k]) >= 1,
    decreases s.len(),
{
    if k == s.len() - 1 {
        lemma_count_in_bounds(s.drop_last(), s[k]);
    } else {
        lemma_count_in_present(s.drop_last(), k);
    }
}

/// The entropy sum at scale `len * 65536`: every position contributes the
/// fixed-point log of the whole length less that of its character's count.
pub open spec fn entropy_sum(s: Seq<char>, i: int) -> int
    decreases i,
{
    if i <= 0 {
        0
    } else {
        entropy_sum(s, i - 1) + (lg_fixed_spec(s.len() as int) - lg_fixed_spec(
            count_in(s, s[i - 1]),
        ))
    }
}

/// Shannon entropy of the character distribution of `s`, in millibits:
/// 1000 times the average over all positions of
/// `log2(len) - log2(count of the character)`, fixed point.
pub open spec fn entropy_millibits(s: Seq<char>) -> int {
    if s.len() == 0 {
        0
    } else {
        entropy_sum(s, s.len() as int) * 1000 / (s.len() as int * 65536)
    }
}

/// The high-entropy verdict used by the encoding-evasion detector: more
/// than 4.5 bits of character entropy over a text longer than 40
/// characters.
pub open spec fn high_entropy_spec(s: Seq<char>) -> bool {
    s.len() > 40 && 2 * entropy_sum(s, s.len() as int) > 9 * 65536 * s.len()
}

pub proof fn lemma_entropy_sum_bounds(s: Seq<char>, i: int)
    requires
        0 <= i <= s.len(),
        1 <= s.len() < 0x10000000000000000,
    ensures
        0 <= entropy_sum(s, i) <= i * 0x400000,
    decreases i,
{
    if i > 0 {
        lemma_entropy_sum_bounds(s, i - 1);
        lemma_count_in_present(s, i - 1);
        lemma_count_in_bounds(s, s[i - 1]);
        lemma_lg_fixed_mono(count_in(s, s[i - 1]), s.len() as int);
        lemma_lg_fixed_nonneg(count_in(s, s[i - 1]));
        lemma_lg_fixed_nonneg(s.len() as int);
        lemma_lg_fixed_below(s.len() as int);
    }
}

proof fn lemma_lg_fixed_below(n: int)
    requires
        1 <= n < 0x10000000000000000,
    ensures
        lg_fixed_spec(n) < 0x400000,
{
    lemma_floor_lg_bounds(n);
    lemma_norm31_bounds(n);
    lemma_frac_bits_bounds(norm31(n), 16);
    lemma2_to64();
    lemma2_to64_rest();
    lemma_floor_lg_u64(n);
    assert(floor_lg(n) * 65536 <= 63 * 65536) by (nonlinear_arith)
        requires
            floor_lg(n) <= 63,
    ;
}

/// The entropy sum of the characters, at scale `len * 65536`.
pub fn entropy_scaled(t: &Vec<char>) -> (h: u128)
    ensures
        h == entropy_sum(t@, t@.len() as int),
{
    let n = t.len();
    if n == 0 {
        return 0;
    }
    let lgn = lg_fixed(n as u64);
    let mut h: u128 = 0;
    let mut i: usize = 0;
    while i < n
        invariant
            n == t@.len(),
            1 <= n,
            i <= n,
            lgn == lg_fixed_spec(n as int),
            lgn < 0x400000,
            h == entropy_sum(t@, i as int),
            h <= i * 0x400000,
        decreases n - i,
    {
        // count occurrences of t[i]
        let mut cnt: u64 = 0;
        let mut k: usize = 0;
        while k < n
            invariant
                n == t@.len(),
                i < n,
                k <= n,
                cnt == count_in(t@.subrange(0, k as int), t@[i as int]),
                cnt <= k,
            decreases n - k,
        {
            proof {
                assert(t@.subrange(0, k + 1 as int).drop_last() =~= t@.subrange(0, k as int));
                lemma_count_in_bounds(t@.subrange(0, k as int), t@[i as int]);
            }
            if t[k] == t[i] {
                cnt = cnt + 1;
            }
            k = k + 1;
        }
        proof {
            assert(t@.subrange(0, n as int) =~= t@);
            lemma_count_in_present(t@, i as int);
            lemma_lg_fixed_mono(count_in(t@, t@[i as int]), n as int);
            lemma_lg_fixed_nonneg(count_in(t@, t@[i as int]));
        }
        let lgc = lg_fixed(cnt);
        proof {
            assert((i + 1) * 0x400000 == i * 0x400000 + 0x400000) by (nonlinear_arith);
            assert(i * 0x400000 <= n as int * 0x400000) by (nonlinear_arith)
                requires
                    0 <= i <= n as int,
            ;
        }
        h = h + ((lgn - lgc) as u128);
        i = i + 1;
    }
    h
}

/// Shannon entropy of the string's characters, in millibits (a string of
/// `2^k` distinct, equally frequent characters has entropy `1000 * k`).
pub fn calculate_entropy(s: &str) -> (r: u64)
    ensures
        r == entropy_millibits(s@),
{
    let t = chars_of(s);
    let n = t.len();
    if n == 0 {
        return 0;
    }
    let h = entropy_scaled(&t);
    proof {
        lemma_entropy_sum_bounds(t@, n as int);
        assert(n as int * 0x400000 * 1000 <= n as int * 0x400000000) by (nonlinear_arith)
            requires
                n as int >= 0,
        ;
        assert(h * 1000 <= n as int * 0x400000 * 1000) by (nonlinear_arith)
            requires
                0 <= h <= n as int * 0x400000,
        ;
        lemma_div_is_ordered(h as int * 1000, n as int * 0x400000000, n as int * 65536);
        lemma_div_denominator(n as int * 0x400000000, n as int, 65536);
        lemma_div_multiples_vanish(0x400000000, n as int);
        assert(n as int * 65536 > 0) by (nonlinear_arith)
            requires
                n as int >= 1,
        ;
        assert((n as int * 0x400000000) / (n as int * 65536) == 0x40000);
    }
    let r: u128 = (h * 1000) / ((n as u128) * 65536);
    r as u64
}

/// Whether the text trips the high-entropy heuristic: entropy above 4.5
/// bits with more than 40 characters.
pub fn high_entropy(t: &Vec<char>) -> (b: bool)
    ensures
        b == high_entropy_spec(t@),
{
    let n = t.len();
    if n <= 40 {
        return false;
    }
    let h = entropy_scaled(t);
    proof {
        lemma_entropy_sum_bounds(t@, n as int);
        assert(n as int * 0x400000 * 2 < 0x100000000000000000000000000000000) by (nonlinear_arith)
            requires
                (n as int) < 0x10000000000000000,
        ;
        assert(h * 2 <= n as int * 0x400000 * 2) by (nonlinear_arith)
            requires
                0 <= h <= n as int * 0x400000,
        ;
        assert(9 * 65536 * (n as int) < 0x100000000000000000000000000000000) by (nonlinear_arith)
            requires
                (n as int) < 0x10000000000000000,
        ;
    }
    2 * h > 9 * 65536 * (n as u128)
}


/// A string of one repeated character has zero entropy.
pub proof fn lemma_entropy_uniform(s: Seq<char>)
    requires
        forall|i: int| 0 <= i < s.len() ==> #[trigger] s[i] == s[0],
    ensures
        entropy_millibits(s) == 0,
{
    if s.len() > 0 {
        lemma_count_uniform(s, s[0], s.len() as int);
        lemma_entropy_sum_uniform(s, s.len() as int);
        assert(entropy_sum(s, s.len() as int) == 0);
        assert(0int * 1000 / (s.len() as int * 65536) == 0) by {
            lemma_div_pos_is_pos(0, s.len() as int * 65536);
            lemma_div_nonincreasing(0, s.len() as int * 65536);
            assert(s.len() as int * 65536 > 0) by (nonlinear_arith)
                requires
                    s.len() as int >= 1,
            ;
        }
    }
}

proof fn lemma_count_uniform(s: Seq<char>, c: char, n: int)
    requires
        forall|i: int| 0 <= i < s.len() ==> #[trigger] s[i] == c,
        n == s.len(),
    ensures
        count_in(s, c) == n,
    decreases n,
{
    if n > 0 {
        lemma_count_uniform(s.drop_last(), c, n - 1);
    }
}

proof fn lemma_entropy_sum_uniform(s: Seq<char>, i: int)
    requires
        0 <= i <= s.len(),
        s.len() >= 1,
        forall|j: int| 0 <= j < s.len() ==> #[trigger] s[j] == s[0],
    ensures
        entropy_sum(s, i) == 0,
    decreases i,
{
    if i > 0 {
        lemma_entropy_sum_uniform(s, i - 1);
        lemma_count_uniform(s, s[0], s.len() as int);
        assert(count_in(s, s[i - 1]) == s.len());
    }
}

proof fn lemma_count_distinct(s: Seq<char>, k: int)
    requires
        0 <= k < s.len(),
        forall|i: int, j: int| 0 <= i < j < s.len() ==> #[trigger] s[i] != #[trigger] s[j],
    ensures
        count_in(s, s[k]) == 1,
    decreases s.len(),
{
    lemma_count_in_present(s, k);
    if k == s.len() - 1 {
        lemma_count_absent(s.drop_last(), s[k]);
    } else {
        lemma_count_distinct(s.drop_last(), k);
        assert(s.last() != s[k]);
    }
}

proof fn lemma_count_absent(s: Seq<char>, c: char)
    requires
        forall|i: int| 0 <= i < s.len() ==> #[trigger] s[i] != c,
    ensures
        count_in(s, c) == 0,
    decreases s.len(),
{
    if s.len() > 0 {
        lemma_count_absent(s.drop_last(), c);
    }
}

proof fn lemma_entropy_sum_distinct(s: Seq<char>, i: int)
    requires
        0 <= i <= s.len(),
        s.len() >= 1,
        forall|x: int, y: int| 0 <= x < y < s.len() ==> #[trigger] s[x] != #[trigger] s[y],
    ensures
        entropy_sum(s, i) == i * lg_fixed_spec(s.len() as int),
    decreases i,
{
    let n = s.len() as int;
    if i == 0 {
        assert(0int * lg_fixed_spec(n) == 0) by (nonlinear_arith);
    } else {
        lemma_entropy_sum_distinct(s, i - 1);
        lemma_count_distinct(s, i - 1);
        lemma_lg_fixed_one();
        assert(count_in(s, s[i - 1]) == 1);
        assert(lg_fixed_spec(count_in(s, s[i - 1])) == 0);
        assert(entropy_sum(s, i) == entropy_sum(s, i - 1) + lg_fixed_spec(n));
        assert(i * lg_fixed_spec(n) == (i - 1) * lg_fixed_spec(n) + lg_fixed_spec(n))
            by (nonlinear_arith);
    }
}

/// A string of `2^k` pairwise distinct (hence equally frequent)
/// characters has entropy of exactly `k` bits, reported as `1000 * k`
/// millibits.
pub proof fn lemma_entropy_distinct_pow2(s: Seq<char>, k: nat)
    requires
        s.len() == pow2(k),
        k < 64,
        forall|x: int, y: int| 0 <= x < y < s.len() ==> #[trigger] s[x] != #[trigger] s[y],
    ensures
        entropy_millibits(s) == 1000 * k,
    decreases s.len(),
{
    lemma_pow2_pos(k);
    let n = s.len() as int;
    lemma_entropy_sum_distinct(s, n);
    lemma_lg_fixed_pow2(k);
    assert(entropy_sum(s, n) == n * (k * 65536));
    assert(n * (k * 65536) * 1000 == (1000 * k) * (n * 65536)) by (nonlinear_arith);
    assert((1000 * k) * (n * 65536) / (n * 65536) == 1000 * k) by {
        assert(n * 65536 > 0) by (nonlinear_arith)
            requires
                n >= 1,
        ;
        lemma_div_by_multiple((1000 * k) as int, n * 65536);
    }
}

} // verus!
