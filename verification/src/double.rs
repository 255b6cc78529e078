//! Rounding of decimal fractions to IEEE double precision, in integers.
//!
//! A non-negative rational is a pair `p / q`. A finite double is a multiple of
//! 2^-1074, so the double nearest to `p / q` is given as that multiple.

use vstd::prelude::*;
use vstd::arithmetic::div_mod::lemma_fundamental_div_mod;
use vstd::arithmetic::div_mod::lemma_fundamental_div_mod_converse;

verus! {

/// Two to the `k`.
pub open spec fn p2(k: nat) -> nat
    decreases k,
{
    if k == 0 {
        1
    } else {
        2 * p2((k - 1) as nat)
    }
}

/// Ten to the `k`.
pub open spec fn p10(k: nat) -> nat
    decreases k,
{
    if k == 0 {
        1
    } else {
        10 * p10((k - 1) as nat)
    }
}

/// `p / q` rounded to the nearest integer, a tie to the even one.
pub open spec fn half_even(p: nat, q: nat) -> nat {
    let f = p / q;
    let r = 2 * (p % q);
    if r < q || (r == q && f % 2 == 0) {
        f
    } else {
        f + 1
    }
}

/// Doubles near `p / q` are `2^s` multiples of 2^-1074 apart: either
/// `p / q` needs all 53 bits at that spacing, or the spacing is the least.
pub open spec fn spacing(p: nat, q: nat, s: nat) -> bool {
    &&& p * p2(1074) < q * p2(53 + s)
    &&& s > 0 ==> q * p2(52 + s) <= p * p2(1074)
}

/// The double nearest to `p / q` (ties to even), in units of 2^-1074.
pub open spec fn double_of(p: nat, q: nat) -> nat {
    let s = choose|s: nat| spacing(p, q, s);
    half_even(p * p2(1074), q * p2(s)) * p2(s)
}

/// The double nearest to `p / q`, where that is an integer of at most 2^63.
pub open spec fn integral_double(p: nat, q: nat) -> Option<nat> {
    let d = double_of(p, q);
    if d % p2(1074) == 0 && d / p2(1074) <= 0x8000_0000_0000_0000 {
        Some(d / p2(1074))
    } else {
        None
    }
}

pub proof fn lemma_p2_pos(k: nat)
    ensures
        p2(k) > 0,
    decreases k,
{
    if k > 0 {
        lemma_p2_pos((k - 1) as nat);
    }
}

pub proof fn lemma_p10_pos(k: nat)
    ensures
        p10(k) > 0,
    decreases k,
{
    if k > 0 {
        lemma_p10_pos((k - 1) as nat);
    }
}

pub proof fn lemma_p2_add(a: nat, b: nat)
    ensures
        p2(a + b) == p2(a) * p2(b),
    decreases a,
{
    if a > 0 {
        lemma_p2_add((a - 1) as nat, b);
        assert((a + b - 1) as nat == (a - 1) as nat + b);
        assert(2 * (p2((a - 1) as nat) * p2(b)) == (2 * p2((a - 1) as nat)) * p2(b))
            by (nonlinear_arith);
    } else {
        assert(p2(a) == 1);
        assert(1 * p2(b) == p2(b)) by (nonlinear_arith);
    }
}

pub proof fn lemma_p10_add(a: nat, b: nat)
    ensures
        p10(a + b) == p10(a) * p10(b),
    decreases a,
{
    if a > 0 {
        lemma_p10_add((a - 1) as nat, b);
        assert((a + b - 1) as nat == (a - 1) as nat + b);
        assert(10 * (p10((a - 1) as nat) * p10(b)) == (10 * p10((a - 1) as nat)) * p10(b))
            by (nonlinear_arith);
    } else {
        assert(p10(a) == 1);
        assert(1 * p10(b) == p10(b)) by (nonlinear_arith);
    }
}

pub proof fn lemma_p2_mono(a: nat, b: nat)
    requires
        a <= b,
    ensures
        p2(a) <= p2(b),
{
    lemma_p2_add(a, (b - a) as nat);
    lemma_p2_pos((b - a) as nat);
    lemma_p2_pos(a);
    assert(p2(a) <= p2(a) * p2((b - a) as nat)) by (nonlinear_arith)
        requires
            p2((b - a) as nat) >= 1,
            p2(a) >= 1,
    ;
}

pub proof fn lemma_p10_mono(a: nat, b: nat)
    requires
        a <= b,
    ensures
        p10(a) <= p10(b),
{
    lemma_p10_add(a, (b - a) as nat);
    lemma_p10_pos((b - a) as nat);
    lemma_p10_pos(a);
    assert(p10(a) <= p10(a) * p10((b - a) as nat)) by (nonlinear_arith)
        requires
            p10((b - a) as nat) >= 1,
            p10(a) >= 1,
    ;
}

/// Three decimal places hold at least nine binary ones.
pub proof fn lemma_p10_p2(k: nat)
    ensures
        p2(9 * k) <= p10(3 * k),
    decreases k,
{
    if k > 0 {
        let j = (k - 1) as nat;
        lemma_p10_p2(j);
        lemma_p2_add(9, 9 * j);
        lemma_p10_add(3, 3 * j);
        assert(p2(9) == 512) by {
            reveal_with_fuel(p2, 10);
        }
        assert(p10(3) == 1000) by {
            reveal_with_fuel(p10, 4);
        }
        assert(9 * k == 9 + 9 * j);
        assert(3 * k == 3 + 3 * j);
    }
}

/// The spacing of doubles near a value is unique.
pub proof fn lemma_spacing_unique(p: nat, q: nat, a: nat, b: nat)
    requires
        spacing(p, q, a),
        spacing(p, q, b),
    ensures
        a == b,
{
    if a < b {
        lemma_p2_mono(53 + a, 52 + b);
        assert(q * p2(53 + a) <= q * p2(52 + b)) by (nonlinear_arith)
            requires
                p2(53 + a) <= p2(52 + b),
        ;
    } else if b < a {
        lemma_p2_mono(53 + b, 52 + a);
        assert(q * p2(53 + b) <= q * p2(52 + a)) by (nonlinear_arith)
            requires
                p2(53 + b) <= p2(52 + a),
        ;
    }
}

proof fn lemma_double_of(p: nat, q: nat, s: nat)
    requires
        spacing(p, q, s),
    ensures
        double_of(p, q) == half_even(p * p2(1074), q * p2(s)) * p2(s),
{
    let t = choose|t: nat| spacing(p, q, t);
    lemma_spacing_unique(p, q, s, t);
}

/// Rounding does not see a common factor.
pub proof fn lemma_half_even_scale(p: nat, q: nat, c: nat)
    requires
        q > 0,
        c > 0,
    ensures
        half_even(p * c, q * c) == half_even(p, q),
{
    lemma_fundamental_div_mod(p as int, q as int);
    let f = p / q;
    let r = p % q;
    assert(p * c == f * (q * c) + r * c) by (nonlinear_arith)
        requires
            p == q * f + r,
    ;
    assert(0 <= r * c < q * c) by (nonlinear_arith)
        requires
            0 <= r < q,
            c > 0,
    ;
    lemma_fundamental_div_mod_converse((p * c) as int, (q * c) as int, f as int, (r * c) as int);
    assert(2 * r < q ==> 2 * (r * c) < q * c) by (nonlinear_arith)
        requires
            c > 0,
    ;
    assert(2 * r == q ==> 2 * (r * c) == q * c) by (nonlinear_arith);
    assert(2 * r > q ==> 2 * (r * c) > q * c) by (nonlinear_arith)
        requires
            c > 0,
    ;
}

/// What rounding gives, from a quotient and a remainder.
pub proof fn lemma_half_even_of(p: nat, q: nat, f: nat, r: nat)
    requires
        p == f * q + r,
        r < q,
    ensures
        half_even(p, q) == if 2 * r < q || (2 * r == q && f % 2 == 0) {
            f
        } else {
            f + 1
        },
{
    assert(p == q * f + r) by (nonlinear_arith)
        requires
            p == f * q + r,
    ;
    lemma_fundamental_div_mod_converse(p as int, q as int, f as int, r as int);
}

proof fn lemma_spacing_exists(p: nat, q: nat, hi: nat) -> (s: nat)
    requires
        p * p2(1074) < q * p2(53 + hi),
    ensures
        s <= hi,
        spacing(p, q, s),
    decreases hi,
{
    if hi == 0 || q * p2(52 + hi) <= p * p2(1074) {
        hi
    } else {
        assert(53 + (hi - 1) as nat == 52 + hi);
        lemma_spacing_exists(p, q, (hi - 1) as nat)
    }
}

/// A common factor leaves the quotient alone and scales the remainder.
proof fn lemma_div_mod_scale(m: nat, j: nat, c: nat)
    requires
        j > 0,
        c > 0,
    ensures
        (m * c) / (j * c) == m / j,
        (m * c) % (j * c) == (m % j) * c,
        j * c > 0,
{
    lemma_fundamental_div_mod(m as int, j as int);
    let f = m / j;
    let r = m % j;
    assert(m * c == f * (j * c) + r * c) by (nonlinear_arith)
        requires
            m == j * f + r,
    ;
    assert(0 <= r * c < j * c) by (nonlinear_arith)
        requires
            0 <= r < j,
            c > 0,
    ;
    lemma_fundamental_div_mod_converse((m * c) as int, (j * c) as int, f as int, (r * c) as int);
}

/// A value of `k + 1` whole bits: 52 bits are kept after the leading one.
proof fn lemma_double_whole(p: nat, q: nat, k: nat)
    requires
        q > 0,
        q * p2(k) <= p,
        p < q * p2(k + 1),
    ensures
        double_of(p, q) == half_even(p * p2(52), q * p2(k)) * p2(k + 1022),
{
    let w = p2(1074);
    let c = p2(1022);
    lemma_p2_pos(1074);
    lemma_p2_pos(1022);
    lemma_p2_pos(k);
    lemma_p2_add(k + 1, 1074);
    lemma_p2_add(k, 1074);
    lemma_p2_add(52, 1022);
    lemma_p2_add(k, 1022);
    assert(53 + (k + 1022) == k + 1 + 1074);
    assert(52 + (k + 1022) == k + 1074);
    assert(p * w < q * (p2(k + 1) * w)) by (nonlinear_arith)
        requires
            p < q * p2(k + 1),
            w > 0,
    ;
    assert(q * (p2(k) * w) <= p * w) by (nonlinear_arith)
        requires
            q * p2(k) <= p,
    ;
    assert(spacing(p, q, k + 1022));
    lemma_double_of(p, q, k + 1022);
    assert(p * (p2(52) * c) == (p * p2(52)) * c) by (nonlinear_arith);
    assert(q * (p2(k) * c) == (q * p2(k)) * c) by (nonlinear_arith);
    assert(q * p2(k) > 0) by (nonlinear_arith)
        requires
            q > 0,
            p2(k) > 0,
    ;
    lemma_half_even_scale(p * p2(52), q * p2(k), c);
}

/// From 2^52 on every double is an integer.
proof fn lemma_integral_large(p: nat, q: nat, k: nat)
    requires
        q > 0,
        k >= 52,
        q * p2(k) <= p,
        p < q * p2(k + 1),
    ensures
        integral_double(p, q) == ({
            let n = half_even(p, q * p2((k - 52) as nat)) * p2((k - 52) as nat);
            if n <= 0x8000_0000_0000_0000 {
                Some(n)
            } else {
                None
            }
        }),
{
    let e = (k - 52) as nat;
    let w = p2(1074);
    lemma_double_whole(p, q, k);
    lemma_p2_pos(1074);
    lemma_p2_pos(52);
    lemma_p2_pos(e);
    lemma_p2_add(e, 52);
    lemma_p2_add(e, 1074);
    assert(q * (p2(e) * p2(52)) == (q * p2(e)) * p2(52)) by (nonlinear_arith);
    assert(q * p2(e) > 0) by (nonlinear_arith)
        requires
            q > 0,
            p2(e) > 0,
    ;
    lemma_half_even_scale(p, q * p2(e), p2(52));
    let m = half_even(p, q * p2(e));
    assert(k + 1022 == e + 1074);
    let n = m * p2(e);
    assert(m * (p2(e) * w) == n * w) by (nonlinear_arith)
        requires
            n == m * p2(e),
    ;
    lemma_div_mod_scale(n, 1, w);
    assert(1 * w == w);
    assert(n % 1 == 0);
    assert(n / 1 == n);
    assert(0 * w == 0);
}

/// Below 2^52 the last `52 - k` bits of the double are the fraction.
proof fn lemma_integral_small(p: nat, q: nat, k: nat)
    requires
        q > 0,
        k < 52,
        q * p2(k) <= p,
        p < q * p2(k + 1),
    ensures
        integral_double(p, q) == ({
            let j = p2((52 - k) as nat);
            let m = half_even(p * j, q);
            if m % j == 0 && m / j <= 0x8000_0000_0000_0000 {
                Some(m / j)
            } else {
                None
            }
        }),
{
    let e = (52 - k) as nat;
    let j = p2(e);
    let c = p2(k + 1022);
    lemma_double_whole(p, q, k);
    lemma_p2_pos(e);
    lemma_p2_pos(k);
    lemma_p2_pos(k + 1022);
    lemma_p2_add(e, k);
    lemma_p2_add(e, k + 1022);
    assert(e + (k + 1022) == 1074);
    assert(p * (j * p2(k)) == (p * j) * p2(k)) by (nonlinear_arith);
    lemma_half_even_scale(p * j, q, p2(k));
    let m = half_even(p * j, q);
    lemma_div_mod_scale(m, j, c);
    let r = m % j;
    assert(r * c == 0 <==> r == 0) by (nonlinear_arith)
        requires
            c > 0,
    ;
}

/// Between a half and one.
proof fn lemma_integral_upper_half(p: nat, q: nat)
    requires
        p < q,
        q <= 2 * p,
    ensures
        integral_double(p, q) == ({
            let j = p2(53);
            let m = half_even(p * j, q);
            if m % j == 0 && m / j <= 0x8000_0000_0000_0000 {
                Some(m / j)
            } else {
                None
            }
        }),
{
    let w = p2(1074);
    let j = p2(53);
    let c = p2(1021);
    lemma_p2_pos(1074);
    lemma_p2_pos(53);
    lemma_p2_pos(1021);
    lemma_p2_add(53, 1021);
    assert(w == 2 * p2(1073));
    assert(p * w < q * w) by (nonlinear_arith)
        requires
            p < q,
            w > 0,
    ;
    assert(q * p2(1073) <= p * w) by (nonlinear_arith)
        requires
            q <= 2 * p,
            w == 2 * p2(1073),
    ;
    assert(spacing(p, q, 1021));
    lemma_double_of(p, q, 1021);
    assert(p * (j * c) == (p * j) * c) by (nonlinear_arith);
    lemma_half_even_scale(p * j, q, c);
    let m = half_even(p * j, q);
    lemma_div_mod_scale(m, j, c);
    let r = m % j;
    assert(r * c == 0 <==> r == 0) by (nonlinear_arith)
        requires
            c > 0,
    ;
}

/// Two powers of two next to each other enclose any quotient from 1 on.
proof fn lemma_binade(p: nat, q: nat, lo: nat, hi: nat) -> (k: nat)
    requires
        lo < hi,
        q * p2(lo) <= p < q * p2(hi),
    ensures
        lo <= k < hi,
        q * p2(k) <= p < q * p2(k + 1),
    decreases hi - lo,
{
    if lo + 1 == hi || p < q * p2(lo + 1) {
        lo
    } else {
        lemma_binade(p, q, lo + 1, hi)
    }
}

proof fn lemma_p2_exceeds(n: nat)
    ensures
        p2(n) > n,
    decreases n,
{
    if n > 0 {
        lemma_p2_exceeds((n - 1) as nat);
    }
}

/// From 2^64 on no quotient counts.
pub proof fn lemma_integral_beyond(p: nat, q: nat)
    requires
        q > 0,
        p >= q * p2(64),
    ensures
        integral_double(p, q) is None,
{
    lemma_p2_exceeds(p + 65);
    assert(p < q * p2(p + 65)) by (nonlinear_arith)
        requires
            q > 0,
            p2(p + 65) > p + 65,
    ;
    let k = lemma_binade(p, q, 64, p + 65);
    lemma_integral_large(p, q, k);
    let e = p2((k - 52) as nat);
    lemma_p2_pos((k - 52) as nat);
    lemma_p2_add((k - 52) as nat, 52);
    let half = p2(52);
    let d = q * e;
    assert(d > 0) by (nonlinear_arith)
        requires
            q > 0,
            e > 0,
            d == q * e,
    ;
    assert(p >= half * d) by (nonlinear_arith)
        requires
            p >= q * p2(k),
            p2(k) == e * half,
            d == q * e,
    ;
    lemma_half_even_at_least(p, d, half);
    let n = half_even(p, d);
    assert(n * e >= p2(k)) by (nonlinear_arith)
        requires
            n >= half,
            p2(k) == e * half,
    ;
    lemma_p2_mono(64, k);
    lemma_powers();
}

/// An integer of at most 2^53 is a double.
pub proof fn lemma_integral_exact(n: nat)
    requires
        n <= 0x20_0000_0000_0000,
    ensures
        integral_double(n, 1) == Some(n),
{
    lemma_powers();
    if n == 0 {
        assert(0 * p2(1075) == 0) by (nonlinear_arith);
        lemma_integral_tiny(0, 1);
    } else {
        assert(p2(54) == 2 * p2(53));
        assert(1 * p2(54) == p2(54));
        let k = lemma_binade(n, 1, 0, 54);
        assert(1 * p2(k) == p2(k));
        if k < 52 {
            lemma_exact_small(n, k);
        } else if k == 52 {
            lemma_integral_large(n, 1, 52);
            assert(p2(0) == 1);
            lemma_half_even_of(n, 1, n, 0);
            assert(1 * p2(0) == 1);
            let h = half_even(n, 1 * p2(0));
            assert(h == n);
            assert(h * p2(0) == h) by (nonlinear_arith)
                requires
                    p2(0) == 1,
            ;
        } else {
            lemma_p2_mono(53, k);
            if k > 53 {
                lemma_p2_mono(54, k);
            }
            lemma_integral_large(n, 1, 53);
            assert(p2(1) == 2) by {
                reveal_with_fuel(p2, 2);
            }
            assert(n == 9007199254740992);
            lemma_half_even_of(n, 2, 4503599627370496, 0);
            assert((53 - 52) as nat == 1);
            assert(1 * p2(1) == 2);
            assert(half_even(n, 1 * p2(1)) * p2(1) == n);
        }
    }
}

/// A double has 53 bits at most.
proof fn lemma_double_shape(p: nat, q: nat) -> (r: (nat, nat))
    requires
        q > 0,
    ensures
        r.0 <= p2(53),
        double_of(p, q) == r.0 * p2(r.1),
{
    let x = p * p2(1074);
    lemma_p2_exceeds(53 + x);
    assert(x < q * p2(53 + x)) by (nonlinear_arith)
        requires
            q > 0,
            p2(53 + x) > x,
    ;
    let s = lemma_spacing_exists(p, q, x);
    lemma_double_of(p, q, s);
    let y = q * p2(s);
    lemma_p2_pos(s);
    lemma_p2_add(53, s);
    assert(y > 0) by (nonlinear_arith)
        requires
            q > 0,
            p2(s) > 0,
            y == q * p2(s),
    ;
    let m = half_even(x, y);
    let f = x / y;
    let r = x % y;
    let w = p2(53);
    lemma_fundamental_div_mod(x as int, y as int);
    assert(f < w) by (nonlinear_arith)
        requires
            x == y * f + r,
            x < q * (w * p2(s)),
            y == q * p2(s),
            y > 0,
    ;
    (m, s)
}

/// An integer of 53 bits at most, shifted, is a double.
proof fn lemma_shifted_exact(v: nat, m: nat, j: nat)
    requires
        v == m * p2(j),
        m <= p2(53),
        p2(53) < v <= 0x8000_0000_0000_0000,
    ensures
        integral_double(v, 1) == Some(v),
{
    lemma_powers();
    lemma_p2_mono(0, 53);
    assert(1 * p2(0) <= v < 1 * p2(64));
    let k = lemma_binade(v, 1, 0, 64);
    if k < 53 {
        lemma_p2_mono(k + 1, 53);
    }
    let e = (k - 52) as nat;
    let t: nat;
    lemma_p2_pos(e);
    lemma_p2_pos(j);
    lemma_p2_add(53, j);
    if m < p2(53) {
        assert(v < p2(53) * p2(j)) by (nonlinear_arith)
            requires
                v == m * p2(j),
                m < p2(53),
                p2(j) > 0,
        ;
        if e > j {
            lemma_p2_mono(53 + j, k);
        }
        lemma_p2_add(e, (j - e) as nat);
        t = m * p2((j - e) as nat);
        assert(v == t * p2(e)) by (nonlinear_arith)
            requires
                v == m * (p2(e) * p2((j - e) as nat)),
                t == m * p2((j - e) as nat),
        ;
    } else {
        if k > 53 + j {
            lemma_p2_mono(54 + j, k);
            assert(p2(54 + j) == 2 * p2(53 + j));
        } else if k < 53 + j {
            lemma_p2_mono(k + 1, 53 + j);
        }
        lemma_p2_add(52, e);
        t = p2(52);
        assert(52 + e == 53 + j);
    }
    lemma_integral_large(v, 1, k);
    assert(1 * p2(e) == p2(e));
    lemma_half_even_of(v, p2(e), t, 0);
}

/// An integer that a double denotes is one that a double holds.
pub proof fn lemma_integral_stable(p: nat, q: nat)
    requires
        q > 0,
        integral_double(p, q) is Some,
    ensures
        ({
            let v = integral_double(p, q)->Some_0;
            integral_double(v, 1) == Some(v)
        }),
{
    let w = p2(1074);
    let v = integral_double(p, q)->Some_0;
    let d = double_of(p, q);
    lemma_powers();
    if v <= 0x20_0000_0000_0000 {
        lemma_integral_exact(v);
    } else {
        let (m, s) = lemma_double_shape(p, q);
        lemma_p2_pos(1074);
        lemma_fundamental_div_mod(d as int, w as int);
        assert(d == w * v);
        if s <= 1074 {
            lemma_p2_mono(s, 1074);
            assert(m * p2(s) <= p2(53) * w) by (nonlinear_arith)
                requires
                    m <= p2(53),
                    p2(s) <= w,
            ;
            assert(w * v > p2(53) * w) by (nonlinear_arith)
                requires
                    v > p2(53),
                    w > 0,
            ;
        }
        let j = (s - 1074) as nat;
        lemma_p2_add(j, 1074);
        assert(v == m * p2(j)) by (nonlinear_arith)
            requires
                w * v == m * (p2(j) * w),
                w > 0,
        ;
        lemma_shifted_exact(v, m, j);
    }
}

/// The greatest integer of 63 bits is read as 2^63.
pub proof fn lemma_integral_greatest()
    ensures
        integral_double(0x7fff_ffff_ffff_ffff, 1) == Some(0x8000_0000_0000_0000nat),
{
    lemma_powers();
    let n = 0x7fff_ffff_ffff_ffffnat;
    assert(1 * p2(62) <= n && n < 1 * p2(63));
    lemma_integral_large(n, 1, 62);
    assert((62 - 52) as nat == 10);
    assert(1 * p2(10) == 1024);
    lemma_half_even_of(n, 1024, 0x1f_ffff_ffff_ffff, 1023);
    assert(half_even(n, 1 * p2(10)) * p2(10) == 0x8000_0000_0000_0000);
}

proof fn lemma_exact_small(n: nat, k: nat)
    requires
        k < 52,
        1 * p2(k) <= n < 1 * p2(k + 1),
        p2(53) == 0x20_0000_0000_0000,
    ensures
        integral_double(n, 1) == Some(n),
{
    let j = p2((52 - k) as nat);
    lemma_p2_pos((52 - k) as nat);
    lemma_p2_mono(k + 1, 53);
    lemma_integral_small(n, 1, k);
    let m = n * j;
    assert(half_even(m, 1) == m);
    lemma_div_mod_scale(n, 1, j);
    assert(1 * j == j);
    assert(n % 1 == 0);
    assert(0 * j == 0);
}

proof fn lemma_half_even_at_least(p: nat, d: nat, h: nat)
    requires
        d > 0,
        p >= h * d,
    ensures
        half_even(p, d) >= h,
{
    lemma_fundamental_div_mod(p as int, d as int);
    let f = p / d;
    let r = p % d;
    assert(f >= h) by (nonlinear_arith)
        requires
            p == d * f + r,
            r < d,
            p >= h * d,
    ;
}

/// Below a half only a value that rounds to zero is an integer.
pub proof fn lemma_integral_tiny(p: nat, q: nat)
    requires
        2 * p < q,
    ensures
        integral_double(p, q) == if p * p2(1075) <= q {
            Some(0nat)
        } else {
            None
        },
{
    let w = p2(1074);
    lemma_p2_pos(1074);
    lemma_p2_pos(1073);
    assert(w == 2 * p2(1073));
    assert(p2(1075) == 2 * w);
    assert(p * w < q * p2(1073)) by (nonlinear_arith)
        requires
            2 * p < q,
            w == 2 * p2(1073),
            p2(1073) > 0,
    ;
    assert(53 + 1020 == 1073);
    let s = lemma_spacing_exists(p, q, 1020);
    lemma_double_of(p, q, s);
    let x = p * w;
    let y = q * p2(s);
    let g = half_even(x, y);
    let d = g * p2(s);
    lemma_p2_pos(s);
    assert(y > 0) by (nonlinear_arith)
        requires
            q > 0,
            p2(s) > 0,
            y == q * p2(s),
    ;
    lemma_fundamental_div_mod(x as int, y as int);
    let f = x / y;
    // The quotient stays below 2^53, so the rounded value is at most 2^53.
    lemma_p2_add(53, s);
    assert(q * (p2(53) * p2(s)) == y * p2(53)) by (nonlinear_arith)
        requires
            y == q * p2(s),
    ;
    assert(f < p2(53)) by (nonlinear_arith)
        requires
            x == y * f + x % y,
            0 <= x % y,
            x < y * p2(53),
            y > 0,
    ;
    assert(g <= p2(53));
    assert(d <= p2(53) * p2(s)) by (nonlinear_arith)
        requires
            g <= p2(53),
            d == g * p2(s),
    ;
    lemma_p2_mono(53 + s, 1073);
    assert(d < w);
    assert(d % w == d && d / w == 0) by {
        lemma_fundamental_div_mod_converse(d as int, w as int, 0, d as int);
    }
    // It is zero exactly for values of at most half the least double.
    if s > 0 {
        lemma_p2_add(52, s);
        lemma_p2_pos(52);
        assert(q * (p2(52) * p2(s)) == y * p2(52)) by (nonlinear_arith)
            requires
                y == q * p2(s),
        ;
        assert(f >= p2(52)) by (nonlinear_arith)
            requires
                x == y * f + x % y,
                x % y < y,
                y * p2(52) <= x,
                y > 0,
        ;
        assert(d > 0) by (nonlinear_arith)
            requires
                g >= 1,
                p2(s) > 0,
                d == g * p2(s),
        ;
        assert(p * (2 * w) > q) by (nonlinear_arith)
            requires
                x == p * w,
                y == q * p2(s),
                y * p2(52) <= x,
                p2(s) >= 1,
                p2(52) >= 1,
                q > 0,
        ;
    } else {
        assert(p2(s) == 1);
        assert(y == q) by (nonlinear_arith)
            requires
                y == q * 1,
        ;
        assert(d == g) by (nonlinear_arith)
            requires
                d == g * 1,
        ;
        assert(p * (2 * w) == 2 * x) by (nonlinear_arith)
            requires
                x == p * w,
        ;
        if 2 * x <= q {
            lemma_half_even_of(x, q, 0, x);
        } else if x < q {
            lemma_half_even_of(x, q, 0, x);
        } else {
            assert(f >= 1) by {
                if f == 0 {
                    assert(q * 0 == 0) by (nonlinear_arith);
                }
            }
        }
    }
}

/// The number that decimal digits, most significant first, denote.
pub open spec fn digits_number(d: Seq<u8>) -> nat
    decreases d.len(),
{
    if d.len() == 0 {
        0
    } else {
        10 * digits_number(d.drop_last()) + d.last() as nat
    }
}

/// Every element is a decimal digit.
pub open spec fn all_digits(d: Seq<u8>) -> bool {
    forall|i: int| 0 <= i < d.len() ==> d[i] <= 9
}

pub proof fn lemma_digits_concat(a: Seq<u8>, b: Seq<u8>)
    ensures
        digits_number(a + b) == digits_number(a) * p10(b.len()) + digits_number(b),
    decreases b.len(),
{
    if b.len() == 0 {
        assert(a + b == a);
        assert(digits_number(a) * 1 == digits_number(a)) by (nonlinear_arith);
    } else {
        let c = b.drop_last();
        assert((a + b).drop_last() == a + c);
        assert((a + b).last() == b.last());
        lemma_digits_concat(a, c);
        let x = digits_number(a);
        let y = p10(c.len());
        assert(p10(b.len()) == 10 * y);
        assert(10 * (x * y) == x * (10 * y)) by (nonlinear_arith);
    }
}

pub proof fn lemma_digits_bound(d: Seq<u8>)
    requires
        all_digits(d),
    ensures
        digits_number(d) < p10(d.len()),
    decreases d.len(),
{
    if d.len() > 0 {
        assert(all_digits(d.drop_last()));
        lemma_digits_bound(d.drop_last());
    }
}

/// The first digit carries the highest power of ten.
pub proof fn lemma_digits_first(d: Seq<u8>)
    requires
        d.len() > 0,
    ensures
        digits_number(d) == d[0] as nat * p10((d.len() - 1) as nat) + digits_number(d.skip(1)),
{
    let a = seq![d[0]];
    assert(d == a + d.skip(1));
    assert(a.drop_last() == Seq::<u8>::empty());
    assert(digits_number(a) == d[0] as nat) by {
        reveal_with_fuel(digits_number, 2);
    }
    lemma_digits_concat(a, d.skip(1));
}

/// Doubles the decimal fraction `0.d0 d1 ..` in place; the result is the carry
/// out of it.
fn doubled(d: &mut Vec<u8>) -> (carry: bool)
    requires
        all_digits(old(d)@),
    ensures
        final(d)@.len() == old(d)@.len(),
        all_digits(final(d)@),
        2 * digits_number(old(d)@) == (if carry {
            p10(old(d)@.len())
        } else {
            0
        }) + digits_number(final(d)@),
{
    let ghost before = d@;
    let n: usize = d.len();
    let mut i: usize = n;
    let mut carry: u8 = 0;
    proof {
        assert(before.skip(n as int) == Seq::<u8>::empty());
    }
    while i > 0
        invariant
            i <= n,
            n == before.len(),
            d@.len() == n,
            all_digits(before),
            all_digits(d@),
            carry <= 1,
            d@.take(i as int) == before.take(i as int),
            2 * digits_number(before.skip(i as int)) == carry as nat * p10((n - i) as nat)
                + digits_number(d@.skip(i as int)),
        decreases i,
    {
        let ghost prev = d@;
        let ghost c0 = carry as nat;
        let ghost w = p10((n - i) as nat);
        i = i - 1;
        proof {
            assert(d@.take(i + 1)[i as int] == before.take(i + 1)[i as int]);
        }
        let x: u8 = d[i];
        let y: u8 = 2 * x + carry;
        let z: u8 = if y >= 10 {
            y - 10
        } else {
            y
        };
        carry = if y >= 10 {
            1
        } else {
            0
        };
        d.set(i, z);
        proof {
            assert(before.skip(i as int).skip(1) == before.skip(i + 1));
            assert(d@.skip(i as int).skip(1) == prev.skip(i + 1));
            lemma_digits_first(before.skip(i as int));
            lemma_digits_first(d@.skip(i as int));
            assert(d@.take(i as int) == before.take(i as int)) by {
                assert(prev.take(i + 1).take(i as int) == before.take(i + 1).take(i as int));
                assert(prev.take(i + 1).take(i as int) == prev.take(i as int));
                assert(before.take(i + 1).take(i as int) == before.take(i as int));
                assert(d@.take(i as int) == prev.take(i as int));
            }
            assert(p10((n - i) as nat) == 10 * w);
            let c1 = carry as nat;
            assert(2 * (x as nat * w) + c0 * w == c1 * (10 * w) + z as nat * w) by (nonlinear_arith)
                requires
                    2 * x as nat + c0 == 10 * c1 + z as nat,
            ;
        }
    }
    proof {
        assert(before.skip(0) == before);
        assert(d@.skip(0) == d@);
        assert(1 * p10(n as nat) == p10(n as nat)) by (nonlinear_arith);
        assert(0 * p10(n as nat) == 0) by (nonlinear_arith);
    }
    carry == 1
}

/// Whether any digit is not zero.
fn nonzero(d: &Vec<u8>) -> (r: bool)
    requires
        all_digits(d@),
    ensures
        r == (digits_number(d@) > 0),
{
    let mut i: usize = 0;
    while i < d.len()
        invariant
            i <= d.len(),
            digits_number(d@.take(i as int)) == 0,
        decreases d.len() - i,
    {
        proof {
            assert(d@.take(i + 1).drop_last() == d@.take(i as int));
        }
        if d[i] != 0 {
            proof {
                assert(d@ == d@.take(i + 1) + d@.skip(i + 1));
                lemma_digits_concat(d@.take(i + 1), d@.skip(i + 1));
                lemma_p10_pos(d@.skip(i + 1).len());
                let a = digits_number(d@.take(i + 1));
                let b = p10(d@.skip(i + 1).len());
                assert(a * b > 0) by (nonlinear_arith)
                    requires
                        a > 0,
                        b > 0,
                ;
            }
            return true;
        }
        i = i + 1;
    }
    proof {
        assert(d@.take(d@.len() as int) == d@);
    }
    false
}

/// Doubling a whole part with its fraction, where the fraction carries `c`.
proof fn lemma_shift_step(q: nat, v: nat, r0: nat, f0: nat, f1: nat, c: bool, w: nat)
    requires
        r0 * q + f0 == v * w,
        2 * f0 == (if c {
            q
        } else {
            0
        }) + f1,
    ensures
        (2 * r0 + if c {
            1nat
        } else {
            0
        }) * q + f1 == v * (2 * w),
{
    assert(2 * (v * w) == v * (2 * w)) by (nonlinear_arith);
    assert((2 * r0) * q == 2 * (r0 * q)) by (nonlinear_arith);
    assert((2 * r0 + 1) * q == 2 * (r0 * q) + q) by (nonlinear_arith);
}

/// Moves `j` binary places out of the fraction into `acc`.
fn shifted(acc: u128, d: &mut Vec<u8>, j: u32) -> (r: u128)
    requires
        all_digits(old(d)@),
        acc < p2((60 - j) as nat),
        j <= 60,
    ensures
        final(d)@.len() == old(d)@.len(),
        all_digits(final(d)@),
        r < p2(60),
        r * p10(old(d)@.len()) + digits_number(final(d)@) == (acc * p10(old(d)@.len())
            + digits_number(old(d)@)) * p2(j as nat),
{
    let ghost q = p10(d@.len());
    let ghost n0 = digits_number(d@);
    let mut r: u128 = acc;
    let mut i: u32 = 0;
    let ghost len = d@.len();
    proof {
        assert((acc * q + n0) * 1 == acc * q + n0);
        lemma_powers();
    }
    while i < j
        invariant
            i <= j,
            j <= 60,
            d@.len() == len,
            q == p10(len),
            all_digits(d@),
            r < p2((60 - j + i) as nat),
            p2(60) == 1152921504606846976,
            r * q + digits_number(d@) == (acc * q + n0) * p2(i as nat),
        decreases j - i,
    {
        let ghost r0 = r as nat;
        let ghost f0 = digits_number(d@);
        let ghost v = (acc as nat) * q + n0;
        proof {
            lemma_p2_mono((60 - j + i) as nat, 60);
            assert(p2((60 - j + i + 1) as nat) == 2 * p2((60 - j + i) as nat));
        }
        let c = doubled(d);
        r = if c {
            2 * r + 1
        } else {
            2 * r
        };
        i = i + 1;
        proof {
            lemma_shift_step(q, v, r0, f0, digits_number(d@), c, p2((i - 1) as nat));
        }
    }
    r
}

/// Rounds `f` with the fraction `0.d0 d1 ..` behind it.
fn rounded(f: u128, d: Vec<u8>) -> (m: u128)
    requires
        all_digits(d@),
        f < p2(60),
    ensures
        m == half_even(f as nat * p10(d@.len()) + digits_number(d@), p10(d@.len())),
        m <= p2(60),
{
    let ghost q = p10(d@.len());
    let ghost r = digits_number(d@);
    proof {
        lemma_powers();
        lemma_digits_bound(d@);
        lemma_half_even_of(f as nat * q + r, q, f as nat, r);
    }
    let mut e = d;
    let half = doubled(&mut e);
    let rest = nonzero(&e);
    if half && (rest || f % 2 == 1) {
        f + 1
    } else {
        proof {
            lemma_digits_bound(e@);
        }
        f
    }
}

/// The fraction `0.d0 d1 ..`, where its double is an integer.
fn nearest_below_one(frac: Vec<u8>) -> (r: Option<u64>)
    requires
        all_digits(frac@),
    ensures
        rounds_to(digits_number(frac@), p10(frac@.len()), r),
{
    let ghost q = p10(frac@.len());
    let ghost n = digits_number(frac@);
    proof {
        lemma_p10_pos(frac@.len());
        lemma_digits_bound(frac@);
        lemma_powers();
        assert(0 * q == 0) by (nonlinear_arith);
    }
    let mut d = frac.clone();
    assert(d@ == frac@);
    let mut probe = frac;
    let upper = doubled(&mut probe);
    proof {
        lemma_digits_bound(probe@);
    }
    if upper {
        proof {
            lemma_p2_pos(7);
        }
        let f = shifted(0, &mut d, 53);
        let m = rounded(f, d);
        proof {
            lemma_integral_upper_half(n, q);
        }
        if m % 9007199254740992 == 0 {
            Some((m / 9007199254740992) as u64)
        } else {
            None
        }
    } else {
        proof {
            lemma_integral_tiny(n, q);
        }
        rounds_to_zero(probe, Ghost(n))
    }
}

/// The rounding of a value below 2^52, `k + 1` whole bits wide.
fn nearest_small(whole: u128, frac: Vec<u8>, k: u32) -> (r: Option<u64>)
    requires
        all_digits(frac@),
        k < 52,
        p2(k as nat) <= whole < p2((k + 1) as nat),
    ensures
        rounds_to(
            whole as nat * p10(frac@.len()) + digits_number(frac@),
            p10(frac@.len()),
            r,
        ),
{
    let ghost q = p10(frac@.len());
    let ghost p = whole as nat * q + digits_number(frac@);
    proof {
        lemma_p10_pos(frac@.len());
        lemma_powers();
        lemma_whole_bits(whole as nat, frac@, k as nat);
        lemma_integral_small(p, q, k as nat);
        lemma_p2_mono((k + 1) as nat, (60 - (52 - k)) as nat);
        lemma_p2_pos((52 - k) as nat);
    }
    let mut d = frac;
    let f = shifted(whole, &mut d, 52 - k);
    let m = rounded(f, d);
    let j: u128 = low_power(52 - k);
    if m % j == 0 {
        proof {
            vstd::arithmetic::div_mod::lemma_div_is_ordered_by_denominator(m as int, 1, j as int);
        }
        Some((m / j) as u64)
    } else {
        None
    }
}

/// The bits that a whole part takes bound the value.
proof fn lemma_whole_bits(w: nat, frac: Seq<u8>, k: nat)
    requires
        all_digits(frac),
        p2(k) <= w < p2(k + 1),
    ensures
        p10(frac.len()) * p2(k) <= w * p10(frac.len()) + digits_number(frac),
        w * p10(frac.len()) + digits_number(frac) < p10(frac.len()) * p2(k + 1),
{
    let q = p10(frac.len());
    let n = digits_number(frac);
    let p = w * q + n;
    lemma_digits_bound(frac);
    assert(q * p2(k) <= p) by (nonlinear_arith)
        requires
            p2(k) <= w,
            p == w * q + n,
    ;
    assert(p < q * p2(k + 1)) by (nonlinear_arith)
        requires
            w + 1 <= p2(k + 1),
            p == w * q + n,
            n < q,
    ;
}

/// A value whose double, narrowed to single precision, is zero: at most half of
/// the least positive single, 2^-150, or so little more that its double is
/// 2^-150.
pub open spec fn sinks(p: nat, q: nat) -> bool {
    p * p2(203) <= (p2(53) + 1) * q
}

proof fn lemma_floats(n: nat, q: nat, i: nat)
    requires
        n * p2(i) >= q,
        q > 0,
        i <= 149,
    ensures
        !sinks(n, q),
{
    let k = (203 - i) as nat;
    lemma_p2_add(i, k);
    lemma_p2_mono(54, k);
    lemma_powers();
    assert(p2(54) == 2 * p2(53));
    let a = p2(i);
    let b = p2(k);
    assert(n * (a * b) > 9007199254740993 * q) by (nonlinear_arith)
        requires
            n * a >= q,
            b >= 18014398509481984,
            q > 0,
    ;
}

proof fn lemma_sinks(n: nat, q: nat, f: nat)
    requires
        n * p2(150) == q + f || n * p2(150) == f && f < q,
    ensures
        n * p2(150) == q + f ==> (sinks(n, q) <==> f * p2(53) <= q),
        n * p2(150) == f && f < q ==> sinks(n, q),
{
    lemma_p2_add(150, 53);
    lemma_powers();
    let a = p2(150);
    let b = p2(53);
    assert(n * (a * b) == (n * a) * b) by (nonlinear_arith);
    assert((b + 1) * q == b * q + q) by (nonlinear_arith);
    assert((q + f) * b == b * q + f * b) by (nonlinear_arith);
    if n * a == f && f < q {
        assert(f * b <= b * q) by (nonlinear_arith)
            requires
                f < q,
        ;
    }
}

/// Whether a decimal fraction is zero in single precision.
pub fn fraction_sinks(frac: Vec<u8>) -> (r: bool)
    requires
        all_digits(frac@),
    ensures
        r == sinks(digits_number(frac@), p10(frac@.len())),
{
    let mut d = frac;
    let ghost len = d@.len();
    let ghost n = digits_number(d@);
    let ghost q = p10(len);
    let mut i: u32 = 0;
    proof {
        assert(n * 1 == n);
        lemma_p10_pos(len);
    }
    while i < 149
        invariant
            i <= 149,
            all_digits(d@),
            d@.len() == len,
            q == p10(len),
            q > 0,
            n * p2(i as nat) == digits_number(d@),
            n == digits_number(frac@),
            len == frac@.len(),
        decreases 149 - i,
    {
        let ghost f = digits_number(d@);
        let carry = doubled(&mut d);
        proof {
            let w = p2(i as nat);
            assert(p2((i + 1) as nat) == 2 * w);
            assert(n * (2 * w) == 2 * (n * w)) by (nonlinear_arith);
        }
        if carry {
            proof {
                lemma_floats(n, q, (i + 1) as nat);
            }
            return false;
        }
        i = i + 1;
    }
    let carry = doubled(&mut d);
    let ghost f = digits_number(d@);
    proof {
        let w = p2(149);
        assert(p2(150) == 2 * w);
        assert(n * (2 * w) == 2 * (n * w)) by (nonlinear_arith);
        lemma_digits_bound(d@);
        lemma_sinks(n, q, f);
        lemma_powers();
        assert(0 * q == 0) by (nonlinear_arith);
        lemma_p2_pos(7);
    }
    if !carry {
        return true;
    }
    let whole: u128 = shifted(0, &mut d, 53);
    proof {
        lemma_digits_bound(d@);
        assert(1 * q == q) by (nonlinear_arith);
        if whole >= 2 {
            assert(whole * q >= 2 * q) by (nonlinear_arith)
                requires
                    whole >= 2,
            ;
        }
    }
    whole == 0 || (whole == 1 && !nonzero(&d))
}

/// The powers of two that the code names.
proof fn lemma_powers()
    ensures
        p2(10) == 1024,
        p2(53) == 9007199254740992,
        p2(62) == 0x4000_0000_0000_0000,
        p2(63) == 0x8000_0000_0000_0000,
        p2(60) == 1152921504606846976,
        p2(64) == 0x1_0000_0000_0000_0000,
        p2(80) == 0x1_0000_0000_0000_0000_0000,
{
    reveal_with_fuel(p2, 11);
    lemma_p2_add(10, 10);
    lemma_p2_add(20, 20);
    lemma_p2_add(40, 20);
    lemma_p2_add(60, 20);
    lemma_p2_add(40, 10);
    lemma_p2_add(50, 3);
    lemma_p2_add(60, 2);
    lemma_p2_add(60, 3);
    lemma_p2_add(60, 4);
    assert(p2(20) == 1048576);
    assert(p2(40) == 1048576 * 1048576);
}

/// `r` is what `integral_double` says of `p / q`.
pub open spec fn rounds_to(p: nat, q: nat, r: Option<u64>) -> bool {
    match integral_double(p, q) {
        Some(n) => r == Some(n as u64) && n <= 0x8000_0000_0000_0000,
        None => r is None,
    }
}

/// The double nearest to `whole` plus the decimal fraction `0.d0 d1 ..`, where
/// that double is an integer of at most 2^63.
pub fn nearest_integral(whole: u128, frac: Vec<u8>) -> (r: Option<u64>)
    requires
        all_digits(frac@),
        whole < 0x1_0000_0000_0000_0000_0000,
    ensures
        rounds_to(
            whole as nat * p10(frac@.len()) + digits_number(frac@),
            p10(frac@.len()),
            r,
        ),
{
    if whole == 0 {
        assert(0 * p10(frac@.len()) == 0) by (nonlinear_arith);
        return nearest_below_one(frac);
    }
    let k = bit_width(whole);
    if k < 52 {
        nearest_small(whole, frac, k)
    } else {
        proof {
            lemma_p10_pos(frac@.len());
            lemma_whole_bits(whole as nat, frac@, k as nat);
            lemma_integral_large(
                whole as nat * p10(frac@.len()) + digits_number(frac@),
                p10(frac@.len()),
                k as nat,
            );
        }
        nearest_large(whole, frac, k)
    }
}

/// The place of the highest bit.
fn bit_width(whole: u128) -> (k: u32)
    requires
        0 < whole < 0x1_0000_0000_0000_0000_0000,
    ensures
        k < 80,
        p2(k as nat) <= whole < p2((k + 1) as nat),
{
    let mut k: u32 = 0;
    let mut pw: u128 = 1;
    proof {
        lemma_powers();
    }
    while pw <= whole / 2
        invariant
            whole < 0x1_0000_0000_0000_0000_0000,
            p2(80) == 0x1_0000_0000_0000_0000_0000,
            0 < pw <= whole,
            pw == p2(k as nat),
            k < 80,
        decreases whole - pw,
    {
        proof {
            if k >= 79 {
                lemma_p2_mono(80, (k + 1) as nat);
            }
            assert(p2((k + 1) as nat) == 2 * p2(k as nat));
        }
        pw = 2 * pw;
        k = k + 1;
    }
    proof {
        assert(p2((k + 1) as nat) == 2 * p2(k as nat));
    }
    k
}

/// Two to the `k`.
fn low_power(k: u32) -> (r: u128)
    requires
        k <= 60,
    ensures
        r == p2(k as nat),
        r <= p2(60),
{
    let mut i: u32 = 0;
    let mut r: u128 = 1;
    proof {
        lemma_powers();
    }
    while i < k
        invariant
            i <= k,
            k <= 60,
            r == p2(i as nat),
            p2(60) == 1152921504606846976,
        decreases k - i,
    {
        proof {
            lemma_p2_mono((i + 1) as nat, 60);
            assert(p2((i + 1) as nat) == 2 * p2(i as nat));
        }
        r = 2 * r;
        i = i + 1;
    }
    proof {
        lemma_p2_mono(k as nat, 60);
    }
    r
}

/// `Some(0)` where the fraction `0.d0 d1 ..`, halved, is at most 2^-1075.
fn rounds_to_zero(twice: Vec<u8>, Ghost(n): Ghost<nat>) -> (r: Option<u64>)
    requires
        all_digits(twice@),
        digits_number(twice@) == 2 * n,
    ensures
        r == if n * p2(1075) <= p10(twice@.len()) {
            Some(0u64)
        } else {
            None
        },
{
    let ghost q = p10(twice@.len());
    let ghost len = twice@.len();
    let mut d = twice;
    let mut i: u32 = 1;
    proof {
        assert(p2(1) == 2) by {
            reveal_with_fuel(p2, 2);
        }
        assert(2 * n == n * 2);
    }
    while i < 1074
        invariant
            1 <= i <= 1074,
            all_digits(d@),
            d@.len() == len,
            len == twice@.len(),
            q == p10(len),
            digits_number(d@) == n * p2(i as nat),
        decreases 1074 - i,
    {
        let c = doubled(&mut d);
        proof {
            let a = p2(i as nat);
            assert(p2((i + 1) as nat) == 2 * a);
            assert(2 * (n * a) == n * (2 * a)) by (nonlinear_arith);
        }
        if c {
            proof {
                let a = p2((i + 1) as nat);
                lemma_p2_mono((i + 1) as nat, 1074);
                assert(p2(1075) == 2 * p2(1074));
                lemma_p10_pos(len);
                assert(n * p2(1075) > q) by (nonlinear_arith)
                    requires
                        n * a >= q,
                        a <= p2(1074),
                        p2(1075) == 2 * p2(1074),
                        q > 0,
                ;
            }
            return None;
        }
        i = i + 1;
    }
    let c = doubled(&mut d);
    proof {
        let a = p2(1074);
        assert(p2(1075) == 2 * a);
        assert(2 * (n * a) == n * (2 * a)) by (nonlinear_arith);
        lemma_digits_bound(d@);
    }
    if !c || !nonzero(&d) {
        Some(0)
    } else {
        None
    }
}

/// The rounding of a value from 2^52 on, `k + 1` bits wide.
fn nearest_large(whole: u128, d: Vec<u8>, k: u32) -> (r: Option<u64>)
    requires
        all_digits(d@),
        52 <= k < 80,
        p2(k as nat) <= whole < p2((k + 1) as nat),
    ensures
        ({
            let q = p10(d@.len());
            let e = p2((k - 52) as nat);
            let n = half_even(whole as nat * q + digits_number(d@), q * e) * e;
            if n <= 0x8000_0000_0000_0000 {
                r == Some(n as u64)
            } else {
                r is None
            }
        }),
{
    let ghost q = p10(d@.len());
    let ghost n = digits_number(d@);
    let ghost p = whole as nat * q + n;
    let s: u128 = low_power(k - 52);
    proof {
        lemma_powers();
        lemma_p2_pos((k - 52) as nat);
        lemma_p2_add((k - 52) as nat, 53);
    }
    let f: u128 = whole / s;
    let a: u128 = whole % s;
    proof {
        lemma_fundamental_div_mod(whole as int, s as int);
        let fi = f as nat;
        let si = s as nat;
        let ai = a as nat;
        let wi = whole as nat;
        assert(fi < 9007199254740992) by (nonlinear_arith)
            requires
                wi == si * fi + ai,
                wi < si * 9007199254740992,
                si > 0,
        ;
    }
    let m: u128;
    if s == 1 {
        m = rounded(f, d);
        proof {
            assert(q * 1 == q);
            lemma_p10_pos(d@.len());
            lemma_digits_bound(d@);
            assert(s * f == f) by (nonlinear_arith)
                requires
                    s == 1,
            ;
            lemma_half_even_of(p, q, f as nat, n);
        }
    } else {
        let rest = nonzero(&d);
        let up = 2 * a > s || (2 * a == s && (rest || f % 2 == 1));
        proof {
            assert(s % 2 == 0) by {
                assert(k > 52);
                assert(p2((k - 52) as nat) == 2 * p2((k - 53) as nat));
            }
            lemma_split_round(whole as nat, d@, s as nat, f as nat, a as nat);
        }
        m = if up {
            f + 1
        } else {
            f
        };
    }
    assert(m as nat * s as nat <= 9007199254740992 * 1152921504606846976) by (nonlinear_arith)
        requires
            m <= 9007199254740992,
            s <= 1152921504606846976,
    ;
    let v: u128 = m * s;
    if v <= 0x8000_0000_0000_0000 {
        Some(v as u64)
    } else {
        None
    }
}

/// Rounding to a multiple of an even `s`: the part below `s` decides, and the
/// fraction only where that part is half of `s`.
proof fn lemma_split_round(w: nat, d: Seq<u8>, s: nat, f: nat, a: nat)
    requires
        all_digits(d),
        s > 0,
        s % 2 == 0,
        w == s * f + a,
        a < s,
    ensures
        half_even(w * p10(d.len()) + digits_number(d), p10(d.len()) * s) == if 2 * a > s || (2 * a
            == s && (digits_number(d) > 0 || f % 2 == 1)) {
            f + 1
        } else {
            f
        },
{
    let q = p10(d.len());
    let n = digits_number(d);
    let p = w * q + n;
    lemma_p10_pos(d.len());
    lemma_digits_bound(d);
    assert(p == f * (q * s) + (a * q + n)) by (nonlinear_arith)
        requires
            w == s * f + a,
            p == w * q + n,
    ;
    assert(a * q + n < q * s) by (nonlinear_arith)
        requires
            a + 1 <= s,
            n < q,
    ;
    lemma_half_even_of(p, q * s, f, a * q + n);
    if 2 * a < s {
        assert(2 * (a * q + n) < q * s) by (nonlinear_arith)
            requires
                2 * a + 2 <= s,
                n < q,
        ;
    } else if 2 * a == s {
        assert(2 * (a * q + n) == q * s + 2 * n) by (nonlinear_arith)
            requires
                2 * a == s,
        ;
    } else {
        assert(2 * (a * q + n) > q * s) by (nonlinear_arith)
            requires
                2 * a > s,
                q > 0,
        ;
    }
}

/// How far `n` whole parts of size `q` are from `p`.
pub open spec fn off(p: nat, q: nat, n: nat) -> nat {
    (if p >= n * q {
        p - n * q
    } else {
        n * q - p
    }) as nat
}

/// No integer is nearer to `p / q` than the one it is rounded to, and of two that
/// are equally near the even one is taken.
pub proof fn rounding_goes_to_the_nearest(p: nat, q: nat, n: nat)
    requires
        q > 0,
    ensures
        off(p, q, half_even(p, q)) <= off(p, q, n),
        n != half_even(p, q) && off(p, q, half_even(p, q)) == off(p, q, n) ==> half_even(p, q) % 2 == 0,
{
    let f = p / q;
    let r = p % q;
    assert(p == f * q + r && 0 <= r < q) by (nonlinear_arith)
        requires
            q > 0,
            f == p / q,
            r == p % q,
    ;
    assert((f + 1) * q == f * q + q) by (nonlinear_arith);
    if n < f {
        assert(n * q + q <= f * q) by (nonlinear_arith)
            requires
                n + 1 <= f,
        ;
    } else if n > f + 1 {
        assert(n * q >= f * q + 2 * q) by (nonlinear_arith)
            requires
                n >= f + 2,
        ;
    }
}

/// Among the doubles that lie as close together as those near `p / q` do, none is
/// nearer to it than the one it becomes.
pub proof fn the_nearest_double_is_taken(p: nat, q: nat, s: nat, m: nat)
    requires
        q > 0,
        spacing(p, q, s),
    ensures
        exists|k: nat| double_of(p, q) == #[trigger] (k * p2(s)) && off(p * p2(1074), q * p2(s), k) <= off(
            p * p2(1074),
            q * p2(s),
            m,
        ),
{
    lemma_double_of(p, q, s);
    lemma_p2_pos(s);
    assert(q * p2(s) > 0) by (nonlinear_arith)
        requires
            q > 0,
            p2(s) > 0,
    ;
    rounding_goes_to_the_nearest(p * p2(1074), q * p2(s), m);
    let k = half_even(p * p2(1074), q * p2(s));
    assert(double_of(p, q) == k * p2(s));
}

/// Each digit counts ten times what it would count one place further on.
pub proof fn a_digit_more_counts_ten_times_as_much(d: Seq<u8>, x: u8)
    ensures
        digits_number(d.push(x)) == 10 * digits_number(d) + x,
        digits_number(seq![x]) == x,
{
    assert(d.push(x).drop_last() == d);
    assert(seq![x].drop_last() == Seq::<u8>::empty());
    assert(digits_number(seq![x].drop_last()) == 0);
}

} // verus!
