//! The UI scale: the display's scale times the user's own multiplier. Every
//! size, gap and radius on screen is multiplied by it, so that a note looks the
//! same physical size on any display.
//!
//! A scale is held in units of 2^-24, which is exact for every single-precision
//! number in its range. Products are rounded as single precision rounds them.

use vstd::prelude::*;
use crate::double::half_even;
use crate::double::lemma_half_even_of;
use crate::double::lemma_p2_add;
use crate::double::lemma_p2_mono;
use crate::double::lemma_p2_pos;
use crate::double::p2;

verus! {

/// A scale of one.
pub const UNIT_SCALE: u32 = 0x100_0000;

/// The least scale, one half.
pub const MIN_SCALE: u32 = 0x80_0000;

/// The greatest scale, four.
pub const MAX_SCALE: u32 = 0x400_0000;

/// The UI scale in units of 2^-24.
#[derive(Clone, Copy, Debug, PartialEq, Eq, Structural)]
pub struct UiScale {
    pub units: u32,
}

impl UiScale {
    /// The scale is between one half and four.
    pub open spec fn wf(self) -> bool {
        MIN_SCALE <= self.units <= MAX_SCALE
    }
}

/// The scale of so many units, brought into the range of scales.
pub fn set_ui_scale(units: u64) -> (r: UiScale)
    ensures
        r.wf(),
        r.units == if units < MIN_SCALE {
            MIN_SCALE as int
        } else if units > MAX_SCALE {
            MAX_SCALE as int
        } else {
            units as int
        },
        0x80_0000 <= units <= 0x400_0000 ==> r.units == units,
        units < 0x80_0000 ==> r.units == 0x80_0000,
        units > 0x400_0000 ==> r.units == 0x400_0000,
{
    if units < MIN_SCALE as u64 {
        UiScale { units: MIN_SCALE }
    } else if units > MAX_SCALE as u64 {
        UiScale { units: MAX_SCALE }
    } else {
        UiScale { units: units as u32 }
    }
}

/// How many bits a number has beyond the 24 of single precision.
pub open spec fn excess(n: nat) -> nat
    decreases n,
{
    if n < 0x100_0000 {
        0
    } else {
        1 + excess(n / 2)
    }
}

/// The number rounded to 24 significant bits, a tie to the even one.
pub open spec fn single(n: nat) -> nat {
    half_even(n, p2(excess(n))) * p2(excess(n))
}

/// The nearest integer of so many units of 2^-24, a tie away from zero.
pub open spec fn nearest_whole(n: nat) -> nat {
    (n + 0x80_0000) / 0x100_0000
}

/// The magnitude of a scaled size.
pub open spec fn scaled_magnitude(v: nat, units: nat) -> nat {
    nearest_whole(single(single(v) * units))
}

/// A size multiplied by the scale, as an integer; what is beyond the range of
/// sizes becomes its end.
pub open spec fn scaled(v: int, s: UiScale) -> int {
    if v >= 0 {
        let m = scaled_magnitude(v as nat, s.units as nat) as int;
        if m > i32::MAX {
            i32::MAX as int
        } else {
            m
        }
    } else {
        let m = scaled_magnitude((-v) as nat, s.units as nat) as int;
        if -m < i32::MIN {
            i32::MIN as int
        } else {
            -m
        }
    }
}

proof fn lemma_excess(n: nat, e: nat)
    requires
        n < p2(24 + e),
        e > 0 ==> n >= p2((23 + e) as nat),
    ensures
        excess(n) == e,
    decreases e,
{
    lemma_scale_powers();
    if e > 0 {
        lemma_p2_mono(24, (23 + e) as nat);
        assert(p2(24 + e) == 2 * p2((23 + e) as nat));
        assert(p2((23 + e) as nat) == 2 * p2((22 + e) as nat));
        lemma_excess(n / 2, (e - 1) as nat);
    }
}

/// The number rounded to 24 significant bits.
pub fn round_single(n: u64) -> (r: u64)
    requires
        n < 0x1000_0000_0000_0000,
    ensures
        r == single(n as nat),
        r <= 0x1000_0000_0000_0000,
        n <= 0x100_0000 ==> r == n,
        n < 0x1_0000_0000 ==> r <= 0x1_0000_0000,
{
    let mut w: u64 = 1;
    let ghost mut e: nat = 0;
    let mut top: u64 = 0x100_0000;
    proof {
        lemma_scale_powers();
        assert(p2(0) == 1);
    }
    while n >= top
        invariant
            n < 0x1000_0000_0000_0000,
            top == p2(24 + e),
            w == p2(e),
            top == 0x100_0000 * w,
            w >= 1,
            e > 0 ==> n >= p2((23 + e) as nat),
            top <= 0x2000_0000_0000_0000,
        decreases 0x2000_0000_0000_0000 - top,
    {
        proof {
            assert(p2(24 + (e + 1)) == 2 * p2(24 + e));
            assert(p2(e + 1) == 2 * p2(e));
            e = e + 1;
        }
        top = 2 * top;
        w = 2 * w;
    }
    proof {
        lemma_excess(n as nat, e);
    }
    let f: u64 = n / w;
    let a: u64 = n % w;
    let m: u64 = if 2 * a < w || (2 * a == w && f % 2 == 0) {
        f
    } else {
        f + 1
    };
    proof {
        let wi = w as nat;
        let fi = f as nat;
        let ai = a as nat;
        vstd::arithmetic::div_mod::lemma_fundamental_div_mod(n as int, w as int);
        assert(fi <= 0x100_0000 - 1) by (nonlinear_arith)
            requires
                n == wi * fi + ai,
                n < 0x100_0000 * wi,
                wi >= 1,
        ;
        assert(m * w <= 0x100_0000 * w) by (nonlinear_arith)
            requires
                m <= 0x100_0000,
        ;
        lemma_top(n as nat, e, w as nat);
        if n < 0x100_0000 {
            assert(w == 1);
            assert(f == n && a == 0);
        } else if n == 0x100_0000 {
            assert(w == 2);
            assert(f == 0x80_0000 && a == 0);
        }
    }
    m * w
}

proof fn lemma_scale_powers()
    ensures
        p2(0) == 1,
        p2(1) == 2,
        p2(24) == 0x100_0000,
        p2(25) == 0x200_0000,
        p2(32) == 0x1_0000_0000,
        p2(36) == 0x10_0000_0000,
        p2(48) == 0x1_0000_0000_0000,
        p2(49) == 0x2_0000_0000_0000,
        p2(60) == 0x1000_0000_0000_0000,
{
    reveal_with_fuel(p2, 61);
}

proof fn lemma_top(n: nat, e: nat, w: nat)
    requires
        w == p2(e),
        n < p2(24 + e),
        e > 0 ==> n >= p2((23 + e) as nat),
        n < 0x1000_0000_0000_0000,
    ensures
        0x100_0000 * w <= 0x1000_0000_0000_0000,
        n < 0x1_0000_0000 ==> 0x100_0000 * w <= 0x1_0000_0000,
        n < 0x100_0000 ==> w == 1,
        n == 0x100_0000 ==> w == 2,
{
    lemma_scale_powers();
    lemma_p2_add(24, e);
    if e > 36 {
        lemma_p2_mono(60, (23 + e) as nat);
    }
    lemma_p2_mono(e, 36);
    if e > 8 {
        lemma_p2_mono(32, (23 + e) as nat);
    } else {
        lemma_p2_mono(24 + e, 32);
    }
}

/// A size in pixels at the scale `s`.
pub fn sc(v: i32, s: UiScale) -> (r: i32)
    requires
        s.wf(),
    ensures
        r == scaled(v as int, s),
{
    let a: u64 = if v < 0 {
        (-(v as i64)) as u64
    } else {
        v as u64
    };
    let b: u64 = round_single(a);
    let k: u64 = s.units as u64;
    assert(b * k <= 0x1_0000_0000 * 0x400_0000) by (nonlinear_arith)
        requires
            b <= 0x1_0000_0000,
            k <= 0x400_0000,
    ;
    let p: u64 = round_single(b * k);
    let m: u64 = (p + 0x80_0000) / 0x100_0000;
    if v >= 0 {
        if m > 0x7fff_ffff {
            i32::MAX
        } else {
            m as i32
        }
    } else if m > 0x8000_0000 {
        i32::MIN
    } else {
        (-(m as i64)) as i32
    }
}

/// A number has 24 bits and its excess.
proof fn lemma_excess_is(n: nat)
    ensures
        n < p2(24 + excess(n)),
        excess(n) > 0 ==> n >= p2((23 + excess(n)) as nat),
    decreases n,
{
    lemma_scale_powers();
    if n >= 0x100_0000 {
        let e = excess(n / 2);
        lemma_excess_is(n / 2);
        assert(p2(24 + (e + 1)) == 2 * p2(24 + e));
        if e > 0 {
            assert(p2(24 + e) == 2 * p2((23 + e) as nat));
        }
    }
}

/// Of two numbers the greater is rounded to no smaller one.
proof fn lemma_half_even_mono(a: nat, b: nat, d: nat)
    requires
        a <= b,
        d > 0,
    ensures
        half_even(a, d) <= half_even(b, d),
        a / d <= half_even(a, d) <= a / d + 1,
        b / d <= half_even(b, d) <= b / d + 1,
{
    let (x, y, w) = (a as int, b as int, d as int);
    vstd::arithmetic::div_mod::lemma_fundamental_div_mod(x, w);
    vstd::arithmetic::div_mod::lemma_fundamental_div_mod(y, w);
    vstd::arithmetic::div_mod::lemma_div_is_ordered(x, y, w);
}

proof fn lemma_single_mono(a: nat, b: nat)
    requires
        a <= b,
    ensures
        single(a) <= single(b),
{
    let ea = excess(a);
    let eb = excess(b);
    lemma_excess_is(a);
    lemma_excess_is(b);
    lemma_scale_powers();
    lemma_p2_pos(ea);
    lemma_p2_pos(eb);
    let wa = p2(ea);
    let wb = p2(eb);
    if ea > eb {
        lemma_p2_mono(24 + eb, (23 + ea) as nat);
    } else if ea == eb {
        lemma_half_even_mono(a, b, wa);
        let (x, y) = (half_even(a, wa), half_even(b, wa));
        assert(x * wa <= y * wa) by (nonlinear_arith)
            requires
                x <= y,
        ;
    } else {
        lemma_half_even_mono(a, a, wa);
        lemma_half_even_mono(b, b, wb);
        lemma_p2_add(24, ea);
        lemma_p2_add(23, eb);
        lemma_p2_mono(24 + ea, (23 + eb) as nat);
        assert(p2(24) == 2 * p2(23));
        let (x, y) = (half_even(a, wa), half_even(b, wb));
        assert(a / wa < 0x100_0000) by (nonlinear_arith)
            requires
                a < 0x100_0000 * wa,
                wa > 0,
        ;
        assert(b / wb >= 0x80_0000) by (nonlinear_arith)
            requires
                b >= 0x80_0000 * wb,
                wb > 0,
        ;
        assert(x * wa <= 0x100_0000 * wa) by (nonlinear_arith)
            requires
                x <= 0x100_0000,
        ;
        assert(y * wb >= 0x80_0000 * wb) by (nonlinear_arith)
            requires
                y >= 0x80_0000,
        ;
    }
}

proof fn lemma_magnitude_mono(a: nat, b: nat, units: nat)
    requires
        a <= b,
    ensures
        scaled_magnitude(a, units) <= scaled_magnitude(b, units),
        scaled_magnitude(0, units) == 0,
{
    lemma_single_mono(a, b);
    let (x, y) = (single(a), single(b));
    assert(x * units <= y * units) by (nonlinear_arith)
        requires
            x <= y,
    ;
    lemma_single_mono(x * units, y * units);
    lemma_single_small(0);
    assert(0 * units == 0) by (nonlinear_arith);
}

/// Of two sizes the greater is scaled to no smaller one, and no size stays none.
pub proof fn scaling_keeps_the_order(a: int, b: int, s: UiScale)
    requires
        a <= b,
    ensures
        scaled(a, s) <= scaled(b, s),
        scaled(0, s) == 0,
{
    let units = s.units as nat;
    if a >= 0 {
        lemma_magnitude_mono(a as nat, b as nat, units);
    } else if b < 0 {
        lemma_magnitude_mono((-b) as nat, (-a) as nat, units);
    } else {
        lemma_magnitude_mono(0, b as nat, units);
        lemma_magnitude_mono(0, (-a) as nat, units);
    }
    lemma_magnitude_mono(0, 0, units);
}

pub proof fn lemma_single_small(n: nat)
    requires
        n <= 0x100_0000,
    ensures
        single(n) == n,
{
    lemma_scale_powers();
    if n < 0x100_0000 {
        lemma_half_even_of(n, 1, n, 0);
    } else {
        assert(excess(0x80_0000) == 0);
        assert(excess(n) == 1);
        lemma_half_even_of(n, 2, 0x80_0000, 0);
    }
}

/// At a scale of one a size up to 2^24 is what it is.
pub proof fn unit_scale_changes_nothing(v: int)
    requires
        -0x100_0000 <= v <= 0x100_0000,
    ensures
        scaled(v, UiScale { units: UNIT_SCALE }) == v,
{
    let m = (if v >= 0 {
        v
    } else {
        -v
    }) as nat;
    lemma_single_small(m);
    lemma_single_shift(m);
    assert((m * 0x100_0000 + 0x80_0000) / 0x100_0000 == m);
}

/// Twenty-four zero bits behind a number do not change how it is rounded.
proof fn lemma_single_shift(m: nat)
    requires
        m <= 0x100_0000,
    ensures
        single(m * 0x100_0000) == m * 0x100_0000,
{
    let n = m * 0x100_0000;
    lemma_scale_powers();
    if m == 0 {
        lemma_single_small(0);
    } else {
        let e = excess(n);
        lemma_excess_bound(n, 25);
        lemma_p2_pos(e);
        lemma_scale_powers();
        if e <= 24 {
            lemma_p2_add(e, (24 - e) as nat);
            let f = m * p2((24 - e) as nat);
            assert(n == f * p2(e)) by (nonlinear_arith)
                requires
                    n == m * (p2(e) * p2((24 - e) as nat)),
                    f == m * p2((24 - e) as nat),
            ;
            lemma_half_even_of(n, p2(e), f, 0);
        } else {
            assert(e == 25);
            assert(p2(25) == 2 * p2(24));
            assert(m == 0x100_0000) by {
                if m < 0x100_0000 {
                    lemma_excess_bound(n, 24);
                }
            }
            lemma_half_even_of(n, p2(25), 0x80_0000, 0);
        }
    }
}

pub proof fn lemma_excess_bound(n: nat, e: nat)
    requires
        n < p2(24 + e),
    ensures
        excess(n) <= e,
    decreases e,
{
    lemma_scale_powers();
    if e > 0 && n >= 0x100_0000 {
        assert(p2(24 + e) == 2 * p2((23 + e) as nat));
        lemma_excess_bound(n / 2, (e - 1) as nat);
    }
}

/// The stops of the size slider, in units of 2^-24: 0.8, 0.9, 1, 1.2 and 1.4.
pub open spec fn size_stop(level: int) -> u32 {
    if level <= 0 {
        13421773
    } else if level == 1 {
        15099494
    } else if level == 2 {
        UNIT_SCALE
    } else if level == 3 {
        20132660
    } else {
        23488102
    }
}

/// The multiplier of a stop; a level beyond the last is the last.
pub fn size_of_level(level: u8) -> (r: u32)
    ensures
        r == size_stop(level as int),
{
    if level == 0 {
        13421773
    } else if level == 1 {
        15099494
    } else if level == 2 {
        UNIT_SCALE
    } else if level == 3 {
        20132660
    } else {
        23488102
    }
}

/// How far two multipliers are apart.
pub open spec fn apart(a: u32, b: u32) -> int {
    if a < b {
        b - a
    } else {
        a - b
    }
}

/// The stop nearest to a multiplier, the lower one where two are as near.
pub fn size_level_of(user: u32) -> (r: u8)
    ensures
        r <= 4,
        forall|k: int|
            0 <= k <= 4 ==> apart(size_stop(r as int), user) <= apart(
                #[trigger] size_stop(k),
                user,
            ),
        forall|k: int|
            0 <= k < r ==> apart(size_stop(r as int), user) < apart(
                #[trigger] size_stop(k),
                user,
            ),
{
    let mut best: u8 = 0;
    let mut k: u8 = 1;
    while k < 5
        invariant
            1 <= k <= 5,
            best < k,
            forall|j: int|
                0 <= j < k ==> apart(size_stop(best as int), user) <= apart(
                    #[trigger] size_stop(j),
                    user,
                ),
            forall|j: int|
                0 <= j < best ==> apart(size_stop(best as int), user) < apart(
                    #[trigger] size_stop(j),
                    user,
                ),
        decreases 5 - k,
    {
        let a: u32 = size_of_level(best);
        let b: u32 = size_of_level(k);
        let da: u32 = if a < user {
            user - a
        } else {
            a - user
        };
        let db: u32 = if b < user {
            user - b
        } else {
            b - user
        };
        if db < da {
            best = k;
        }
        k = k + 1;
    }
    best
}

/// The stop of a slider that a click at `x` pixels into a pill of width `w`
/// picks: the nearest of five on a track from 40 to 92 hundredths of the width.
pub open spec fn slider_stop(x: int, w: int) -> int {
    let n = (200 * x - 67 * w) / (26 * w);
    if n < 0 {
        0
    } else if n > 4 {
        4
    } else {
        n
    }
}

/// The stop of a slider that a click picks.
pub fn slider_level(x: i32, w: i32) -> (r: u8)
    requires
        w > 0,
    ensures
        r == slider_stop(x as int, w as int),
        r <= 4,
{
    let num: i64 = 200 * (x as i64) - 67 * (w as i64);
    let den: i64 = 26 * (w as i64);
    if num < 0 {
        proof {
            assert(num / den < 0) by (nonlinear_arith)
                requires
                    num < 0,
                    den > 0,
            ;
        }
        return 0;
    }
    let n: i64 = num / den;
    if n > 4 {
        4
    } else {
        n as u8
    }
}

/// The glass opacity of a stop, in hundredths.
pub fn opacity_of_level(level: u8) -> (r: u8)
    ensures
        r == 25 * (if level < 4 {
            level as int
        } else {
            4
        }),
        r <= 100,
        level >= 4 ==> r == 100,
        level < 4 ==> r == level + level * 24,
{
    if level < 4 {
        25 * level
    } else {
        100
    }
}

proof fn lemma_excess_le(n: nat)
    requires
        n >= 1,
    ensures
        p2(excess(n)) <= n,
    decreases n,
{
    if n >= 0x100_0000 {
        lemma_excess_le(n / 2);
        assert(p2(excess(n)) == 2 * p2(excess(n / 2)));
    }
}

/// Rounding adds at most as much as there was.
pub proof fn lemma_single_le(n: nat)
    ensures
        single(n) <= 2 * n,
{
    if n == 0 {
        lemma_single_small(0);
    } else {
        let q = p2(excess(n));
        lemma_p2_pos(excess(n));
        lemma_excess_le(n);
        vstd::arithmetic::div_mod::lemma_fundamental_div_mod(n as int, q as int);
        let f = n / q;
        let h = half_even(n, q);
        let r = n % q;
        assert(h * q <= f * q + q) by (nonlinear_arith)
            requires
                h <= f + 1,
        ;
        assert(f * q == q * f) by (nonlinear_arith);
    }
}

/// Rounding goes to the nearest multiple.
proof fn lemma_half_even_near(n: nat, q: nat)
    requires
        q > 0,
    ensures
        2 * (half_even(n, q) * q) <= 2 * n + q,
        2 * n <= 2 * (half_even(n, q) * q) + q,
{
    vstd::arithmetic::div_mod::lemma_fundamental_div_mod(n as int, q as int);
    let f = n / q;
    let h = half_even(n, q);
    assert(f * q == q * f) by (nonlinear_arith);
    assert((f + 1) * q == q * f + q) by (nonlinear_arith);
    assert(h == f || h == f + 1);
}

/// A number rounded to single precision is within one part in 2^24 of it.
pub proof fn rounding_is_close(n: nat)
    ensures
        single(n) * 0x100_0000 <= n * 0x100_0000 + n,
        n * 0x100_0000 <= single(n) * 0x100_0000 + n,
{
    let e = excess(n);
    let q = p2(e);
    lemma_p2_pos(e);
    lemma_excess_is(n);
    lemma_half_even_near(n, q);
    if e == 0 {
        lemma_single_small(n);
    } else {
        lemma_p2_add(23, e);
        assert(p2(23) == 0x80_0000) by {
            lemma_scale_powers();
            assert(p2(24) == 2 * p2(23));
        }
        assert((23 + e) as nat == 23 + e);
        assert(n >= 0x80_0000 * q);
    }
}

/// A size is multiplied by the scale: the result is the exact product, in units of
/// 2^-24, to within half a pixel and a little of the rounding to single precision.
/// Sizes below zero are scaled as those above.
pub proof fn scaling_multiplies(v: int, s: UiScale)
    requires
        s.wf(),
        0 <= v <= 0x10000,
    ensures
        scaled(v, s) * 0x100_0000 <= v * s.units + 0x80_0000 + 0x4_0000,
        v * s.units <= scaled(v, s) * 0x100_0000 + 0x80_0000 + 0x4_0000,
        scaled(-v, s) == -scaled(v, s),
{
    let u = s.units as nat;
    let n = (v as nat) * u;
    lemma_single_small(v as nat);
    rounding_is_close(n);
    assert(n <= 0x10000 * 0x400_0000) by (nonlinear_arith)
        requires
            n == v * u,
            0 <= v <= 0x10000,
            u <= 0x400_0000,
    ;
    let m = nearest_whole(single(n));
    assert(m * 0x100_0000 <= single(n) + 0x80_0000);
    assert(single(n) < m * 0x100_0000 + 0x80_0000);
    assert(scaled_magnitude(v as nat, u) == m);
    assert(scaled_magnitude((-(-v)) as nat, u) == m);
    assert(m <= 0x10_0000);
    if v == 0 {
        assert(n == 0) by (nonlinear_arith)
            requires
                n == v * u,
                v == 0,
        ;
    }
}

/// A click picks the stop nearest to it, of five that stand at 40, 53, 66, 79 and 92
/// hundredths of the width.
pub proof fn a_click_picks_the_nearest_stop(x: int, w: int, k: int)
    requires
        w > 0,
        0 <= k <= 4,
    ensures
        0 <= slider_stop(x, w) <= 4,
        ({
            let r = slider_stop(x, w);
            let a = 100 * x - (40 + 13 * r) * w;
            let b = 100 * x - (40 + 13 * k) * w;
            (a <= b || a <= -b) && (-a <= b || -a <= -b)
        }),
        x <= 0 ==> slider_stop(x, w) == 0,
        x >= w ==> slider_stop(x, w) == 4,
{
    let num = 200 * x - 67 * w;
    let den = 26 * w;
    vstd::arithmetic::div_mod::lemma_fundamental_div_mod(num, den);
    let n = num / den;
    let m = num % den;
    assert(0 <= m < den);
    let r = slider_stop(x, w);
    assert(n <= -1 ==> den * n <= -den) by (nonlinear_arith)
        requires
            den > 0,
    ;
    assert(n >= 5 ==> den * n >= 5 * den) by (nonlinear_arith)
        requires
            den > 0,
    ;
    if 0 <= n <= 4 {
        if n == 0 {
            assert(den * n == 0) by (nonlinear_arith)
                requires
                    n == 0,
            ;
        } else if n == 1 {
            assert(den * n == den) by (nonlinear_arith)
                requires
                    n == 1,
            ;
        } else if n == 2 {
            assert(den * n == 2 * den) by (nonlinear_arith)
                requires
                    n == 2,
            ;
        } else if n == 3 {
            assert(den * n == 3 * den) by (nonlinear_arith)
                requires
                    n == 3,
            ;
        } else {
            assert(den * n == 4 * den) by (nonlinear_arith)
                requires
                    n == 4,
            ;
        }
    }
    lemma_stop_width(r, w);
    lemma_stop_width(k, w);
}

proof fn lemma_stop_width(k: int, w: int)
    requires
        0 <= k <= 4,
    ensures
        k == 0 ==> (40 + 13 * k) * w == 40 * w,
        k == 1 ==> (40 + 13 * k) * w == 53 * w,
        k == 2 ==> (40 + 13 * k) * w == 66 * w,
        k == 3 ==> (40 + 13 * k) * w == 79 * w,
        k == 4 ==> (40 + 13 * k) * w == 92 * w,
{
    assert(k == 0 ==> (40 + 13 * k) * w == 40 * w) by (nonlinear_arith);
    assert(k == 1 ==> (40 + 13 * k) * w == 53 * w) by (nonlinear_arith);
    assert(k == 2 ==> (40 + 13 * k) * w == 66 * w) by (nonlinear_arith);
    assert(k == 3 ==> (40 + 13 * k) * w == 79 * w) by (nonlinear_arith);
    assert(k == 4 ==> (40 + 13 * k) * w == 92 * w) by (nonlinear_arith);
}

/// The stops of the size slider are 0.8, 0.9, 1, 1.2 and 1.4 to within a unit, each
/// further stop is larger, and every one is a scale.
pub proof fn the_stops_are_what_they_say(level: int)
    ensures
        -5 <= 10 * size_stop(0) - 8 * 0x100_0000 <= 5,
        -5 <= 10 * size_stop(1) - 9 * 0x100_0000 <= 5,
        size_stop(2) == 0x100_0000,
        -10 <= 10 * size_stop(3) - 12 * 0x100_0000 <= 10,
        -10 <= 10 * size_stop(4) - 14 * 0x100_0000 <= 10,
        level > 4 ==> size_stop(level) == size_stop(4),
        level < 0 ==> size_stop(level) == size_stop(0),
        (UiScale { units: size_stop(level) }).wf(),
        0 <= level < 4 ==> size_stop(level) < size_stop(level + 1),
{
}

} // verus!
