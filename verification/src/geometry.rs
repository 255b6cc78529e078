//! Rectangles on the desktop, in pixels.

use vstd::prelude::*;
use crate::scale::lemma_single_le;
use crate::scale::round_single;
use crate::scale::single;

verus! {

/// A rectangle; the right and the bottom edge lie outside it.
#[derive(Clone, Copy, Debug, PartialEq, Eq, Structural)]
pub struct Rect {
    pub left: i32,
    pub top: i32,
    pub right: i32,
    pub bottom: i32,
}

/// How far from the origin a coordinate on the desktop may lie.
pub const REACH: i32 = 0x1000_0000;

/// A coordinate on the desktop.
pub open spec fn on_desktop(v: int) -> bool {
    -REACH <= v <= REACH
}

impl Rect {
    /// The pixel lies inside.
    pub open spec fn holds(self, x: int, y: int) -> bool {
        self.left <= x < self.right && self.top <= y < self.bottom
    }

    /// The rectangle lies on the desktop.
    pub open spec fn wf(self) -> bool {
        &&& on_desktop(self.left as int)
        &&& on_desktop(self.top as int)
        &&& on_desktop(self.right as int)
        &&& on_desktop(self.bottom as int)
    }

    /// The width.
    pub open spec fn w(self) -> int {
        self.right - self.left
    }

    /// The height.
    pub open spec fn h(self) -> int {
        self.bottom - self.top
    }

    /// The rectangle is `r`, or has an inside and reaches nowhere beyond `r`.
    pub open spec fn within(self, r: Rect) -> bool {
        self == r || (!self.is_empty() && r.left <= self.left && r.top <= self.top && self.right
            <= r.right && self.bottom <= r.bottom)
    }

    /// There is no pixel inside.
    pub open spec fn is_empty(self) -> bool {
        self.right <= self.left || self.bottom <= self.top
    }

    /// Whether the rectangle lies on the desktop.
    pub fn is_near(&self) -> (r: bool)
        ensures
            r == self.wf(),
    {
        -REACH <= self.left && self.left <= REACH && -REACH <= self.top && self.top <= REACH
            && -REACH <= self.right && self.right <= REACH && -REACH <= self.bottom && self.bottom
            <= REACH
    }

    /// The width.
    pub fn width(&self) -> (r: i32)
        requires
            self.wf(),
        ensures
            r == self.w(),
    {
        self.right - self.left
    }

    /// The height.
    pub fn height(&self) -> (r: i32)
        requires
            self.wf(),
        ensures
            r == self.h(),
    {
        self.bottom - self.top
    }
}

/// The greater of two.
pub open spec fn greater(a: int, b: int) -> int {
    if a >= b {
        a
    } else {
        b
    }
}

/// The lesser of two.
pub open spec fn lesser(a: int, b: int) -> int {
    if a <= b {
        a
    } else {
        b
    }
}

/// `v` brought into the range from `lo` to `hi`; `lo` where there is none.
pub open spec fn clamped(v: int, lo: int, hi: int) -> int {
    if v < lo || hi < lo {
        lo
    } else if v > hi {
        hi
    } else {
        v
    }
}

/// The greater of two.
pub fn max_of(a: i32, b: i32) -> (r: i32)
    ensures
        r == greater(a as int, b as int),
{
    if a >= b {
        a
    } else {
        b
    }
}

/// The lesser of two.
pub fn min_of(a: i32, b: i32) -> (r: i32)
    ensures
        r == lesser(a as int, b as int),
{
    if a <= b {
        a
    } else {
        b
    }
}

/// `v` brought into the range from `lo` to `hi`; `lo` where there is none.
pub fn clamp_to(v: i32, lo: i32, hi: i32) -> (r: i32)
    ensures
        r == clamped(v as int, lo as int, hi as int),
{
    if v < lo || hi < lo {
        lo
    } else if v > hi {
        hi
    } else {
        v
    }
}

/// How many of the rectangles hold the pixel.
pub open spec fn times(ps: Seq<Rect>, x: int, y: int) -> nat
    decreases ps.len(),
{
    if ps.len() == 0 {
        0
    } else {
        times(ps.drop_last(), x, y) + if ps.last().holds(x, y) {
            1nat
        } else {
            0
        }
    }
}

/// One of the rectangles holds the pixel.
pub open spec fn held(ps: Seq<Rect>, x: int, y: int) -> bool {
    exists|i: int| 0 <= i < ps.len() && (#[trigger] ps[i]).holds(x, y)
}

pub proof fn lemma_times_push(ps: Seq<Rect>, p: Rect, x: int, y: int)
    ensures
        times(ps.push(p), x, y) == times(ps, x, y) + if p.holds(x, y) {
            1nat
        } else {
            0
        },
{
    assert(ps.push(p).drop_last() == ps);
}

/// Two of the rectangles that hold one pixel count twice.
proof fn lemma_times_two(ps: Seq<Rect>, i: int, j: int, x: int, y: int)
    requires
        0 <= i < j < ps.len(),
        ps[i].holds(x, y),
        ps[j].holds(x, y),
    ensures
        times(ps, x, y) >= 2,
    decreases ps.len(),
{
    if j == ps.len() - 1 {
        lemma_times_one(ps.drop_last(), i, x, y);
    } else {
        lemma_times_two(ps.drop_last(), i, j, x, y);
    }
}

proof fn lemma_times_one(ps: Seq<Rect>, i: int, x: int, y: int)
    requires
        0 <= i < ps.len(),
        ps[i].holds(x, y),
    ensures
        times(ps, x, y) >= 1,
    decreases ps.len(),
{
    if i < ps.len() - 1 {
        lemma_times_one(ps.drop_last(), i, x, y);
    }
}

/// Where no pixel is held more than once, no two of the rectangles share a
/// pixel.
pub proof fn counted_once_is_disjoint(ps: Seq<Rect>)
    requires
        forall|x: int, y: int| #[trigger] times(ps, x, y) <= 1,
    ensures
        forall|i: int, j: int, x: int, y: int|
            0 <= i < j < ps.len() ==> !(#[trigger] ps[i].holds(x, y) && #[trigger] ps[j].holds(
                x,
                y,
            )),
{
    assert forall|i: int, j: int, x: int, y: int| 0 <= i < j < ps.len() implies !(
    #[trigger] ps[i].holds(x, y) && #[trigger] ps[j].holds(x, y)) by {
        if ps[i].holds(x, y) && ps[j].holds(x, y) {
            lemma_times_two(ps, i, j, x, y);
            assert(times(ps, x, y) <= 1);
        }
    }
}

/// A point on the desktop.
#[derive(Clone, Copy, Debug, PartialEq, Eq, Structural)]
pub struct Point {
    pub x: i32,
    pub y: i32,
}

/// How far from the origin the cursor may be.
pub const CURSOR_REACH: i32 = 0x800_0000;

impl Point {
    /// The cursor may be there.
    pub open spec fn wf(self) -> bool {
        -CURSOR_REACH <= self.x <= CURSOR_REACH && -CURSOR_REACH <= self.y <= CURSOR_REACH
    }

    /// Whether the cursor may be there.
    pub fn is_near(&self) -> (r: bool)
        ensures
            r == self.wf(),
    {
        -CURSOR_REACH <= self.x && self.x <= CURSOR_REACH && -CURSOR_REACH <= self.y && self.y
            <= CURSOR_REACH
    }
}

/// The length that two spans share.
pub open spec fn shared(a: int, alen: int, b: int, blen: int) -> int {
    lesser(a + alen, b + blen) - greater(a, b)
}

/// A quarter or more of a note at `x`, `y` shows on the desktop `v`.
pub open spec fn shows(x: int, y: int, w: int, h: int, v: Rect) -> bool {
    let iw = shared(x, w, v.left as int, v.w());
    let ih = shared(y, h, v.top as int, v.h());
    iw > 0 && ih > 0 && iw * ih * 4 >= w * h
}

/// Where a note goes along one axis so that all of it shows, if it fits.
pub open spec fn pulled_in(x: int, w: int, lo: int, len: int) -> int {
    if len < w {
        lo
    } else {
        clamped(x, lo, lo + len - w)
    }
}

/// The place along one axis.
fn pull_in(x: i32, w: i32, lo: i32, hi: i32) -> (r: i32)
    requires
        w >= 0,
    ensures
        r == pulled_in(x as int, w as int, lo as int, hi - lo),
{
    let far: i64 = hi as i64 - w as i64;
    if far < lo as i64 || x < lo {
        lo
    } else if x as i64 > far {
        far as i32
    } else {
        x
    }
}

/// Where a saved note comes back on the desktop `v`: where it was, if enough of
/// it shows there, and otherwise pulled in as a whole.
pub fn clamp_to_desktop(x: i32, y: i32, w: i32, h: i32, v: Rect) -> (r: (i32, i32))
    requires
        w >= 0,
        h >= 0,
    ensures
        r == if shows(x as int, y as int, w as int, h as int, v) {
            (x, y)
        } else {
            (
                pulled_in(x as int, w as int, v.left as int, v.w()) as i32,
                pulled_in(y as int, h as int, v.top as int, v.h()) as i32,
            )
        },
{
    let iw: i64 = overlap(x, w, v.left, v.right);
    let ih: i64 = overlap(y, h, v.top, v.bottom);
    if iw > 0 && ih > 0 {
        assert(0 <= iw * ih <= 0x1_0000_0000 * 0x1_0000_0000) by (nonlinear_arith)
            requires
                0 < iw <= 0x1_0000_0000,
                0 < ih <= 0x1_0000_0000,
        ;
        assert(0 <= w * h <= 0x8000_0000 * 0x8000_0000) by (nonlinear_arith)
            requires
                0 <= w <= 0x8000_0000,
                0 <= h <= 0x8000_0000,
        ;
        if iw as i128 * ih as i128 * 4 >= w as i128 * h as i128 {
            return (x, y);
        }
    }
    (pull_in(x, w, v.left, v.right), pull_in(y, h, v.top, v.bottom))
}

/// How much a note shares with the desktop along one axis.
fn overlap(x: i32, w: i32, lo: i32, hi: i32) -> (r: i64)
    requires
        w >= 0,
    ensures
        r == shared(x as int, w as int, lo as int, hi - lo),
        r <= 0x1_0000_0000,
{
    let end: i64 = x as i64 + w as i64;
    let end: i64 = if end < hi as i64 {
        end
    } else {
        hi as i64
    };
    let start: i64 = if x > lo {
        x as i64
    } else {
        lo as i64
    };
    end - start
}

/// A note that fits on the desktop and comes back on it shows a quarter at
/// least, and all of it where it was moved.
pub proof fn restored_note_shows(x: int, y: int, w: int, h: int, v: Rect)
    requires
        0 < w <= v.w(),
        0 < h <= v.h(),
        !shows(x, y, w, h, v),
    ensures
        v.left <= pulled_in(x, w, v.left as int, v.w()),
        pulled_in(x, w, v.left as int, v.w()) + w <= v.right,
        v.top <= pulled_in(y, h, v.top as int, v.h()),
        pulled_in(y, h, v.top as int, v.h()) + h <= v.bottom,
{
}

/// Where a note is pulled in to is the nearest of the places that show all of it:
/// none of them is nearer along either axis.
pub proof fn pulled_in_no_further_than_needed(x: int, w: int, lo: int, len: int, z: int)
    requires
        w <= len,
        lo <= z,
        z + w <= lo + len,
    ensures
        ({
            let d = greater(z - x, x - z);
            x - d <= pulled_in(x, w, lo, len) <= x + d
        }),
{
}

/// A tenth, in units of 2^-27, and a fifth, in units of 2^-26, as single
/// precision holds them.
pub const TENTH: u32 = 13421773;

/// The part of a docked note that shows: a tenth of its width, or a fifth of it
/// while it peeks out.
pub open spec fn poke(w: nat, peek: bool) -> int {
    let p = single(single(w) * TENTH as nat);
    if peek {
        p as int / 0x400_0000
    } else {
        p as int / 0x800_0000
    }
}

/// Where a note of width `w` stands that is docked on the left edge (`side`
/// negative) or the right one.
pub open spec fn docked_left(side: int, w: int, peek: bool, wa: Rect) -> int {
    if side < 0 {
        wa.left - w + poke(w as nat, peek)
    } else {
        wa.right - poke(w as nat, peek)
    }
}

/// Where a note of width `w` stands all of which shows beside the edge that it
/// is docked on.
pub open spec fn out_left(side: int, w: int, wa: Rect) -> int {
    if side < 0 {
        wa.left as int
    } else {
        wa.right - w
    }
}

/// No more than all of a note shows.
pub proof fn lemma_poke(w: nat, peek: bool)
    ensures
        0 <= poke(w, peek) <= w,
{
    lemma_single_le(w);
    let n = single(w) * TENTH as nat;
    assert(n <= (2 * w) * 13421773) by (nonlinear_arith)
        requires
            n == single(w) * 13421773,
            single(w) <= 2 * w,
    ;
    lemma_single_le(n);
}

/// Where a docked note stands.
pub fn dock_x(side: i8, w: i32, peek: bool, wa: Rect) -> (r: i32)
    requires
        0 <= w <= REACH,
        wa.wf(),
    ensures
        r == docked_left(side as int, w as int, peek, wa),
        -0x4000_0000 <= r <= 0x4000_0000,
{
    let b: u64 = round_single(w as u64);
    assert(b * 13421773 <= 0x1_0000_0000 * 13421773);
    let p: u64 = round_single(b * TENTH as u64);
    let part: u64 = if peek {
        p / 0x400_0000
    } else {
        p / 0x800_0000
    };
    proof {
        lemma_poke(w as nat, peek);
    }
    if side < 0 {
        wa.left - w + part as i32
    } else {
        wa.right - part as i32
    }
}

/// The greater of two is one of them and no less than either, and so is the lesser
/// one of them and no more than either. What is brought into a range is in it, is left
/// alone where it was in it, and is as near as the range allows.
pub proof fn ranges_bound_as_little_as_they_can(a: int, b: int, v: int, lo: int, hi: int, z: int)
    ensures
        greater(a, b) >= a && greater(a, b) >= b && (greater(a, b) == a || greater(a, b) == b),
        lesser(a, b) <= a && lesser(a, b) <= b && (lesser(a, b) == a || lesser(a, b) == b),
        lo <= hi ==> lo <= clamped(v, lo, hi) <= hi,
        lo <= v <= hi ==> clamped(v, lo, hi) == v,
        lo <= z <= hi && z <= v ==> z <= clamped(v, lo, hi) <= v,
        lo <= z <= hi && v <= z ==> v <= clamped(v, lo, hi) <= z,
        hi < lo ==> clamped(v, lo, hi) == lo,
{
}

/// A rectangle is empty just where it holds no pixel, and what lies within another
/// has its pixels among the other's.
pub proof fn rectangles_are_their_pixels(r: Rect, q: Rect)
    ensures
        r.is_empty() <==> forall|x: int, y: int| !#[trigger] r.holds(x, y),
        r.within(q) ==> forall|x: int, y: int| #[trigger] r.holds(x, y) ==> q.holds(x, y),
        !r.is_empty() && (forall|x: int, y: int| #[trigger] r.holds(x, y) ==> q.holds(x, y))
            ==> r.within(q),
        forall|x: int, y: int| #[trigger]
            r.holds(x, y) <==> r.left <= x && x <= r.right - 1 && r.top <= y && y <= r.bottom - 1,
        r.w() == r.right - r.left && r.h() == r.bottom - r.top,
{
    if !r.is_empty() {
        assert(r.holds(r.left as int, r.top as int));
        assert(r.holds(r.right - 1, r.bottom - 1));
    }
}

/// A saved note shows enough of itself just where there is a part of it on the desktop,
/// from `(a, b)` to `(c, d)`, that is a quarter of the note or more.
pub proof fn enough_shows_where_a_quarter_does(x: int, y: int, w: int, h: int, v: Rect)
    requires
        0 < w,
        0 < h,
    ensures
        forall|a: int, b: int, c: int, d: int|
            x <= a < c <= x + w && y <= b < d <= y + h && v.left <= a && c <= v.right && v.top <= b
                && d <= v.bottom && #[trigger] area(c - a, d - b) * 4 >= w * h ==> shows(
                x,
                y,
                w,
                h,
                v,
            ),
        shows(x, y, w, h, v) ==> exists|a: int, b: int, c: int, d: int|
            x <= a < c <= x + w && y <= b < d <= y + h && v.left <= a && c <= v.right && v.top <= b
                && d <= v.bottom && #[trigger] area(c - a, d - b) * 4 >= w * h,
        v.left <= x && x + w <= v.right && v.top <= y && y + h <= v.bottom ==> shows(x, y, w, h, v),
        x + w <= v.left || v.right <= x || y + h <= v.top || v.bottom <= y ==> !shows(x, y, w, h, v),
{
    let iw = shared(x, w, v.left as int, v.w());
    let ih = shared(y, h, v.top as int, v.h());
    assert forall|a: int, b: int, c: int, d: int|
        x <= a < c <= x + w && y <= b < d <= y + h && v.left <= a && c <= v.right && v.top <= b
            && d <= v.bottom && #[trigger] area(c - a, d - b) * 4 >= w * h implies shows(
        x,
        y,
        w,
        h,
        v,
    ) by {
        let p = c - a;
        let q = d - b;
        assert(iw * ih >= p * q) by (nonlinear_arith)
            requires
                0 < p <= iw,
                0 < q <= ih,
        ;
        assert(iw * ih * 4 == 4 * (iw * ih)) by (nonlinear_arith);
    }
    if shows(x, y, w, h, v) {
        let a = greater(x, v.left as int);
        let b = greater(y, v.top as int);
        assert(iw * ih * 4 == 4 * (iw * ih)) by (nonlinear_arith);
        assert(area((a + iw) - a, (b + ih) - b) == iw * ih);
        assert(x <= a < a + iw <= x + w && y <= b < b + ih <= y + h);
    }
    if v.left <= x && x + w <= v.right && v.top <= y && y + h <= v.bottom {
        assert(iw == w && ih == h);
        assert(w * h * 4 >= w * h) by (nonlinear_arith)
            requires
                w > 0,
                h > 0,
        ;
    }
}

/// The size of an area.
pub open spec fn area(w: int, h: int) -> int {
    w * h
}

/// Where a note does not fit along an axis it starts at the near edge.
pub proof fn a_note_too_large_starts_at_the_edge(x: int, w: int, lo: int, len: int)
    ensures
        len < w ==> pulled_in(x, w, lo, len) == lo,
        0 <= w <= len && lo <= x && x + w <= lo + len ==> pulled_in(x, w, lo, len) == x,
        0 <= w <= len ==> lo <= pulled_in(x, w, lo, len) && pulled_in(x, w, lo, len) + w <= lo
            + len,
{
}

/// A docked note shows a tenth of its width, and a fifth while it peeks out, to
/// within a pixel below.
pub proof fn a_tenth_shows(w: nat)
    requires
        w <= 0x20000,
    ensures
        10 * poke(w, false) <= w <= 10 * poke(w, false) + 10,
        5 * poke(w, true) <= w <= 5 * poke(w, true) + 5,
        2 * poke(w, false) <= poke(w, true) <= 2 * poke(w, false) + 1,
{
    crate::scale::lemma_single_small(w);
    let n = w * 13421773;
    crate::scale::rounding_is_close(n);
    let p = single(n);
    assert(single(w) * TENTH as nat == n);
    assert(10 * n == w * 134217730);
}

/// A docked note stands over the edge that it is docked on: beside the left edge its
/// right part shows, beside the right edge its left part. All of it stands outside
/// but for that.
pub proof fn docked_notes_stand_over_their_edge(side: int, w: int, peek: bool, wa: Rect)
    requires
        0 <= w <= 0x20000,
        side != 0,
    ensures
        ({
            let x = docked_left(side, w, peek, wa);
            let part = if side < 0 {
                x + w - wa.left
            } else {
                wa.right - x
            };
            &&& 0 <= part <= w
            &&& !peek ==> 10 * part <= w <= 10 * part + 10
            &&& peek ==> 5 * part <= w <= 5 * part + 5
        }),
        side < 0 ==> out_left(side, w, wa) == wa.left,
        side > 0 ==> out_left(side, w, wa) + w == wa.right,
{
    a_tenth_shows(w as nat);
    lemma_poke(w as nat, peek);
}

} // verus!
