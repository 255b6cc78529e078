//! Notes docked on the left and the right edge of the work area as slivers.

use vstd::prelude::*;
use crate::card::cards_ok;
use crate::card::lemma_update;
use crate::card::Card;
use crate::geometry::clamped;
use crate::geometry::dock_x;
use crate::geometry::docked_left;
use crate::geometry::greater;
use crate::geometry::Point;
use crate::geometry::Rect;
use crate::metrics::modest;

verus! {

/// The rows that a note takes, or will take once it has arrived.
pub open spec fn band(c: Card) -> (int, int) {
    let top = match c.pos_to {
        Some(p) => p.y as int,
        None => c.rect.top as int,
    };
    (top, top + c.rect.h())
}

/// The bands come in this order.
pub open spec fn before(a: (int, int), b: (int, int)) -> bool {
    a.0 < b.0 || (a.0 == b.0 && a.1 < b.1)
}

/// A band put into its place among ordered ones.
pub open spec fn placed(s: Seq<(int, int)>, b: (int, int)) -> Seq<(int, int)>
    decreases s.len(),
{
    if s.len() == 0 || !before(b, s.last()) {
        s.push(b)
    } else {
        placed(s.drop_last(), b).push(s.last())
    }
}

/// A band as it is, or seen from below: upside down.
pub open spec fn facing(b: (int, int), up: bool) -> (int, int) {
    if up {
        (-b.1, -b.0)
    } else {
        b
    }
}

/// The bands of the first `n` windows that are docked on this side, but for
/// window `idx`, in order, as they are or seen from below.
pub open spec fn bands(cards: Seq<Card>, n: int, idx: int, side: i8, up: bool) -> Seq<(int, int)>
    decreases n,
{
    if n <= 0 {
        Seq::empty()
    } else if n - 1 != idx && cards[n - 1].note() && cards[n - 1].docked == side {
        placed(bands(cards, n - 1, idx, side, up), facing(band(cards[n - 1]), up))
    } else {
        bands(cards, n - 1, idx, side, up)
    }
}

/// Where a note of height `h` ends up that slides down past the first `n`
/// bands.
pub open spec fn slid(s: Seq<(int, int)>, n: int, y: int, h: int, gap: int) -> int
    decreases n,
{
    if n <= 0 {
        y
    } else {
        let z = slid(s, n - 1, y, h, gap);
        if z < s[n - 1].1 && z + h > s[n - 1].0 {
            s[n - 1].1 + gap
        } else {
            z
        }
    }
}

/// The bands are in order.
pub open spec fn in_order(s: Seq<(int, int)>) -> bool {
    forall|i: int, j: int| 0 <= i < j < s.len() ==> !before(#[trigger] s[j], #[trigger] s[i])
}

proof fn lemma_placed(s: Seq<(int, int)>, b: (int, int))
    requires
        in_order(s),
    ensures
        in_order(placed(s, b)),
        placed(s, b).len() == s.len() + 1,
        forall|k: int|
            0 <= k < placed(s, b).len() ==> placed(s, b)[k] == b || s.contains(
                #[trigger] placed(s, b)[k],
            ),
    decreases s.len(),
{
    let p = placed(s, b);
    if s.len() == 0 || !before(b, s.last()) {
        assert forall|i: int, j: int| 0 <= i < j < p.len() implies !before(
            #[trigger] p[j],
            #[trigger] p[i],
        ) by {
            if j == s.len() {
                assert(!before(b, s.last()));
                if i < s.len() - 1 {
                    assert(!before(s[s.len() - 1], s[i]));
                }
            } else {
                assert(!before(s[j], s[i]));
            }
        }
        assert forall|k: int| 0 <= k < p.len() implies p[k] == b || s.contains(
            #[trigger] p[k],
        ) by {
            if k < s.len() {
                assert(p[k] == s[k]);
            }
        }
    } else {
        let d = s.drop_last();
        assert forall|i: int, j: int| 0 <= i < j < d.len() implies !before(
            #[trigger] d[j],
            #[trigger] d[i],
        ) by {
            assert(!before(s[j], s[i]));
        }
        lemma_placed(d, b);
        let q = placed(d, b);
        assert forall|k: int| 0 <= k < q.len() implies !before(s.last(), #[trigger] q[k]) && (q[k]
            == b || s.contains(q[k])) by {
            if q[k] != b {
                assert(d.contains(q[k]));
                let m = choose|m: int| 0 <= m < d.len() && d[m] == q[k];
                assert(!before(s[s.len() - 1], s[m]));
                assert(s[m] == q[k]);
            }
        }
        assert forall|i: int, j: int| 0 <= i < j < p.len() implies !before(
            #[trigger] p[j],
            #[trigger] p[i],
        ) by {
            if j == q.len() {
                assert(p[i] == q[i]);
            } else {
                assert(!before(q[j], q[i]));
            }
        }
        assert forall|k: int| 0 <= k < p.len() implies p[k] == b || s.contains(
            #[trigger] p[k],
        ) by {
            if k < q.len() {
                assert(p[k] == q[k]);
            } else {
                assert(p[k] == s[s.len() - 1]);
            }
        }
    }
}

proof fn lemma_bands_in_order(cards: Seq<Card>, n: int, idx: int, side: i8, up: bool)
    ensures
        in_order(bands(cards, n, idx, side, up)),
    decreases n,
{
    if n > 0 {
        lemma_bands_in_order(cards, n - 1, idx, side, up);
        lemma_placed(bands(cards, n - 1, idx, side, up), facing(band(cards[n - 1]), up));
    }
}

/// A note that slid past ordered bands overlaps none of them.
pub proof fn slid_note_overlaps_none(s: Seq<(int, int)>, n: int, y: int, h: int, gap: int)
    requires
        in_order(s),
        0 <= n <= s.len(),
        gap >= 0,
        h >= 0,
    ensures
        forall|k: int|
            0 <= k < n ==> slid(s, n, y, h, gap) >= (#[trigger] s[k]).1 || slid(s, n, y, h, gap) + h
                <= s[k].0,
        slid(s, n, y, h, gap) >= y,
    decreases n,
{
    if n > 0 {
        slid_note_overlaps_none(s, n - 1, y, h, gap);
        let z = slid(s, n - 1, y, h, gap);
        let t = slid(s, n, y, h, gap);
        assert forall|k: int| 0 <= k < n implies t >= (#[trigger] s[k]).1 || t + h <= s[k].0 by {
            if k < n - 1 {
                assert(!before(s[n - 1], s[k]));
                if z + h <= s[k].0 {
                    assert(z + h <= s[n - 1].0);
                }
            }
        }
    }
}

/// A note that slides with no gap goes no further than the first clear row.
proof fn lemma_slid_least(s: Seq<(int, int)>, n: int, y: int, h: int, z: int)
    requires
        0 <= n <= s.len(),
        y <= z,
        forall|k: int| 0 <= k < n ==> z >= (#[trigger] s[k]).1 || z + h <= s[k].0,
    ensures
        slid(s, n, y, h, 0) <= z,
    decreases n,
{
    if n > 0 {
        lemma_slid_least(s, n - 1, y, h, z);
        assert(z >= s[n - 1].1 || z + h <= s[n - 1].0);
    }
}

/// A row in which a note of height `h` lies within the work area.
pub open spec fn fits(y: int, h: int, wa: Rect) -> bool {
    wa.top <= y && y + h <= wa.bottom
}

/// The row itself, or the nearest one within the work area.
pub open spec fn inside_row(y: int, h: int, wa: Rect) -> int {
    clamped(y, wa.top as int, greater(wa.bottom - h, wa.top as int))
}

/// The row that window `idx` gets to from `y` when it slides down past the notes
/// that are docked on this side, or up past them.
pub open spec fn row_past(
    cards: Seq<Card>,
    idx: int,
    side: i8,
    y: int,
    gap: int,
    up: bool,
) -> int {
    let h = cards[idx].rect.h();
    let s = bands(cards, cards.len() as int, idx, side, up);
    if up {
        -slid(s, s.len() as int, -(y + h), h, gap) - h
    } else {
        slid(s, s.len() as int, y, h, gap)
    }
}

/// The row of a note that docks: its own, or past the others on its side, down
/// or else up, with a gap between the notes or, where that leaves no row within
/// the work area, with none. Its own row where the edge is full.
pub open spec fn dock_row(cards: Seq<Card>, idx: int, side: i8, wa: Rect, gap: int) -> int {
    let r = cards[idx].rect;
    let y = inside_row(r.top as int, r.h(), wa);
    if fits(row_past(cards, idx, side, y, gap, false), r.h(), wa) {
        row_past(cards, idx, side, y, gap, false)
    } else if fits(row_past(cards, idx, side, y, gap, true), r.h(), wa) {
        row_past(cards, idx, side, y, gap, true)
    } else if fits(row_past(cards, idx, side, y, 0, false), r.h(), wa) {
        row_past(cards, idx, side, y, 0, false)
    } else if fits(row_past(cards, idx, side, y, 0, true), r.h(), wa) {
        row_past(cards, idx, side, y, 0, true)
    } else {
        y
    }
}

/// A note gliding to its place on an edge.
pub open spec fn docked_card(cards: Seq<Card>, idx: int, side: i8, wa: Rect, gap: int) -> Card {
    let c = cards[idx];
    Card {
        docked: side,
        revealed: false,
        free: true,
        pos_to: Some(
            Point {
                x: docked_left(side as int, c.rect.w(), false, wa) as i32,
                y: dock_row(cards, idx, side, wa, gap) as i32,
            },
        ),
        ..c
    }
}

/// The views of bands.
spec fn band_views(v: Seq<(i64, i64)>) -> Seq<(int, int)> {
    v.map_values(|b: (i64, i64)| (b.0 as int, b.1 as int))
}

/// Putting a band before all later ones is putting it into its place.
proof fn lemma_insert_placed(s: Seq<(int, int)>, k: int, b: (int, int))
    requires
        0 <= k <= s.len(),
        forall|j: int| k <= j < s.len() ==> before(b, #[trigger] s[j]),
        k > 0 ==> !before(b, s[k - 1]),
    ensures
        s.insert(k, b) == placed(s, b),
    decreases s.len(),
{
    if k == s.len() {
        assert(s.insert(k, b) == s.push(b));
    } else {
        let d = s.drop_last();
        assert(before(b, s[s.len() - 1]));
        assert forall|j: int| k <= j < d.len() implies before(b, #[trigger] d[j]) by {
            assert(d[j] == s[j]);
        }
        lemma_insert_placed(d, k, b);
        assert(s.insert(k, b) == d.insert(k, b).push(s.last()));
    }
}

/// The bands of the notes docked on a side, in order, as they are or seen from
/// below.
fn side_bands(cards: &Vec<Card>, idx: usize, side: i8, up: bool) -> (out: Vec<(i64, i64)>)
    requires
        cards_ok(cards@),
    ensures
        band_views(out@) == bands(cards@, cards@.len() as int, idx as int, side, up),
        forall|k: int|
            0 <= k < out@.len() ==> -0x8000_0000 <= (#[trigger] out@[k]).0 <= 0x8000_0000
                && -0x8000_0000 <= out@[k].1 <= 0x8000_0000,
{
    let mut out: Vec<(i64, i64)> = Vec::new();
    let mut i: usize = 0;
    assert(band_views(out@) =~= Seq::<(int, int)>::empty());
    while i < cards.len()
        invariant
            i <= cards@.len(),
            cards_ok(cards@),
            band_views(out@) == bands(cards@, i as int, idx as int, side, up),
            forall|k: int|
                0 <= k < out@.len() ==> -0x8000_0000 <= (#[trigger] out@[k]).0 <= 0x8000_0000
                    && -0x8000_0000 <= out@[k].1 <= 0x8000_0000,
        decreases cards@.len() - i,
    {
        let c = cards[i];
        assert(cards@[i as int].wf());
        if i != idx && c.is_note() && c.docked == side {
            let top: i64 = match c.pos_to {
                Some(p) => p.y as i64,
                None => c.rect.top as i64,
            };
            let foot: i64 = top + c.rect.height() as i64;
            let b: (i64, i64) = if up {
                (-foot, -top)
            } else {
                (top, foot)
            };
            let ghost s = band_views(out@);
            let mut k: usize = out.len();
            while k > 0 && (b.0 < out[k - 1].0 || (b.0 == out[k - 1].0 && b.1 < out[k - 1].1))
                invariant
                    k <= out@.len(),
                    s == band_views(out@),
                    forall|j: int|
                        k <= j < s.len() ==> before((b.0 as int, b.1 as int), #[trigger] s[j]),
                decreases k,
            {
                k = k - 1;
            }
            proof {
                lemma_insert_placed(s, k as int, (b.0 as int, b.1 as int));
            }
            let ghost v = out@;
            out.insert(k, b);
            assert(band_views(out@) =~= s.insert(k as int, (b.0 as int, b.1 as int)));
        }
        i = i + 1;
    }
    out
}

/// Slides a note past bands in order.
fn slide(s: &Vec<(i64, i64)>, from: i64, h: i32, gap: i32) -> (y: i64)
    requires
        -0x8000_0000 <= from <= 0x8000_0000,
        modest(h as int),
        modest(gap as int),
        forall|k: int|
            0 <= k < s@.len() ==> -0x8000_0000 <= (#[trigger] s@[k]).0 <= 0x8000_0000
                && -0x8000_0000 <= s@[k].1 <= 0x8000_0000,
    ensures
        y == slid(band_views(s@), s@.len() as int, from as int, h as int, gap as int),
        -0x9000_0000 <= y <= 0x9000_0000,
{
    let ghost bs = band_views(s@);
    let mut y: i64 = from;
    let mut k: usize = 0;
    while k < s.len()
        invariant
            k <= s@.len(),
            bs == band_views(s@),
            0 <= h <= 0x20000,
            0 <= gap <= 0x20000,
            y == slid(bs, k as int, from as int, h as int, gap as int),
            -0x9000_0000 <= y <= 0x9000_0000,
            forall|k: int|
                0 <= k < s@.len() ==> -0x8000_0000 <= (#[trigger] s@[k]).0 <= 0x8000_0000
                    && -0x8000_0000 <= s@[k].1 <= 0x8000_0000,
        decreases s@.len() - k,
    {
        let (bt, bb) = s[k];
        assert(s@[k as int].1 <= 0x8000_0000);
        assert(bs[k as int] == (bt as int, bb as int));
        if y < bb && y + h as i64 > bt {
            y = bb + gap as i64;
        }
        k = k + 1;
    }
    y
}

/// The row of a note that docks.
fn row_for(cards: &Vec<Card>, idx: usize, side: i8, wa: Rect, gap: i32) -> (row: i32)
    requires
        cards_ok(cards@),
        idx < cards@.len(),
        wa.wf(),
        modest(gap as int),
    ensures
        row == dock_row(cards@, idx as int, side, wa, gap as int),
        wa.top <= row <= greater(wa.bottom as int, wa.top as int),
{
    assert(cards@[idx as int].wf());
    let r = cards[idx].rect;
    let h: i32 = r.height();
    let lo: i32 = wa.top;
    let foot: i32 = wa.bottom - h;
    let hi: i32 = if foot >= lo {
        foot
    } else {
        lo
    };
    let y: i32 = if r.top < lo {
        lo
    } else if r.top > hi {
        hi
    } else {
        r.top
    };
    let s = side_bands(cards, idx, side, false);
    let down: i64 = slide(&s, y as i64, h, gap);
    if lo as i64 <= down && down <= foot as i64 {
        return down as i32;
    }
    let t = side_bands(cards, idx, side, true);
    let from: i64 = -(y as i64 + h as i64);
    let up: i64 = -slide(&t, from, h, gap) - h as i64;
    if lo as i64 <= up && up <= foot as i64 {
        return up as i32;
    }
    let down: i64 = slide(&s, y as i64, h, 0);
    if lo as i64 <= down && down <= foot as i64 {
        return down as i32;
    }
    let up: i64 = -slide(&t, from, h, 0) - h as i64;
    if lo as i64 <= up && up <= foot as i64 {
        return up as i32;
    }
    y
}

/// Docks a note on the left edge (`side` negative) or the right one: it glides
/// there as a sliver, past the notes that are docked on that side already. False
/// where the window is no note or there is no side.
pub fn dock_note(cards: &mut Vec<Card>, idx: usize, side: i8, wa: Rect, gap: i32) -> (r: bool)
    requires
        cards_ok(old(cards)@),
        wa.wf(),
        modest(gap as int),
    ensures
        cards_ok(final(cards)@),
        r == (idx < old(cards)@.len() && old(cards)@[idx as int].note() && side != 0),
        final(cards)@ == if r {
            old(cards)@.update(
                idx as int,
                docked_card(old(cards)@, idx as int, side, wa, gap as int),
            )
        } else {
            old(cards)@
        },
{
    if idx >= cards.len() || !cards[idx].is_note() || side == 0 {
        return false;
    }
    let mut c: Card = cards[idx];
    assert(cards@[idx as int].wf());
    let y: i32 = row_for(cards, idx, side, wa, gap);
    let x: i32 = dock_x(side, c.rect.width(), false, wa);
    c.docked = side;
    c.revealed = false;
    c.free = true;
    c.pos_to = Some(Point { x, y });
    proof {
        lemma_update(cards@, idx as int, c);
    }
    cards.set(idx, c);
    true
}

proof fn lemma_placed_contains(s: Seq<(int, int)>, b: (int, int), x: (int, int))
    requires
        x == b || s.contains(x),
    ensures
        placed(s, b).contains(x),
    decreases s.len(),
{
    let p = placed(s, b);
    if s.len() == 0 || !before(b, s.last()) {
        if x == b {
            assert(p[s.len() as int] == b);
        } else {
            let m = choose|m: int| 0 <= m < s.len() && s[m] == x;
            assert(p[m] == x);
        }
    } else {
        let d = s.drop_last();
        let q = placed(d, b);
        if x == s.last() {
            assert(p[q.len() as int] == x);
        } else {
            if x != b {
                let m = choose|m: int| 0 <= m < s.len() && s[m] == x;
                assert(d[m] == x);
            }
            lemma_placed_contains(d, b, x);
            let m = choose|m: int| 0 <= m < q.len() && q[m] == x;
            assert(p[m] == x);
        }
    }
}

proof fn lemma_bands_contain(cards: Seq<Card>, n: int, idx: int, side: i8, up: bool, i: int)
    requires
        0 <= i < n <= cards.len(),
        i != idx,
        cards[i].note(),
        cards[i].docked == side,
    ensures
        bands(cards, n, idx, side, up).contains(facing(band(cards[i]), up)),
    decreases n,
{
    let s = bands(cards, n - 1, idx, side, up);
    let b = facing(band(cards[n - 1]), up);
    if i < n - 1 {
        lemma_bands_contain(cards, n - 1, idx, side, up, i);
        if n - 1 != idx && cards[n - 1].note() && cards[n - 1].docked == side {
            lemma_placed_contains(s, b, facing(band(cards[i]), up));
        }
    } else {
        lemma_placed_contains(s, b, b);
    }
}

/// A note of height `h` in row `y` overlaps no other note that is docked on this
/// side.
pub open spec fn row_clear(cards: Seq<Card>, idx: int, side: i8, y: int, h: int) -> bool {
    forall|i: int|
        0 <= i < cards.len() && i != idx && cards[i].note() && cards[i].docked == side ==> y
            >= band(#[trigger] cards[i]).1 || y + h <= band(cards[i]).0
}

/// Every band is that of a note docked on this side.
proof fn lemma_bands_are_docked(
    cards: Seq<Card>,
    n: int,
    idx: int,
    side: i8,
    up: bool,
    k: int,
) -> (i: int)
    requires
        0 <= n <= cards.len(),
        0 <= k < bands(cards, n, idx, side, up).len(),
    ensures
        0 <= i < n,
        i != idx,
        cards[i].note(),
        cards[i].docked == side,
        bands(cards, n, idx, side, up)[k] == facing(band(cards[i]), up),
    decreases n,
{
    let s = bands(cards, n - 1, idx, side, up);
    if n - 1 != idx && cards[n - 1].note() && cards[n - 1].docked == side {
        let b = facing(band(cards[n - 1]), up);
        lemma_bands_in_order(cards, n - 1, idx, side, up);
        lemma_placed(s, b);
        let x = placed(s, b)[k];
        if x == b {
            n - 1
        } else {
            let m = choose|m: int| 0 <= m < s.len() && s[m] == x;
            lemma_bands_are_docked(cards, n - 1, idx, side, up, m)
        }
    } else {
        lemma_bands_are_docked(cards, n - 1, idx, side, up, k)
    }
}

/// A note that slid past the others, down or up, is clear of them.
proof fn lemma_row_past(cards: Seq<Card>, idx: int, side: i8, y: int, gap: int, up: bool)
    requires
        0 <= idx < cards.len(),
        cards[idx].rect.h() >= 0,
        gap >= 0,
    ensures
        row_clear(cards, idx, side, row_past(cards, idx, side, y, gap, up), cards[idx].rect.h()),
        up ==> row_past(cards, idx, side, y, gap, up) <= y,
        !up ==> row_past(cards, idx, side, y, gap, up) >= y,
{
    let n = cards.len() as int;
    let h = cards[idx].rect.h();
    let s = bands(cards, n, idx, side, up);
    let from = if up {
        -(y + h)
    } else {
        y
    };
    let row = row_past(cards, idx, side, y, gap, up);
    lemma_bands_in_order(cards, n, idx, side, up);
    slid_note_overlaps_none(s, s.len() as int, from, h, gap);
    assert forall|i: int|
        0 <= i < n && i != idx && cards[i].note() && cards[i].docked == side implies row >= band(
        #[trigger] cards[i],
    ).1 || row + h <= band(cards[i]).0 by {
        lemma_bands_contain(cards, n, idx, side, up, i);
        let k = choose|k: int| 0 <= k < s.len() && s[k] == facing(band(cards[i]), up);
        assert(s[k] == facing(band(cards[i]), up));
    }
}

/// A clear row is found, below or above, by sliding with no gap.
proof fn lemma_row_found(cards: Seq<Card>, idx: int, side: i8, y: int, z: int)
    requires
        0 <= idx < cards.len(),
        row_clear(cards, idx, side, z, cards[idx].rect.h()),
    ensures
        y <= z ==> row_past(cards, idx, side, y, 0, false) <= z,
        y >= z ==> row_past(cards, idx, side, y, 0, true) >= z,
{
    let n = cards.len() as int;
    let h = cards[idx].rect.h();
    if y <= z {
        let s = bands(cards, n, idx, side, false);
        assert forall|k: int| 0 <= k < s.len() implies z >= (#[trigger] s[k]).1 || z + h
            <= s[k].0 by {
            let i = lemma_bands_are_docked(cards, n, idx, side, false, k);
            assert(z >= band(cards[i]).1 || z + h <= band(cards[i]).0);
        }
        lemma_slid_least(s, s.len() as int, y, h, z);
    }
    if y >= z {
        let s = bands(cards, n, idx, side, true);
        let w = -(z + h);
        assert forall|k: int| 0 <= k < s.len() implies w >= (#[trigger] s[k]).1 || w + h
            <= s[k].0 by {
            let i = lemma_bands_are_docked(cards, n, idx, side, true, k);
            assert(z >= band(cards[i]).1 || z + h <= band(cards[i]).0);
        }
        lemma_slid_least(s, s.len() as int, -(y + h), h, w);
    }
}

/// Wherever the work area has a row `z` in which a docking note overlaps no other
/// note on its side, the row that it takes is such a row too.
pub proof fn docked_notes_stand_clear(
    cards: Seq<Card>,
    idx: int,
    side: i8,
    wa: Rect,
    gap: int,
    z: int,
)
    requires
        cards_ok(cards),
        0 <= idx < cards.len(),
        gap >= 0,
        fits(z, cards[idx].rect.h(), wa),
        row_clear(cards, idx, side, z, cards[idx].rect.h()),
    ensures
        row_clear(cards, idx, side, dock_row(cards, idx, side, wa, gap), cards[idx].rect.h()),
        fits(dock_row(cards, idx, side, wa, gap), cards[idx].rect.h(), wa),
{
    let r = cards[idx].rect;
    assert(cards[idx].wf());
    let y = inside_row(r.top as int, r.h(), wa);
    lemma_row_past(cards, idx, side, y, gap, false);
    lemma_row_past(cards, idx, side, y, gap, true);
    lemma_row_past(cards, idx, side, y, 0, false);
    lemma_row_past(cards, idx, side, y, 0, true);
    lemma_row_found(cards, idx, side, y, z);
}

/// A note that docks goes no higher than it stood, but where the work area or
/// the notes below it leave it no row.
pub proof fn docking_slides_down_first(cards: Seq<Card>, idx: int, side: i8, wa: Rect, gap: int)
    requires
        cards_ok(cards),
        0 <= idx < cards.len(),
        gap >= 0,
        ({
            let y = inside_row(cards[idx].rect.top as int, cards[idx].rect.h(), wa);
            fits(row_past(cards, idx, side, y, gap, false), cards[idx].rect.h(), wa)
        }),
    ensures
        dock_row(cards, idx, side, wa, gap) >= inside_row(
            cards[idx].rect.top as int,
            cards[idx].rect.h(),
            wa,
        ),
        row_clear(cards, idx, side, dock_row(cards, idx, side, wa, gap), cards[idx].rect.h()),
{
    assert(cards[idx].wf());
    let y = inside_row(cards[idx].rect.top as int, cards[idx].rect.h(), wa);
    lemma_row_past(cards, idx, side, y, gap, false);
}

/// The row nearest to where a note stood, of those that lie within the work area.
pub proof fn a_row_inside_is_the_nearest(y: int, h: int, wa: Rect, z: int)
    requires
        0 <= h <= wa.bottom - wa.top,
    ensures
        wa.top <= inside_row(y, h, wa) && inside_row(y, h, wa) + h <= wa.bottom,
        wa.top <= y && y + h <= wa.bottom ==> inside_row(y, h, wa) == y,
        wa.top <= z && z + h <= wa.bottom && z <= y ==> z <= inside_row(y, h, wa) <= y,
        wa.top <= z && z + h <= wa.bottom && y <= z ==> y <= inside_row(y, h, wa) <= z,
{
}

proof fn lemma_slid_stays(s: Seq<(int, int)>, n: int, y: int, h: int, gap: int)
    requires
        0 <= n <= s.len(),
        forall|k: int| 0 <= k < n ==> y >= (#[trigger] s[k]).1 || y + h <= s[k].0,
    ensures
        slid(s, n, y, h, gap) == y,
    decreases n,
{
    if n > 0 {
        lemma_slid_stays(s, n - 1, y, h, gap);
        assert(y >= s[n - 1].1 || y + h <= s[n - 1].0);
    }
}

proof fn lemma_slid_rests(s: Seq<(int, int)>, n: int, y: int, h: int, gap: int)
    requires
        0 <= n <= s.len(),
    ensures
        slid(s, n, y, h, gap) == y || exists|k: int|
            0 <= k < n && slid(s, n, y, h, gap) == (#[trigger] s[k]).1 + gap,
    decreases n,
{
    if n > 0 {
        lemma_slid_rests(s, n - 1, y, h, gap);
        let z = slid(s, n - 1, y, h, gap);
        if z < s[n - 1].1 && z + h > s[n - 1].0 {
            assert(slid(s, n, y, h, gap) == s[n - 1].1 + gap);
        } else if z != y {
            let k = choose|k: int| 0 <= k < n - 1 && z == (#[trigger] s[k]).1 + gap;
            assert(s[k].1 + gap == z);
        }
    }
}

/// A note docks in the row where it stands, if that lies within the work area and
/// overlaps no note that is docked on that side. If it does not lie there, the same
/// holds of the nearest row that does.
pub proof fn a_clear_row_is_kept(cards: Seq<Card>, idx: int, side: i8, wa: Rect, gap: int)
    requires
        cards_ok(cards),
        0 <= idx < cards.len(),
        gap >= 0,
        cards[idx].rect.h() <= wa.bottom - wa.top,
        row_clear(
            cards,
            idx,
            side,
            inside_row(cards[idx].rect.top as int, cards[idx].rect.h(), wa),
            cards[idx].rect.h(),
        ),
    ensures
        dock_row(cards, idx, side, wa, gap) == inside_row(
            cards[idx].rect.top as int,
            cards[idx].rect.h(),
            wa,
        ),
        wa.top <= cards[idx].rect.top && cards[idx].rect.bottom <= wa.bottom ==> dock_row(
            cards,
            idx,
            side,
            wa,
            gap,
        ) == cards[idx].rect.top,
{
    let n = cards.len() as int;
    let h = cards[idx].rect.h();
    assert(cards[idx].wf());
    let y = inside_row(cards[idx].rect.top as int, h, wa);
    let s = bands(cards, n, idx, side, false);
    assert forall|k: int| 0 <= k < s.len() implies y >= (#[trigger] s[k]).1 || y + h <= s[k].0 by {
        let i = lemma_bands_are_docked(cards, n, idx, side, false, k);
        assert(y >= band(cards[i]).1 || y + h <= band(cards[i]).0);
    }
    lemma_slid_stays(s, s.len() as int, y, h, gap);
}

/// A note that cannot stay in its row and slides down comes to rest a gap below a note
/// that is docked on that side.
pub proof fn a_note_slides_to_a_gap_below_another(
    cards: Seq<Card>,
    idx: int,
    side: i8,
    wa: Rect,
    gap: int,
)
    requires
        cards_ok(cards),
        0 <= idx < cards.len(),
        gap >= 0,
        dock_row(cards, idx, side, wa, gap) > inside_row(
            cards[idx].rect.top as int,
            cards[idx].rect.h(),
            wa,
        ),
    ensures
        exists|i: int|
            0 <= i < cards.len() && i != idx && (#[trigger] cards[i]).note() && cards[i].docked
                == side && (dock_row(cards, idx, side, wa, gap) == band(cards[i]).1 + gap
                || dock_row(cards, idx, side, wa, gap) == band(cards[i]).1),
{
    let n = cards.len() as int;
    let h = cards[idx].rect.h();
    assert(cards[idx].wf());
    let y = inside_row(cards[idx].rect.top as int, h, wa);
    let s = bands(cards, n, idx, side, false);
    lemma_row_past(cards, idx, side, y, gap, true);
    lemma_row_past(cards, idx, side, y, 0, true);
    lemma_slid_rests(s, s.len() as int, y, h, gap);
    lemma_slid_rests(s, s.len() as int, y, h, 0);
    let row = dock_row(cards, idx, side, wa, gap);
    if row == row_past(cards, idx, side, y, gap, false) {
        let k = choose|k: int| 0 <= k < s.len() && row == (#[trigger] s[k]).1 + gap;
        let i = lemma_bands_are_docked(cards, n, idx, side, false, k);
        assert(cards[i].note());
    } else {
        let k = choose|k: int| 0 <= k < s.len() && row == (#[trigger] s[k]).1 + 0;
        let i = lemma_bands_are_docked(cards, n, idx, side, false, k);
        assert(cards[i].note());
    }
}

/// The rows that a note takes begin at its top, or at that of the place that it glides
/// to, and are as many as it is high.
pub proof fn the_rows_of_a_note(c: Card)
    ensures
        band(c).1 - band(c).0 == c.rect.bottom - c.rect.top,
        c.pos_to is None ==> band(c).0 == c.rect.top,
        c.pos_to matches Some(p) ==> band(c).0 == p.y,
{
}

/// A docked note belongs to the side it was docked on, is out of the stack and not
/// slid out, and glides to where a tenth of it shows. All else stays.
pub proof fn docking_leaves_a_sliver(cards: Seq<Card>, idx: int, side: i8, wa: Rect, gap: int)
    requires
        cards_ok(cards),
        0 <= idx < cards.len(),
        side != 0,
        wa.wf(),
        modest(gap),
        cards[idx].rect.w() >= 0,
    ensures
        ({
            let c = cards[idx];
            let d = docked_card(cards, idx, side, wa, gap);
            let w = c.rect.right - c.rect.left;
            let x = d.pos_to->Some_0.x;
            let part = if side < 0 {
                x + w - wa.left
            } else {
                wa.right - x
            };
            &&& d.pos_to is Some
            &&& 10 * part <= w <= 10 * part + 10
            &&& d.docked == side && d.free && !d.revealed
            &&& d == (Card {
                docked: d.docked,
                free: d.free,
                revealed: d.revealed,
                pos_to: d.pos_to,
                ..c
            })
        }),
{
    assert(cards[idx].wf());
    crate::geometry::docked_notes_stand_over_their_edge(
        side as int,
        cards[idx].rect.w(),
        false,
        wa,
    );
}

} // verus!
