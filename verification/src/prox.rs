//! The poll that follows the cursor and the background: which note is active,
//! when the idle cluster tucks away, and which colour scheme each window takes.

use vstd::prelude::*;
use crate::card::cards_ok;
use crate::card::Card;
use crate::geometry::greater;
use crate::geometry::max_of;
use crate::geometry::Point;
use crate::geometry::Rect;
use crate::groups::connected;
use crate::groups::note_groups;

verus! {

/// How often the poll comes, in milliseconds.
pub const POLL_MS: u32 = 90;

/// How long the cursor stays away before the cluster tucks, in milliseconds.
pub const TUCK_IDLE_MS: u32 = 5000;

/// How long a new scheme must be wanted before it is taken, in milliseconds.
pub const DEBOUNCE_MS: u32 = 100;

/// A note this near to the cursor can be active.
pub const PROX_RADIUS: i32 = 60;

/// A cursor this near to the button wakes the cluster.
pub const WAKE_RADIUS: i32 = 80;

/// How far a point is from a rectangle along one axis.
pub open spec fn beyond(lo: int, hi: int, v: int) -> int {
    greater(greater(lo - v, 0), v - hi)
}

/// The square of the distance from a point to a rectangle.
pub open spec fn distance2(r: Rect, p: Point) -> int {
    let dx = beyond(r.left as int, r.right as int, p.x as int);
    let dy = beyond(r.top as int, r.bottom as int, p.y as int);
    dx * dx + dy * dy
}

/// The square of the distance from a point to a rectangle.
fn squared_distance(r: Rect, p: Point) -> (d: i64)
    requires
        r.wf(),
        p.wf(),
    ensures
        d == distance2(r, p),
        0 <= d,
{
    let dx: i64 = max_of(max_of(r.left - p.x, 0), p.x - r.right) as i64;
    let dy: i64 = max_of(max_of(r.top - p.y, 0), p.y - r.bottom) as i64;
    assert(0 <= dx * dx <= 0x2000_0000 * 0x2000_0000) by (nonlinear_arith)
        requires
            0 <= dx <= 0x2000_0000,
    ;
    assert(0 <= dy * dy <= 0x2000_0000 * 0x2000_0000) by (nonlinear_arith)
        requires
            0 <= dy <= 0x2000_0000,
    ;
    dx * dx + dy * dy
}

/// A note within reach of the cursor.
pub open spec fn in_reach(c: Card, p: Point) -> bool {
    c.note() && distance2(c.rect, p) <= PROX_RADIUS * PROX_RADIUS
}

/// The note nearest to the cursor among the first `n`, the first of them where
/// several are as near; none where none is within reach.
pub open spec fn is_nearest(cards: Seq<Card>, n: int, p: Point, r: Option<usize>) -> bool {
    match r {
        Some(i) => {
            &&& i < n
            &&& in_reach(cards[i as int], p)
            &&& forall|j: int|
                0 <= j < n && in_reach(#[trigger] cards[j], p) ==> distance2(
                    cards[i as int].rect,
                    p,
                ) <= distance2(cards[j].rect, p)
            &&& forall|j: int|
                0 <= j < i && in_reach(#[trigger] cards[j], p) ==> distance2(
                    cards[i as int].rect,
                    p,
                ) < distance2(cards[j].rect, p)
        },
        None => forall|j: int| 0 <= j < n ==> !in_reach(#[trigger] cards[j], p),
    }
}

/// The note nearest to the cursor.
fn nearest_note(cards: &Vec<Card>, p: Point) -> (r: Option<usize>)
    requires
        cards_ok(cards@),
        p.wf(),
    ensures
        is_nearest(cards@, cards@.len() as int, p, r),
{
    let mut found: Option<usize> = None;
    let mut best: i64 = 0;
    let mut i: usize = 0;
    while i < cards.len()
        invariant
            i <= cards@.len(),
            cards_ok(cards@),
            p.wf(),
            is_nearest(cards@, i as int, p, found),
            found matches Some(k) ==> best == distance2(cards@[k as int].rect, p),
        decreases cards@.len() - i,
    {
        let c = cards[i];
        assert(cards@[i as int].wf());
        if c.is_note() {
            let d: i64 = squared_distance(c.rect, p);
            if d <= 3600 && (found.is_none() || d < best) {
                best = d;
                found = Some(i);
            }
        }
        i = i + 1;
    }
    found
}

/// Whether the cluster is, or glides to be, tucked away, and how long the
/// cursor has been away.
#[derive(Clone, Copy, Debug, PartialEq, Eq, Structural)]
pub struct Tuck {
    pub tucked: bool,
    pub idle_ms: u32,
}

/// The cluster comes home as soon as the cursor nears the button or anything
/// else goes on, and tucks once nothing has for long enough.
pub open spec fn tuck_after(t: Tuck, near: bool, busy: bool) -> Tuck {
    if near || busy {
        Tuck { tucked: false, idle_ms: 0 }
    } else {
        let idle = if t.idle_ms < TUCK_IDLE_MS {
            t.idle_ms + POLL_MS
        } else {
            t.idle_ms as int
        };
        Tuck { tucked: t.tucked || idle >= TUCK_IDLE_MS, idle_ms: idle as u32 }
    }
}

/// One poll of the idle clock.
pub fn tuck_tick(t: Tuck, button: Rect, p: Point, busy: bool) -> (r: Tuck)
    requires
        button.wf(),
        p.wf(),
    ensures
        r == tuck_after(t, distance2(button, p) <= WAKE_RADIUS * WAKE_RADIUS, busy),
        distance2(button, p) <= 80 * 80 || busy ==> !r.tucked && r.idle_ms == 0,
        distance2(button, p) > 80 * 80 && !busy && t.tucked ==> r.tucked,
{
    let near = squared_distance(button, p) <= 6400;
    if near || busy {
        Tuck { tucked: false, idle_ms: 0 }
    } else {
        let idle: u32 = if t.idle_ms < TUCK_IDLE_MS {
            t.idle_ms + POLL_MS
        } else {
            t.idle_ms
        };
        Tuck { tucked: t.tucked || idle >= TUCK_IDLE_MS, idle_ms: idle }
    }
}

/// A note that is grouped with note `i`.
pub open spec fn member(cards: Seq<Card>, i: int, j: int) -> bool {
    cards[j].note() && connected(cards, i, j)
}

/// How many of the first `n` windows are grouped with note `i`.
pub open spec fn group_size(cards: Seq<Card>, i: int, n: int) -> int
    decreases n,
{
    if n <= 0 {
        0
    } else {
        group_size(cards, i, n - 1) + if member(cards, i, n - 1) {
            1int
        } else {
            0
        }
    }
}

/// The luminance of the group, summed.
pub open spec fn group_lum(cards: Seq<Card>, lum: Seq<u32>, i: int, n: int) -> int
    decreases n,
{
    if n <= 0 {
        0
    } else {
        group_lum(cards, lum, i, n - 1) + if member(cards, i, n - 1) {
            lum[n - 1] as int
        } else {
            0
        }
    }
}

/// How many of the group are light.
pub open spec fn group_light(cards: Seq<Card>, i: int, n: int) -> int
    decreases n,
{
    if n <= 0 {
        0
    } else {
        group_light(cards, i, n - 1) + if member(cards, i, n - 1) && cards[n - 1].light {
            1int
        } else {
            0
        }
    }
}

/// The scheme for a luminance of `sum / count` millionths, sticking to the
/// present one between two thresholds: light turns dark below `dark_below`,
/// dark turns light above `light_above`.
pub open spec fn sticky(
    sum: int,
    count: int,
    light: bool,
    dark_below: int,
    light_above: int,
) -> bool {
    if light {
        sum >= dark_below * count
    } else {
        sum > light_above * count
    }
}

/// The scheme that the background asks of window `i`. Notes in a group decide
/// together by their average, and one of them breaks away only over a
/// background that is nearly black or nearly white; any other window decides
/// for itself. Luminances are in millionths.
pub open spec fn wants_light(cards: Seq<Card>, lum: Seq<u32>, i: int) -> bool {
    let n = cards.len() as int;
    let count = group_size(cards, i, n);
    if cards[i].note() && count >= 2 {
        let most = 2 * group_light(cards, i, n) >= count;
        let together = sticky(group_lum(cards, lum, i, n), count, most, 200_000, 400_000);
        if together && lum[i] < 100_000 {
            false
        } else if !together && lum[i] > 900_000 {
            true
        } else {
            together
        }
    } else {
        sticky(lum[i] as int, 1, cards[i].light, 300_000, 500_000)
    }
}

/// The scheme of a window that is asked for one, the scheme that it was asked for
/// and for how long: the first is taken at once, a later one once it was asked for
/// long enough.
pub open spec fn scheme_after(c: Card, want: bool) -> (bool, bool, u32) {
    if !c.sampled {
        (want, want, 0)
    } else if want != c.light && want == c.wanted {
        let ms = c.wanted_ms + POLL_MS;
        (
            if ms >= DEBOUNCE_MS {
                want
            } else {
                c.light
            },
            c.wanted,
            ms as u32,
        )
    } else {
        (c.light, want, 0)
    }
}

/// A window that is asked for a scheme.
pub open spec fn asked(c: Card, want: bool) -> Card {
    let (light, wanted, wanted_ms) = scheme_after(c, want);
    Card { light, wanted, wanted_ms, sampled: true, ..c }
}

/// The window after one poll.
pub open spec fn polled(
    cards: Seq<Card>,
    lum: Seq<u32>,
    i: int,
    focused: Option<usize>,
    nearest: Option<usize>,
) -> Card {
    let c = cards[i];
    let active = if c.note() {
        focused == Some(i as usize) || nearest == Some(i as usize)
    } else {
        c.active
    };
    asked(Card { active, ..c }, wants_light(cards, lum, i))
}

/// The labels tell the groups apart.
spec fn labels_groups(cards: Seq<Card>, g: Seq<usize>) -> bool {
    &&& g.len() == cards.len()
    &&& forall|i: int| 0 <= i < g.len() ==> (#[trigger] g[i] < g.len() <==> cards[i].note())
    &&& forall|i: int, j: int|
        0 <= i < g.len() && 0 <= j < g.len() && cards[i].note() && cards[j].note() ==> (
        #[trigger] g[i] == #[trigger] g[j] <==> connected(cards, i, j))
}

/// Luminances are in millionths.
pub open spec fn lums_ok(lum: Seq<u32>) -> bool {
    forall|i: int| 0 <= i < lum.len() ==> #[trigger] lum[i] <= 1_000_000
}

/// The scheme that the background asks of window `i`.
fn asks_light(cards: &Vec<Card>, g: &Vec<usize>, lum: &Vec<u32>, i: usize) -> (r: bool)
    requires
        cards_ok(cards@),
        labels_groups(cards@, g@),
        lum@.len() == cards@.len(),
        lums_ok(lum@),
        i < cards@.len(),
    ensures
        r == wants_light(cards@, lum@, i as int),
{
    let n: usize = cards.len();
    let own: u32 = lum[i];
    if cards[i].is_note() {
        let mut count: i64 = 0;
        let mut sum: i64 = 0;
        let mut lights: i64 = 0;
        let mut j: usize = 0;
        while j < n
            invariant
                j <= n,
                n == cards@.len(),
                n <= crate::card::MAX_CARDS,
                labels_groups(cards@, g@),
                lum@.len() == n,
                lums_ok(lum@),
                i < n,
                cards@[i as int].note(),
                count == group_size(cards@, i as int, j as int),
                sum == group_lum(cards@, lum@, i as int, j as int),
                lights == group_light(cards@, i as int, j as int),
                0 <= count <= j,
                0 <= lights <= j,
                0 <= sum <= j * 1_000_000,
            decreases n - j,
        {
            assert(lum@[j as int] <= 1_000_000);
            assert((g@[i as int] == g@[j as int]) == member(cards@, i as int, j as int)) by {
                if cards@[j as int].note() {
                    assert(g@[i as int] == g@[j as int] <==> connected(
                        cards@,
                        i as int,
                        j as int,
                    ));
                } else {
                    assert(g@[i as int] < g@.len());
                    assert(!(g@[j as int] < g@.len()));
                }
            }
            if g[i] == g[j] {
                count = count + 1;
                sum = sum + lum[j] as i64;
                if cards[j].light {
                    lights = lights + 1;
                }
            }
            j = j + 1;
        }
        if count >= 2 {
            let together = if 2 * lights >= count {
                sum >= 200_000 * count
            } else {
                sum > 400_000 * count
            };
            return if together && own < 100_000 {
                false
            } else if !together && own > 900_000 {
                true
            } else {
                together
            };
        }
    }
    if cards[i].light {
        own >= 300_000
    } else {
        own > 500_000
    }
}

/// A window that is asked for a scheme.
fn ask(c: Card, want: bool) -> (r: Card)
    requires
        c.wf(),
    ensures
        r == asked(c, want),
        r.wf(),
        r.role == c.role,
{
    if !c.sampled {
        with_scheme(c, want, want, 0)
    } else if want != c.light && want == c.wanted {
        let ms: u32 = c.wanted_ms + POLL_MS;
        let light = if ms >= DEBOUNCE_MS {
            want
        } else {
            c.light
        };
        with_scheme(c, light, c.wanted, ms)
    } else {
        with_scheme(c, c.light, want, 0)
    }
}

/// The window with its scheme settled so far.
fn with_scheme(c: Card, light: bool, wanted: bool, wanted_ms: u32) -> (r: Card)
    requires
        c.wf(),
        wanted_ms <= 200,
        wanted != light ==> wanted_ms < 100,
    ensures
        r == (Card { light, wanted, wanted_ms, sampled: true, ..c }),
        r.wf(),
{
    let mut d: Card = c;
    d.light = light;
    d.wanted = wanted;
    d.wanted_ms = wanted_ms;
    d.sampled = true;
    d
}

/// The window after one poll.
fn poll_card(
    cards: &Vec<Card>,
    g: &Vec<usize>,
    lum: &Vec<u32>,
    i: usize,
    focused: Option<usize>,
    nearest: Option<usize>,
) -> (r: Card)
    requires
        cards_ok(cards@),
        labels_groups(cards@, g@),
        lum@.len() == cards@.len(),
        lums_ok(lum@),
        i < cards@.len(),
    ensures
        r == polled(cards@, lum@, i as int, focused, nearest),
        r.wf(),
        r.role == cards@[i as int].role,
{
    let want = asks_light(cards, g, lum, i);
    let c: Card = cards[i];
    assert(cards@[i as int].wf());
    let active = if c.is_note() {
        names(focused, i) || names(nearest, i)
    } else {
        c.active
    };
    poll_one(c, active, want)
}

/// The window, with its fill firm or not, asked for a scheme.
fn poll_one(c: Card, active: bool, want: bool) -> (r: Card)
    requires
        c.wf(),
    ensures
        r == asked(Card { active, ..c }, want),
        r.wf(),
        r.role == c.role,
{
    ask(with_active(c, active), want)
}

/// Whether an optional number is `i`.
fn names(o: Option<usize>, i: usize) -> (r: bool)
    ensures
        r == (o == Some(i)),
{
    match o {
        Some(f) => f == i,
        None => false,
    }
}

/// The window with its fill firm or not.
fn with_active(c: Card, active: bool) -> (r: Card)
    requires
        c.wf(),
    ensures
        r == (Card { active, ..c }),
        r.wf(),
{
    let mut d: Card = c;
    d.active = active;
    d
}

/// The windows whose scheme was never settled.
fn unsampled(cards: &Vec<Card>) -> (out: Vec<usize>)
    ensures
        forall|i: usize|
            #[trigger] out@.contains(i) <==> i < cards@.len() && !cards@[i as int].sampled,
{
    let mut out: Vec<usize> = Vec::new();
    let mut i: usize = 0;
    while i < cards.len()
        invariant
            i <= cards@.len(),
            forall|k: usize|
                #[trigger] out@.contains(k) <==> k < i && !cards@[k as int].sampled,
        decreases cards@.len() - i,
    {
        let ghost seen = out@;
        if !cards[i].sampled {
            out.push(i);
            proof {
                assert forall|k: usize|
                    #[trigger] out@.contains(k) <==> k < i + 1 && !cards@[k as int].sampled by {
                    assert(out@[seen.len() as int] == i);
                    if seen.contains(k) {
                        let m = choose|m: int| 0 <= m < seen.len() && seen[m] == k;
                        assert(out@[m] == k);
                    }
                    if out@.contains(k) && k != i {
                        let m = choose|m: int| 0 <= m < out@.len() && out@[m] == k;
                        assert(seen[m] == k);
                    }
                }
            }
        }
        i = i + 1;
    }
    out
}

/// One poll: the note with the keyboard and the one nearest to the cursor are
/// active, and every window is asked for the scheme that its background wants.
/// The result holds the windows whose scheme was settled for the first time:
/// they are drawn at once.
pub fn proximity_tick(cards: &mut Vec<Card>, focused: Option<usize>, p: Point, lum: &Vec<u32>) -> (
    snapped: Vec<usize>)
    requires
        cards_ok(old(cards)@),
        p.wf(),
        lum@.len() == old(cards)@.len(),
        lums_ok(lum@),
    ensures
        cards_ok(final(cards)@),
        final(cards)@.len() == old(cards)@.len(),
        exists|nearest: Option<usize>|
            is_nearest(old(cards)@, old(cards)@.len() as int, p, nearest) && forall|i: int|
                0 <= i < old(cards)@.len() ==> #[trigger] final(cards)@[i] == polled(
                    old(cards)@,
                    lum@,
                    i,
                    focused,
                    nearest,
                ),
        forall|i: usize|
            #[trigger] snapped@.contains(i) <==> i < old(cards)@.len()
                && !old(cards)@[i as int].sampled,
        forall|i: int|
            0 <= i < old(cards)@.len() ==> (#[trigger] final(cards)@[i]).rect == old(cards)@[i].rect
                && final(cards)@[i].sampled,
{
    let nearest = nearest_note(cards, p);
    let g = note_groups(cards);
    let n: usize = cards.len();
    let snapped = unsampled(cards);
    let mut out: Vec<Card> = Vec::new();
    let mut i: usize = 0;
    while i < n
        invariant
            i <= n,
            n == cards@.len(),
            *cards == *old(cards),
            cards_ok(cards@),
            labels_groups(cards@, g@),
            lum@.len() == n,
            lums_ok(lum@),
            out@.len() == i,
            forall|k: int|
                0 <= k < i ==> #[trigger] out@[k] == polled(cards@, lum@, k, focused, nearest)
                    && out@[k].wf() && out@[k].role == cards@[k].role,
        decreases n - i,
    {
        out.push(poll_card(cards, &g, lum, i, focused, nearest));
        i = i + 1;
    }
    *cards = out;
    assert(cards_ok(cards@)) by {
        assert(old(cards)@[0].role == crate::card::Role::Button);
        assert(cards@[0].role == old(cards)@[0].role);
        assert forall|k: int| 0 < k < cards@.len() implies (#[trigger] cards@[k]).role
            != crate::card::Role::Button by {
            assert(old(cards)@[k].role != crate::card::Role::Button);
        }
    }
    snapped
}

/// The notes of a group that are not over an extreme background all want one
/// scheme.
pub proof fn groups_change_together(cards: Seq<Card>, lum: Seq<u32>, i: int, j: int)
    requires
        0 <= i < cards.len(),
        0 <= j < cards.len(),
        lum.len() == cards.len(),
        cards[i].note(),
        cards[j].note(),
        i != j,
        connected(cards, i, j),
        100_000 <= lum[i] <= 900_000,
        100_000 <= lum[j] <= 900_000,
    ensures
        wants_light(cards, lum, i) == wants_light(cards, lum, j),
{
    let n = cards.len() as int;
    crate::groups::lemma_connected_symmetric(cards, i, j);
    crate::groups::lemma_connected_self(cards, i);
    crate::groups::lemma_connected_self(cards, j);
    lemma_same_group(cards, lum, i, j, n);
    lemma_pair(cards, i, j, n);
}

proof fn lemma_same_group(cards: Seq<Card>, lum: Seq<u32>, i: int, j: int, n: int)
    requires
        0 <= n <= cards.len(),
        connected(cards, i, j),
        connected(cards, j, i),
    ensures
        group_size(cards, i, n) == group_size(cards, j, n),
        group_lum(cards, lum, i, n) == group_lum(cards, lum, j, n),
        group_light(cards, i, n) == group_light(cards, j, n),
    decreases n,
{
    if n > 0 {
        lemma_same_group(cards, lum, i, j, n - 1);
        if connected(cards, i, n - 1) {
            crate::groups::lemma_connected_transitive(cards, j, i, n - 1);
        }
        if connected(cards, j, n - 1) {
            crate::groups::lemma_connected_transitive(cards, i, j, n - 1);
        }
    }
}

proof fn lemma_pair(cards: Seq<Card>, i: int, j: int, n: int)
    requires
        0 <= i < cards.len(),
        0 <= j < cards.len(),
        i != j,
        member(cards, i, i),
        member(cards, i, j),
    ensures
        group_size(cards, i, n) >= 0,
        i < n || j < n ==> group_size(cards, i, n) >= 1,
        i < n && j < n ==> group_size(cards, i, n) >= 2,
    decreases n,
{
    if n > 0 {
        lemma_pair(cards, i, j, n - 1);
    }
}

/// A scheme that is wanted for one poll only is never taken; one that is wanted
/// for three in a row is.
pub proof fn brief_change_is_ignored(c: Card, want: bool)
    requires
        c.sampled,
        c.wanted == c.light,
        want != c.light,
    ensures
        asked(asked(c, want), c.light).light == c.light,
        asked(asked(asked(c, want), want), want).light == want,
{
}

/// The square of the distance to a rectangle is that to the point of it which is
/// nearest: no point of it, edges included, is nearer, and one is as near.
pub proof fn distance_is_to_the_nearest_point(r: Rect, p: Point, x: int, y: int)
    requires
        r.left <= r.right,
        r.top <= r.bottom,
        r.left <= x <= r.right,
        r.top <= y <= r.bottom,
    ensures
        distance2(r, p) <= (x - p.x) * (x - p.x) + (y - p.y) * (y - p.y),
        r.left <= p.x <= r.right && r.top <= p.y <= r.bottom <==> distance2(r, p) == 0,
        exists|a: int, b: int|
            r.left <= a <= r.right && r.top <= b <= r.bottom && distance2(r, p) == #[trigger] norm2(
                a - p.x,
                b - p.y,
            ),
{
    let dx = beyond(r.left as int, r.right as int, p.x as int);
    let dy = beyond(r.top as int, r.bottom as int, p.y as int);
    let ex = x - p.x;
    let ey = y - p.y;
    assert(dx * dx <= ex * ex) by (nonlinear_arith)
        requires
            0 <= dx,
            dx <= ex || dx <= -ex,
    ;
    assert(dy * dy <= ey * ey) by (nonlinear_arith)
        requires
            0 <= dy,
            dy <= ey || dy <= -ey,
    ;
    assert(dx * dx >= 0 && dy * dy >= 0) by (nonlinear_arith);
    assert(dx > 0 ==> dx * dx > 0) by (nonlinear_arith);
    assert(dy > 0 ==> dy * dy > 0) by (nonlinear_arith);
    assert(dx == 0 ==> dx * dx == 0) by (nonlinear_arith);
    assert(dy == 0 ==> dy * dy == 0) by (nonlinear_arith);
    let a: int = if p.x < r.left {
        r.left as int
    } else if p.x > r.right {
        r.right as int
    } else {
        p.x as int
    };
    let b: int = if p.y < r.top {
        r.top as int
    } else if p.y > r.bottom {
        r.bottom as int
    } else {
        p.y as int
    };
    let u = a - p.x;
    let v = b - p.y;
    assert(u * u == dx * dx) by (nonlinear_arith)
        requires
            u == dx || u == -dx,
    ;
    assert(v * v == dy * dy) by (nonlinear_arith)
        requires
            v == dy || v == -dy,
    ;
    assert(norm2(a - p.x, b - p.y) == distance2(r, p));
}

/// The square of the length of a way.
pub open spec fn norm2(dx: int, dy: int) -> int {
    dx * dx + dy * dy
}

/// The note that is active under the cursor is a note within sixty pixels of it, and no
/// other note is nearer; where there is none, no note is that near. Among notes that
/// are as near it is the first, so there is just one answer.
pub proof fn the_active_note_is_the_nearest(
    cards: Seq<Card>,
    p: Point,
    r: Option<usize>,
    s: Option<usize>,
    j: int,
)
    requires
        is_nearest(cards, cards.len() as int, p, r),
        is_nearest(cards, cards.len() as int, p, s),
        0 <= j < cards.len(),
        cards[j].role == crate::card::Role::Note,
        distance2(cards[j].rect, p) <= 3600,
    ensures
        r is Some,
        r->Some_0 < cards.len(),
        cards[r->Some_0 as int].role == crate::card::Role::Note,
        distance2(cards[r->Some_0 as int].rect, p) <= distance2(cards[j].rect, p),
        j < r->Some_0 ==> distance2(cards[r->Some_0 as int].rect, p) < distance2(cards[j].rect, p),
        r == s,
{
    assert(in_reach(cards[j], p));
    let a = r->Some_0 as int;
    let b = s->Some_0 as int;
    assert(in_reach(cards[a], p));
    assert(in_reach(cards[b], p));
}

/// Without a note within sixty pixels none is active under the cursor.
pub proof fn no_note_is_active_from_afar(cards: Seq<Card>, p: Point, r: Option<usize>)
    requires
        is_nearest(cards, cards.len() as int, p, r),
        forall|j: int|
            0 <= j < cards.len() && (#[trigger] cards[j]).role == crate::card::Role::Note
                ==> distance2(cards[j].rect, p) > 3600,
    ensures
        r is None,
{
}

/// The cluster is out as long as the cursor is near the button or anything goes on, and
/// whenever either was so in the last poll. After that it stays out until five seconds
/// of polls have passed, and then stays tucked.
pub proof fn the_cluster_tucks_after_five_seconds(t: Tuck, near: bool, busy: bool)
    requires
        t.idle_ms <= 6000,
    ensures
        near || busy ==> !tuck_after(t, near, busy).tucked && tuck_after(t, near, busy).idle_ms == 0,
        !near && !busy && t.idle_ms < 5000 ==> tuck_after(t, near, busy).idle_ms == t.idle_ms + 90,
        !near && !busy && t.tucked ==> tuck_after(t, near, busy).tucked,
        !near && !busy && !t.tucked && t.idle_ms < 4910 ==> !tuck_after(t, near, busy).tucked,
        !near && !busy && t.idle_ms >= 4910 ==> tuck_after(t, near, busy).tucked,
        tuck_after(t, near, busy).idle_ms <= 6000,
{
}

/// A window by itself turns light over a background that is brighter than a half and
/// dark over one that is darker than three tenths, and in between keeps its scheme.
pub proof fn a_lone_window_follows_its_background(cards: Seq<Card>, lum: Seq<u32>, i: int)
    requires
        0 <= i < cards.len(),
        lum.len() == cards.len(),
        !cards[i].note() || group_size(cards, i, cards.len() as int) < 2,
    ensures
        lum[i] > 500_000 ==> wants_light(cards, lum, i),
        lum[i] < 300_000 ==> !wants_light(cards, lum, i),
        300_000 <= lum[i] <= 500_000 ==> wants_light(cards, lum, i) == cards[i].light,
{
}

/// A note of a group follows the group's average: light above four tenths, dark below
/// two tenths, and in between as most of the group are. Over a background that is
/// nearly black it is dark, and over one that is nearly white it is light, whatever the
/// group is.
pub proof fn a_grouped_note_follows_the_average(cards: Seq<Card>, lum: Seq<u32>, i: int)
    requires
        0 <= i < cards.len(),
        lum.len() == cards.len(),
        cards[i].note(),
        group_size(cards, i, cards.len() as int) >= 2,
    ensures
        ({
            let n = cards.len() as int;
            let count = group_size(cards, i, n);
            let sum = group_lum(cards, lum, i, n);
            let lights = group_light(cards, i, n);
            &&& lum[i] < 100_000 ==> !wants_light(cards, lum, i)
            &&& lum[i] > 900_000 ==> wants_light(cards, lum, i)
            &&& 100_000 <= lum[i] <= 900_000 && 10 * sum > 4_000_000 * count ==> wants_light(
                cards,
                lum,
                i,
            )
            &&& 100_000 <= lum[i] <= 900_000 && 10 * sum < 2_000_000 * count ==> !wants_light(
                cards,
                lum,
                i,
            )
            &&& 100_000 <= lum[i] <= 900_000 && 2_000_000 * count <= 10 * sum <= 4_000_000 * count
                ==> (wants_light(cards, lum, i) <==> 2 * lights >= count)
        }),
{
}

/// The numbers of a group count its notes: the size lies between none and all, the
/// light ones are among them, and the sum is at most a million for each. A note that is
/// not grouped with it adds nothing.
pub proof fn groups_are_counted(cards: Seq<Card>, lum: Seq<u32>, i: int, n: int)
    requires
        0 <= n <= cards.len(),
        lum.len() == cards.len(),
        lums_ok(lum),
    ensures
        0 <= group_light(cards, i, n) <= group_size(cards, i, n) <= n,
        0 <= group_lum(cards, lum, i, n) <= 1_000_000 * group_size(cards, i, n),
        n > 0 && !member(cards, i, n - 1) ==> group_size(cards, i, n) == group_size(
            cards,
            i,
            n - 1,
        ) && group_lum(cards, lum, i, n) == group_lum(cards, lum, i, n - 1) && group_light(
            cards,
            i,
            n,
        ) == group_light(cards, i, n - 1),
        n > 0 && member(cards, i, n - 1) ==> group_size(cards, i, n) == group_size(cards, i, n - 1)
            + 1 && group_lum(cards, lum, i, n) - group_lum(cards, lum, i, n - 1) == lum[n - 1]
            && group_light(cards, i, n) - group_light(cards, i, n - 1) == (if cards[n - 1].light {
            1int
        } else {
            0
        }),
    decreases n,
{
    if n > 0 {
        groups_are_counted(cards, lum, i, n - 1);
        assert(lum[n - 1] <= 1_000_000);
    }
}

/// The first scheme is taken at once. A window that was asked for its own scheme keeps
/// it and forgets what it was asked for before.
pub proof fn the_first_scheme_is_taken_at_once(c: Card, want: bool)
    requires
        c.wf(),
    ensures
        !c.sampled ==> asked(c, want).light == want,
        asked(c, want).sampled,
        want == c.light ==> asked(c, want).light == c.light,
        c.sampled && want == c.light ==> asked(c, want).wanted_ms == 0 && asked(c, want).wanted
            == want,
        c.sampled && want != c.light && c.wanted != want ==> asked(c, want).light == c.light,
        asked(c, want).light == want || asked(c, want).light == c.light,
        asked(c, want) == (Card {
            light: asked(c, want).light,
            wanted: asked(c, want).wanted,
            wanted_ms: asked(c, want).wanted_ms,
            sampled: true,
            ..c
        }),
{
}

/// In a poll just the note with the keyboard and the one nearest to the cursor are
/// active; windows that are no notes stay as they are in that.
pub proof fn active_notes_are_those_in_use(
    cards: Seq<Card>,
    lum: Seq<u32>,
    i: int,
    focused: Option<usize>,
    nearest: Option<usize>,
)
    requires
        0 <= i < cards.len() <= usize::MAX,
    ensures
        ({
            let c = polled(cards, lum, i, focused, nearest);
            &&& cards[i].note() ==> (c.active <==> focused == Some(i as usize) || nearest == Some(
                i as usize,
            ))
            &&& !cards[i].note() ==> c.active == cards[i].active
            &&& c.rect == cards[i].rect && c.role == cards[i].role && c.id == cards[i].id
            &&& c.free == cards[i].free && c.docked == cards[i].docked && c.pos_to
                == cards[i].pos_to
            &&& c.shown == cards[i].shown && c.glow == cards[i].glow && c.closing
                == cards[i].closing
        }),
{
}

} // verus!
