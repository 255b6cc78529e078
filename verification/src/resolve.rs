//! Notes that push each other away after a drop, so that none overlap at rest:
//! which of them move, how far they may go, and where they come to rest.

use vstd::prelude::*;
use crate::card::cards_ok;
use crate::card::reachable;
use crate::card::Card;
use crate::desk::Desk;
use crate::geometry::greater;
use crate::geometry::lesser;
use crate::geometry::max_of;
use crate::geometry::min_of;
use crate::geometry::Point;
use crate::geometry::Rect;
use crate::metrics::modest;

verus! {

/// A note that can be pushed: where it is or glides to, its size, and the range
/// of its top left corner that keeps it clear of the edges.
#[derive(Clone, Copy, Debug, PartialEq, Eq, Structural)]
pub struct Mover {
    pub idx: usize,
    pub at: Point,
    pub w: i32,
    pub h: i32,
    pub min: Point,
    pub max: Point,
}

/// The window takes part: it is a note that is not on its way out.
pub open spec fn takes_part(c: Card) -> bool {
    c.note() && !c.dying && !c.closing
}

/// The note can be pushed; the stack and the docked notes stand firm.
pub open spec fn movable(c: Card) -> bool {
    takes_part(c) && c.free && c.docked == 0
}

/// Where a window is, or glides to.
pub open spec fn bound_for(c: Card) -> Point {
    match c.pos_to {
        Some(p) => p,
        None => Point { x: c.rect.left, y: c.rect.top },
    }
}

/// A note that can be pushed, in the work area `wa`.
pub open spec fn mover(c: Card, idx: usize, wa: Rect, gap: int) -> Mover {
    let lx = wa.left + gap;
    let hx = wa.right - c.rect.w() - gap;
    let ly = wa.top + gap;
    let hy = wa.bottom - c.rect.h() - gap;
    Mover {
        idx,
        at: bound_for(c),
        w: c.rect.w() as i32,
        h: c.rect.h() as i32,
        min: Point { x: lesser(lx, hx) as i32, y: lesser(ly, hy) as i32 },
        max: Point { x: greater(lx, hx) as i32, y: greater(ly, hy) as i32 },
    }
}

/// The notes among the first `n` windows that can be pushed.
pub open spec fn movers(cards: Seq<Card>, n: int, wa: Rect, gap: int) -> Seq<Mover>
    decreases n,
{
    if n <= 0 {
        Seq::empty()
    } else if movable(cards[n - 1]) {
        movers(cards, n - 1, wa, gap).push(mover(cards[n - 1], (n - 1) as usize, wa, gap))
    } else {
        movers(cards, n - 1, wa, gap)
    }
}

/// A note that stands firm: where it is or glides to, and its size.
pub open spec fn obstacle(c: Card) -> (Point, int, int) {
    (bound_for(c), c.rect.w(), c.rect.h())
}

/// The notes among the first `n` windows that stand firm.
pub open spec fn obstacles(cards: Seq<Card>, n: int) -> Seq<(Point, int, int)>
    decreases n,
{
    if n <= 0 {
        Seq::empty()
    } else if takes_part(cards[n - 1]) && !movable(cards[n - 1]) {
        obstacles(cards, n - 1).push(obstacle(cards[n - 1]))
    } else {
        obstacles(cards, n - 1)
    }
}

/// The views of obstacles.
pub open spec fn obstacle_views(v: Seq<(Point, i32, i32)>) -> Seq<(Point, int, int)> {
    v.map_values(|o: (Point, i32, i32)| (o.0, o.1 as int, o.2 as int))
}

fn mover_of(c: Card, idx: usize, wa: Rect, gap: i32) -> (m: Mover)
    requires
        c.wf(),
        wa.wf(),
        modest(gap as int),
    ensures
        m == mover(c, idx, wa, gap as int),
{
    let w: i32 = c.rect.width();
    let h: i32 = c.rect.height();
    let lx: i32 = wa.left + gap;
    let hx: i32 = wa.right - w - gap;
    let ly: i32 = wa.top + gap;
    let hy: i32 = wa.bottom - h - gap;
    let at: Point = match c.pos_to {
        Some(p) => p,
        None => Point { x: c.rect.left, y: c.rect.top },
    };
    Mover {
        idx,
        at,
        w,
        h,
        min: Point { x: min_of(lx, hx), y: min_of(ly, hy) },
        max: Point { x: max_of(lx, hx), y: max_of(ly, hy) },
    }
}

/// The notes that can be pushed, and those that stand firm.
pub fn parties(cards: &Vec<Card>, wa: Rect, gap: i32) -> (r: (Vec<Mover>, Vec<(Point, i32, i32)>))
    requires
        cards_ok(cards@),
        wa.wf(),
        modest(gap as int),
    ensures
        r.0@ == movers(cards@, cards@.len() as int, wa, gap as int),
        obstacle_views(r.1@) == obstacles(cards@, cards@.len() as int),
        forall|k: int| 0 <= k < r.0@.len() ==> mover_ok(cards@, #[trigger] r.0@[k]),
{
    let mut mv: Vec<Mover> = Vec::new();
    let mut fixed: Vec<(Point, i32, i32)> = Vec::new();
    let mut i: usize = 0;
    assert(obstacle_views(fixed@) =~= Seq::<(Point, int, int)>::empty());
    while i < cards.len()
        invariant
            i <= cards@.len(),
            cards_ok(cards@),
            wa.wf(),
            modest(gap as int),
            mv@ == movers(cards@, i as int, wa, gap as int),
            obstacle_views(fixed@) == obstacles(cards@, i as int),
        decreases cards@.len() - i,
    {
        let c: Card = cards[i];
        assert(cards@[i as int].wf());
        if c.is_note() && !c.dying && !c.closing {
            if c.free && c.docked == 0 {
                mv.push(mover_of(c, i, wa, gap));
            } else {
                let at: Point = match c.pos_to {
                    Some(p) => p,
                    None => Point { x: c.rect.left, y: c.rect.top },
                };
                let ghost before = obstacle_views(fixed@);
                fixed.push((at, c.rect.width(), c.rect.height()));
                assert(obstacle_views(fixed@) =~= before.push(obstacle(c)));
            }
        }
        i = i + 1;
    }
    assert forall|k: int| 0 <= k < mv@.len() implies mover_ok(cards@, #[trigger] mv@[k]) by {
        lemma_movers_ok(cards@, cards@.len() as int, wa, gap as int, k);
    }
    (mv, fixed)
}

/// How two notes that overlap share the push.
#[derive(Clone, Copy, Debug, PartialEq, Eq, Structural)]
pub enum Share {
    /// Neither can give way.
    Neither,
    /// Only the first gives way.
    First,
    /// Only the second gives way.
    Second,
    /// Both give way, the smaller one more.
    ByMass,
}

/// A note that is pinned against a wall cannot give way, so the other one takes
/// all of the push.
pub fn share(first_pinned: bool, second_pinned: bool) -> (s: Share)
    ensures
        s == match (first_pinned, second_pinned) {
            (true, true) => Share::Neither,
            (true, false) => Share::Second,
            (false, true) => Share::First,
            (false, false) => Share::ByMass,
        },
        s == Share::First ==> !first_pinned && second_pinned,
        s == Share::Second ==> first_pinned && !second_pinned,
        s == Share::ByMass ==> !first_pinned && !second_pinned,
        s == Share::Neither ==> first_pinned && second_pinned,
{
    if first_pinned {
        if second_pinned {
            Share::Neither
        } else {
            Share::Second
        }
    } else if second_pinned {
        Share::First
    } else {
        Share::ByMass
    }
}

/// Where a pushed note comes to rest, inside its range.
pub open spec fn rest_place(m: Mover, p: Point) -> Point {
    Point {
        x: lesser(greater(p.x as int, m.min.x as int), m.max.x as int) as i32,
        y: lesser(greater(p.y as int, m.min.y as int), m.max.y as int) as i32,
    }
}

/// A mover of these windows: a note that can be pushed.
pub open spec fn mover_ok(cards: Seq<Card>, m: Mover) -> bool {
    &&& m.idx < cards.len()
    &&& movable(cards[m.idx as int])
    &&& reachable(m.min)
    &&& reachable(m.max)
    &&& m.min.x <= m.max.x
    &&& m.min.y <= m.max.y
}

impl Desk {
    /// A note that was pushed away glides to where it comes to rest.
    pub fn push_to(&mut self, m: Mover, p: Point)
        requires
            old(self).wf(),
            mover_ok(old(self).cards@, m),
        ensures
            final(self).wf(),
            final(self).cards@ == old(self).cards@.update(
                m.idx as int,
                Card { pos_to: Some(rest_place(m, p)), ..old(self).cards@[m.idx as int] },
            ),
            *final(self) == (Desk { cards: final(self).cards, ..*old(self) }),
            final(self).cards@.len() == old(self).cards@.len(),
            forall|j: int|
                0 <= j < old(self).cards@.len() && j != m.idx ==> #[trigger] final(self).cards@[j] == old(
                    self,
                ).cards@[j],
    {
        let mut c: Card = self.cards[m.idx];
        assert(self.cards@[m.idx as int].wf());
        c.pos_to = Some(
            Point {
                x: min_of(max_of(p.x, m.min.x), m.max.x),
                y: min_of(max_of(p.y, m.min.y), m.max.y),
            },
        );
        self.set_card(m.idx, c);
    }
}

/// A pushed note that fits in the work area comes to rest a gap away from its
/// edges.
pub proof fn pushed_note_keeps_clear_of_edges(c: Card, idx: usize, wa: Rect, gap: int, p: Point)
    requires
        c.wf(),
        wa.wf(),
        modest(gap),
        c.rect.w() + 2 * gap <= wa.w(),
        c.rect.h() + 2 * gap <= wa.h(),
    ensures
        ({
            let r = rest_place(mover(c, idx, wa, gap), p);
            &&& wa.left + gap <= r.x
            &&& r.x + c.rect.w() <= wa.right - gap
            &&& wa.top + gap <= r.y
            &&& r.y + c.rect.h() <= wa.bottom - gap
        }),
{
}

/// Every mover is one that can be pushed.
pub proof fn lemma_movers_ok(cards: Seq<Card>, n: int, wa: Rect, gap: int, k: int)
    requires
        cards_ok(cards),
        wa.wf(),
        modest(gap),
        0 <= n <= cards.len(),
        0 <= k < movers(cards, n, wa, gap).len(),
    ensures
        mover_ok(cards, movers(cards, n, wa, gap)[k]),
    decreases n,
{
    if n > 0 {
        assert(cards[n - 1].wf());
        if movable(cards[n - 1]) && k == movers(cards, n - 1, wa, gap).len() {
        } else {
            lemma_movers_ok(cards, n - 1, wa, gap, k);
        }
    }
}

/// A pushed note rests where it was pushed to, as long as that is in its range.
/// Otherwise it rests in its range, and along either axis no place of the range is
/// nearer to where it was pushed.
pub proof fn pushed_note_rests_as_near_as_it_can(m: Mover, p: Point, z: int)
    requires
        m.min.x <= m.max.x,
        m.min.y <= m.max.y,
    ensures
        m.min.x <= p.x <= m.max.x && m.min.y <= p.y <= m.max.y ==> rest_place(m, p) == p,
        m.min.x <= rest_place(m, p).x <= m.max.x,
        m.min.y <= rest_place(m, p).y <= m.max.y,
        m.min.x <= z <= m.max.x ==> distance(rest_place(m, p).x as int, p.x as int) <= distance(
            z,
            p.x as int,
        ),
        m.min.y <= z <= m.max.y ==> distance(rest_place(m, p).y as int, p.y as int) <= distance(
            z,
            p.y as int,
        ),
        rest_place(m, rest_place(m, p)) == rest_place(m, p),
{
}

/// How far two places on an axis are apart.
pub open spec fn distance(a: int, b: int) -> int {
    if a < b {
        b - a
    } else {
        a - b
    }
}

/// The range of a note that fits in the work area is all the places at which it
/// stands a gap away from the edges, and no others: at every one of them it can
/// come to rest.
pub proof fn a_note_may_rest_wherever_it_is_clear(
    c: Card,
    idx: usize,
    wa: Rect,
    gap: int,
    p: Point,
)
    requires
        c.wf(),
        wa.wf(),
        modest(gap),
        c.rect.w() + 2 * gap <= wa.w(),
        c.rect.h() + 2 * gap <= wa.h(),
    ensures
        ({
            let m = mover(c, idx, wa, gap);
            let w = c.rect.right - c.rect.left;
            let h = c.rect.bottom - c.rect.top;
            &&& rest_place(m, p) == p <==> wa.left + gap <= p.x && p.x + w <= wa.right - gap
                && wa.top + gap <= p.y && p.y + h <= wa.bottom - gap
            &&& m.idx == idx && m.w == w && m.h == h
            &&& c.pos_to is None ==> m.at.x == c.rect.left && m.at.y == c.rect.top
            &&& c.pos_to matches Some(t) ==> m.at == t
        }),
{
}

/// Where a note does not fit between the edges, its range still lies between the
/// two places at which one of its sides is a gap away from an edge.
pub proof fn a_large_note_touches_one_gap(c: Card, idx: usize, wa: Rect, gap: int)
    requires
        c.wf(),
        wa.wf(),
        modest(gap),
    ensures
        ({
            let m = mover(c, idx, wa, gap);
            let w = c.rect.right - c.rect.left;
            let h = c.rect.bottom - c.rect.top;
            &&& m.min.x + m.max.x == wa.left + wa.right - w
            &&& m.min.y + m.max.y == wa.top + wa.bottom - h
            &&& m.min.x == wa.left + gap || m.max.x == wa.left + gap
            &&& m.min.y == wa.top + gap || m.max.y == wa.top + gap
            &&& m.min.x <= m.max.x && m.min.y <= m.max.y
        }),
{
}

/// A note that is not on its way out takes part: it can be pushed where it is free
/// and not docked, and stands firm where it is in the stack or docked. Nothing else
/// takes part.
pub proof fn free_notes_move_and_others_stand_firm(c: Card)
    ensures
        movable(c) <==> c.role == crate::card::Role::Note && c.free && c.docked == 0 && !c.closing
            && !c.dying,
        movable(c) ==> takes_part(c),
        takes_part(c) && !movable(c) ==> c.stacked() || c.docked != 0,
        c.stacked() || c.docked != 0 ==> !movable(c),
        c.role == crate::card::Role::Note && !c.closing && !c.dying ==> takes_part(c),
        c.closing || c.dying || c.role != crate::card::Role::Note ==> !takes_part(c),
{
}

/// Every note that can be pushed is among those to be pushed, and every one that
/// stands firm among the others, once each and in the order of the windows.
pub proof fn every_note_takes_its_side(cards: Seq<Card>, n: int, wa: Rect, gap: int)
    requires
        0 <= n <= cards.len() <= usize::MAX,
    ensures
        forall|i: int|
            0 <= i < n && movable(#[trigger] cards[i]) ==> exists|k: int|
                0 <= k < movers(cards, n, wa, gap).len() && #[trigger] movers(
                    cards,
                    n,
                    wa,
                    gap,
                )[k] == mover(cards[i], i as usize, wa, gap),
        forall|k: int|
            0 <= k < movers(cards, n, wa, gap).len() ==> (#[trigger] movers(
                cards,
                n,
                wa,
                gap,
            )[k]).idx < n && movable(cards[movers(cards, n, wa, gap)[k].idx as int]),
        forall|j: int, k: int|
            0 <= j < k < movers(cards, n, wa, gap).len() ==> (#[trigger] movers(
                cards,
                n,
                wa,
                gap,
            )[j]).idx < (#[trigger] movers(cards, n, wa, gap)[k]).idx,
        forall|i: int|
            0 <= i < n && takes_part(#[trigger] cards[i]) && !movable(cards[i]) ==> obstacles(
                cards,
                n,
            ).contains(obstacle(cards[i])),
        movers(cards, n, wa, gap).len() + obstacles(cards, n).len() <= n,
    decreases n,
{
    if n > 0 {
        every_note_takes_its_side(cards, n - 1, wa, gap);
        let a = movers(cards, n - 1, wa, gap);
        let b = movers(cards, n, wa, gap);
        let o = obstacles(cards, n - 1);
        let q = obstacles(cards, n);
        assert forall|i: int| 0 <= i < n && movable(#[trigger] cards[i]) implies exists|k: int|
            0 <= k < b.len() && #[trigger] b[k] == mover(cards[i], i as usize, wa, gap) by {
            if i < n - 1 {
                let k = choose|k: int|
                    0 <= k < a.len() && #[trigger] a[k] == mover(cards[i], i as usize, wa, gap);
                assert(b[k] == a[k]);
            } else {
                assert(b[b.len() - 1] == mover(cards[i], i as usize, wa, gap));
            }
        }
        assert forall|k: int| 0 <= k < b.len() implies (#[trigger] b[k]).idx < n && movable(
            cards[b[k].idx as int],
        ) by {
            if k < a.len() {
                assert(b[k] == a[k]);
            }
        }
        assert forall|j: int, k: int| 0 <= j < k < b.len() implies (#[trigger] b[j]).idx < (
        #[trigger] b[k]).idx by {
            assert(b[j] == a[j]);
            if k < a.len() {
                assert(b[k] == a[k]);
            }
        }
        assert forall|i: int|
            0 <= i < n && takes_part(#[trigger] cards[i]) && !movable(cards[i]) implies q.contains(
            obstacle(cards[i]),
        ) by {
            if i < n - 1 {
                assert(o.contains(obstacle(cards[i])));
                let k = choose|k: int| 0 <= k < o.len() && o[k] == obstacle(cards[i]);
                assert(q[k] == o[k]);
            } else {
                assert(q[q.len() - 1] == obstacle(cards[i]));
            }
        }
    }
}

/// Whatever stands firm is a note that takes part and cannot be pushed.
pub proof fn only_firm_notes_stand_firm(cards: Seq<Card>, n: int, k: int) -> (i: int)
    requires
        0 <= n <= cards.len(),
        0 <= k < obstacles(cards, n).len(),
    ensures
        0 <= i < n,
        takes_part(cards[i]),
        !movable(cards[i]),
        obstacles(cards, n)[k] == obstacle(cards[i]),
    decreases n,
{
    if takes_part(cards[n - 1]) && !movable(cards[n - 1]) && k == obstacles(cards, n - 1).len() {
        n - 1
    } else {
        only_firm_notes_stand_firm(cards, n - 1, k)
    }
}

/// A note that stands firm does so where it will be, with its size.
pub proof fn firm_notes_stand_where_they_glide_to(c: Card)
    ensures
        c.pos_to is None ==> obstacle(c).0.x == c.rect.left && obstacle(c).0.y == c.rect.top,
        c.pos_to matches Some(t) ==> obstacle(c).0 == t,
        obstacle(c).1 == c.rect.right - c.rect.left,
        obstacle(c).2 == c.rect.bottom - c.rect.top,
{
}

} // verus!
