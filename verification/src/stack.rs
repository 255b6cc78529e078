//! The stack of notes above the button.

use vstd::prelude::*;
use crate::card::cards_ok;
use crate::card::lemma_update;
use crate::card::reachable;
use crate::card::Card;
use crate::card::MAX_CARDS;
use crate::geometry::lesser;
use crate::geometry::Point;
use crate::geometry::Rect;
use crate::geometry::REACH;
use crate::metrics::modest;

verus! {

/// Of two windows `i` comes first from the top: its top edge is higher, or it
/// is as high and `i` is the lower number.
pub open spec fn above(cards: Seq<Card>, i: usize, j: usize) -> bool {
    cards[i as int].rect.top < cards[j as int].rect.top || (cards[i as int].rect.top
        == cards[j as int].rect.top && i < j)
}

/// The notes of the stack among the first `n` windows, in order from the top.
pub open spec fn stack_order(cards: Seq<Card>, n: int, order: Seq<usize>) -> bool {
    &&& forall|k: int|
        0 <= k < order.len() ==> (#[trigger] order[k]) < n && cards[order[k] as int].stacked()
    &&& forall|a: int, b: int| 0 <= a < b < order.len() ==> above(cards, order[a], order[b])
    &&& forall|i: usize| i < n && (#[trigger] cards[i as int]).stacked() ==> order.contains(i)
}

/// The notes of the stack in order from the top.
pub fn stacked_indices(cards: &Vec<Card>) -> (order: Vec<usize>)
    ensures
        stack_order(cards@, cards@.len() as int, order@),
        order@.len() <= cards@.len(),
{
    let mut order: Vec<usize> = Vec::new();
    let mut i: usize = 0;
    while i < cards.len()
        invariant
            i <= cards@.len(),
            stack_order(cards@, i as int, order@),
            order@.len() <= i,
        decreases cards@.len() - i,
    {
        let ghost before = order@;
        if cards[i].is_stacked() {
            let mut k: usize = order.len();
            while k > 0 && cards[order[k - 1]].rect.top > cards[i].rect.top
                invariant
                    k <= order@.len(),
                    i < cards@.len(),
                    order@ == before,
                    stack_order(cards@, i as int, before),
                    forall|j: int| k <= j < before.len() ==> cards@[(#[trigger] before[j]) as int].rect.top
                        > cards@[i as int].rect.top,
                decreases k,
            {
                assert(order@[k - 1] < i);
                k = k - 1;
            }
            order.insert(k, i);
            proof {
                lemma_insert(cards@, before, k as int, i);
            }
        } else {
            assert(stack_order(cards@, i + 1, order@));
        }
        i = i + 1;
    }
    order
}

proof fn lemma_insert(cards: Seq<Card>, order: Seq<usize>, k: int, i: usize)
    requires
        i < cards.len(),
        0 <= k <= order.len(),
        stack_order(cards, i as int, order),
        cards[i as int].stacked(),
        forall|j: int| k <= j < order.len() ==> cards[(#[trigger] order[j]) as int].rect.top
            > cards[i as int].rect.top,
        k > 0 ==> cards[order[k - 1] as int].rect.top <= cards[i as int].rect.top,
    ensures
        stack_order(cards, i + 1, order.insert(k, i)),
{
    let o = order.insert(k, i);
    assert forall|j: int| 0 <= j < o.len() implies (#[trigger] o[j]) < i + 1
        && cards[o[j] as int].stacked() by {
        if j < k {
            assert(o[j] == order[j]);
        } else if j > k {
            assert(o[j] == order[j - 1]);
        }
    }
    assert forall|j: int| 0 <= j < k implies above(cards, #[trigger] order[j], i) by {
        if j < k - 1 {
            assert(above(cards, order[j], order[k - 1]));
        }
        assert(order[j] < i);
    }
    assert forall|a: int, b: int| 0 <= a < b < o.len() implies above(cards, o[a], o[b]) by {
        if b < k {
            assert(above(cards, order[a], order[b]));
        } else if b == k {
            assert(above(cards, order[a], i));
        } else if a < k {
            assert(o[a] == order[a] && o[b] == order[b - 1]);
            assert(above(cards, order[a], order[b - 1]));
        } else if a == k {
            assert(o[b] == order[b - 1]);
        } else {
            assert(above(cards, order[a - 1], order[b - 1]));
        }
    }
    assert forall|j: usize| j < i + 1 && (#[trigger] cards[j as int]).stacked() implies o.contains(
        j,
    ) by {
        if j < i {
            assert(order.contains(j));
            let p = choose|p: int| 0 <= p < order.len() && order[p] == j;
            if p < k {
                assert(o[p] == j);
            } else {
                assert(o[p + 1] == j);
            }
        } else {
            assert(o[k] == i);
        }
    }
}

/// The order of the stack from the top.
pub open spec fn the_order(cards: Seq<Card>) -> Seq<usize> {
    choose|order: Seq<usize>| stack_order(cards, cards.len() as int, order)
}

proof fn lemma_same_until(cards: Seq<Card>, a: Seq<usize>, b: Seq<usize>, k: int)
    requires
        stack_order(cards, cards.len() as int, a),
        stack_order(cards, cards.len() as int, b),
        0 <= k <= a.len(),
    ensures
        k <= b.len(),
        forall|j: int| 0 <= j < k ==> a[j] == b[j],
    decreases k,
{
    if k > 0 {
        let m = k - 1;
        lemma_same_until(cards, a, b, m);
        assert(cards[a[m] as int].stacked());
        assert(b.contains(a[m]));
        let p = choose|p: int| 0 <= p < b.len() && b[p] == a[m];
        if p < m {
            assert(above(cards, a[p], a[m]));
        }
        if p > m {
            assert(above(cards, b[m], b[p]));
            assert(cards[b[m] as int].stacked());
            assert(a.contains(b[m]));
            let q = choose|q: int| 0 <= q < a.len() && a[q] == b[m];
            if q < m {
                assert(above(cards, a[q], a[m]));
                assert(b[q] == a[q]);
                assert(above(cards, b[q], b[m]));
            } else if q > m {
                assert(above(cards, a[m], a[q]));
            }
        }
    }
}

/// There is just one order.
pub proof fn lemma_order_unique(cards: Seq<Card>, a: Seq<usize>)
    requires
        stack_order(cards, cards.len() as int, a),
    ensures
        a == the_order(cards),
        stack_order(cards, cards.len() as int, the_order(cards)),
{
    let b = the_order(cards);
    lemma_same_until(cards, a, b, a.len() as int);
    lemma_same_until(cards, b, a, b.len() as int);
    assert(a =~= b);
}

/// The top edges of the slots: each note stands its own height, and a gap,
/// above the one below it; the lowest stands on `y`.
pub open spec fn slots(cards: Seq<Card>, order: Seq<usize>, right: int, y: int, gap: int) -> Seq<
    (usize, Point),
>
    decreases order.len(),
{
    if order.len() == 0 {
        Seq::empty()
    } else {
        let i = order.last();
        let r = cards[i as int].rect;
        let p = Point { x: (right - r.w()) as i32, y: (y - r.h()) as i32 };
        seq![(i, p)] + slots(cards, order.drop_last(), right, y - r.h() - gap, gap)
    }
}

/// Where the stack's notes go, the lowest first: a column that rises from a gap
/// above the button, with its right edge in line with the button's.
pub open spec fn stack_targets(cards: Seq<Card>, gap: int) -> Seq<(usize, Point)> {
    let b = cards[0].rect;
    slots(cards, the_order(cards), b.right as int, b.top - gap, gap)
}

/// Where the stack's notes go.
pub fn compute_stack_targets(cards: &Vec<Card>, gap: i32) -> (out: Vec<(usize, Point)>)
    requires
        cards_ok(cards@),
        modest(gap as int),
    ensures
        out@ == stack_targets(cards@, gap as int),
        forall|k: int|
            0 <= k < out@.len() ==> (#[trigger] out@[k]).0 < cards@.len() && reachable(out@[k].1),
{
    let order = stacked_indices(cards);
    proof {
        lemma_order_unique(cards@, order@);
    }
    let b = cards[0].rect;
    assert(cards@[0].wf());
    let right: i32 = b.right;
    let foot: i64 = b.top as i64 - gap as i64;
    let mut y: i64 = foot;
    let mut out: Vec<(usize, Point)> = Vec::new();
    let mut k: usize = order.len();
    assert(order@.take(k as int) == order@);
    assert(out@ + slots(cards@, order@, right as int, y as int, gap as int) == slots(
        cards@,
        order@,
        right as int,
        y as int,
        gap as int,
    ));
    while k > 0
        invariant
            k <= order@.len() <= cards@.len(),
            cards_ok(cards@),
            stack_order(cards@, cards@.len() as int, order@),
            modest(gap as int),
            -0x2000_0000 <= right <= 0x2000_0000,
            y <= REACH,
            y >= -REACH - 0x20000 - (order@.len() - k) * 0x40000,
            forall|j: int|
                0 <= j < out@.len() ==> (#[trigger] out@[j]).0 < cards@.len() && reachable(
                    out@[j].1,
                ),
            out@ + slots(cards@, order@.take(k as int), right as int, y as int, gap as int)
                == slots(cards@, order@, right as int, foot as int, gap as int),
        decreases k,
    {
        let i: usize = order[k - 1];
        let r = cards[i].rect;
        assert(cards@[i as int].wf());
        let w: i32 = r.width();
        let h: i32 = r.height();
        let ghost before = out@;
        let ghost y0 = y as int;
        y = y - h as i64;
        out.push((i, Point { x: right - w, y: y as i32 }));
        y = y - gap as i64;
        proof {
            let t = order@.take(k as int);
            assert(t.drop_last() == order@.take(k - 1));
            assert(t.last() == i);
            let p = out@.last();
            let rest = slots(cards@, t.drop_last(), right as int, y as int, gap as int);
            assert(before + (seq![p] + rest) == before.push(p) + rest);
        }
        k = k - 1;
    }
    assert(out@ + slots(cards@, order@.take(0), right as int, y as int, gap as int) == out@);
    out
}

/// At their slots the notes of the stack keep their order, stand a gap apart
/// with their right edges in line with the button's, and the lowest stands a gap
/// above the button.
pub proof fn stack_is_packed(cards: Seq<Card>, gap: int)
    requires
        cards_ok(cards),
        modest(gap),
    ensures
        ({
            let t = stack_targets(cards, gap);
            let o = the_order(cards);
            &&& t.len() == o.len()
            &&& forall|k: int|
                0 <= k < t.len() ==> (#[trigger] t[k]).0 == o[o.len() - 1 - k] && t[k].1.x
                    + cards[t[k].0 as int].rect.w() == cards[0].rect.right
            &&& t.len() > 0 ==> t[0].1.y + cards[t[0].0 as int].rect.h() == cards[0].rect.top
                - gap
            &&& forall|k: int|
                0 < k < t.len() ==> (#[trigger] t[k]).1.y + cards[t[k].0 as int].rect.h() + gap == t[k
                    - 1].1.y
        }),
{
    let found = lemma_order_exists(cards, cards.len() as int);
    lemma_order_unique(cards, found);
    let o = the_order(cards);
    lemma_order_len(cards, o);
    assert(cards[0].wf());
    lemma_packed(cards, o, cards[0].rect.right as int, cards[0].rect.top - gap, gap);
}

/// Where a window of this height belongs in the order.
proof fn lemma_place(cards: Seq<Card>, order: Seq<usize>, top: int, k: int) -> (p: int)
    requires
        0 <= k <= order.len(),
        forall|j: int| k <= j < order.len() ==> cards[(#[trigger] order[j]) as int].rect.top > top,
    ensures
        0 <= p <= k,
        forall|j: int| p <= j < order.len() ==> cards[(#[trigger] order[j]) as int].rect.top > top,
        p > 0 ==> cards[order[p - 1] as int].rect.top <= top,
    decreases k,
{
    if k > 0 && cards[order[k - 1] as int].rect.top > top {
        lemma_place(cards, order, top, k - 1)
    } else {
        k
    }
}

/// There is an order.
pub proof fn lemma_order_exists(cards: Seq<Card>, n: int) -> (order: Seq<usize>)
    requires
        0 <= n <= cards.len(),
        cards.len() <= usize::MAX,
    ensures
        stack_order(cards, n, order),
    decreases n,
{
    if n == 0 {
        Seq::empty()
    } else {
        let o = lemma_order_exists(cards, n - 1);
        let i = (n - 1) as usize;
        if cards[n - 1].stacked() {
            let p = lemma_place(cards, o, cards[n - 1].rect.top as int, o.len() as int);
            lemma_insert(cards, o, p, i);
            o.insert(p, i)
        } else {
            o
        }
    }
}

proof fn lemma_order_len(cards: Seq<Card>, o: Seq<usize>)
    requires
        stack_order(cards, cards.len() as int, o),
    ensures
        o.len() <= cards.len(),
{
    assert(o.no_duplicates()) by {
        assert forall|a: int, b: int| 0 <= a < o.len() && 0 <= b < o.len() && a != b implies o[a]
            != o[b] by {
            if a < b {
                assert(above(cards, o[a], o[b]));
            } else {
                assert(above(cards, o[b], o[a]));
            }
        }
    }
    let s = o.map_values(|i: usize| i as int);
    assert(s.no_duplicates());
    vstd::seq_lib::seq_to_set_is_finite(s);
    s.unique_seq_to_set();
    let n = cards.len() as int;
    assert forall|x: int| s.to_set().contains(x) implies vstd::set_lib::set_int_range(
        0,
        n,
    ).contains(x) by {
        let k = choose|k: int| 0 <= k < s.len() && s[k] == x;
        assert(o[k] < n);
    }
    vstd::set_lib::lemma_int_range(0, n);
    vstd::set_lib::lemma_len_subset(s.to_set(), vstd::set_lib::set_int_range(0, n));
}

proof fn lemma_packed(cards: Seq<Card>, o: Seq<usize>, right: int, y: int, gap: int)
    requires
        cards_ok(cards),
        modest(gap),
        o.len() <= cards.len(),
        forall|k: int| 0 <= k < o.len() ==> (#[trigger] o[k]) < cards.len(),
        -0x2000_0000 <= right <= 0x2000_0000,
        -REACH - 0x20000 - (MAX_CARDS - o.len()) * 0x40000 <= y <= REACH,
    ensures
        ({
            let t = slots(cards, o, right, y, gap);
            &&& t.len() == o.len()
            &&& forall|k: int|
                0 <= k < t.len() ==> (#[trigger] t[k]).0 == o[o.len() - 1 - k] && t[k].1.x
                    + cards[t[k].0 as int].rect.w() == right && reachable(t[k].1)
            &&& t.len() > 0 ==> t[0].1.y + cards[t[0].0 as int].rect.h() == y
            &&& forall|k: int|
                0 < k < t.len() ==> (#[trigger] t[k]).1.y + cards[t[k].0 as int].rect.h() + gap == t[k
                    - 1].1.y
        }),
    decreases o.len(),
{
    if o.len() > 0 {
        let i = o.last();
        let d = o.drop_last();
        assert(cards[i as int].wf());
        let r = cards[i as int].rect;
        let y1 = y - r.h() - gap;
        assert forall|k: int| 0 <= k < d.len() implies (#[trigger] d[k]) < cards.len() by {
            assert(d[k] == o[k]);
        }
        lemma_packed(cards, d, right, y1, gap);
        let u = slots(cards, d, right, y1, gap);
        let t = slots(cards, o, right, y, gap);
        assert forall|k: int| 0 <= k < t.len() implies (#[trigger] t[k]).0 == o[o.len() - 1 - k]
            && t[k].1.x + cards[t[k].0 as int].rect.w() == right && reachable(t[k].1) by {
            if k > 0 {
                assert(t[k] == u[k - 1]);
            }
        }
        assert forall|k: int| 0 < k < t.len() implies (#[trigger] t[k]).1.y
            + cards[t[k].0 as int].rect.h() + gap == t[k - 1].1.y by {
            assert(t[k] == u[k - 1]);
            if k > 1 {
                assert(t[k - 1] == u[k - 2]);
            }
        }
    }
}

/// A window on its way to a slot, or about to be put there.
pub open spec fn sent(c: Card, p: Point, glide: bool) -> Card {
    Card {
        pos_to: if glide {
            Some(p)
        } else {
            None
        },
        ..c
    }
}

/// The windows after each of the targets was given out.
pub open spec fn all_sent(cards: Seq<Card>, t: Seq<(usize, Point)>, glide: bool) -> Seq<Card>
    decreases t.len(),
{
    if t.len() == 0 {
        cards
    } else {
        let c = all_sent(cards, t.drop_last(), glide);
        let (i, p) = t.last();
        c.update(i as int, sent(c[i as int], p, glide))
    }
}

/// Nothing but where the window glides to has changed.
#[verifier::opaque]
pub open spec fn moved_only(a: Card, b: Card) -> bool {
    b == (Card { pos_to: b.pos_to, ..a })
}

/// Nothing but where the windows glide to has changed.
pub open spec fn only_sent(a: Seq<Card>, b: Seq<Card>) -> bool {
    &&& a.len() == b.len()
    &&& forall|i: int| 0 <= i < a.len() ==> moved_only(#[trigger] a[i], b[i])
}

proof fn lemma_moved_self(a: Card)
    ensures
        moved_only(a, a),
{
    reveal(moved_only);
}

proof fn lemma_moved_sent(a: Card, b: Card, p: Point, glide: bool)
    requires
        moved_only(a, b),
    ensures
        moved_only(a, sent(b, p, glide)),
{
    reveal(moved_only);
}

/// A window that was only sent elsewhere, and then stopped, was only stopped.
pub proof fn lemma_moved_stopped(a: Card, b: Card)
    requires
        moved_only(a, b),
    ensures
        moved_only(a, Card { pos_to: None, ..b }),
{
    reveal(moved_only);
}

/// A window that was only sent elsewhere is still what it was.
pub proof fn lemma_moved_only(a: Card, b: Card)
    requires
        moved_only(a, b),
    ensures
        b == (Card { pos_to: b.pos_to, ..a }),
{
    reveal(moved_only);
}

/// Sends every note of the stack to its slot. Gliding notes only get a target;
/// otherwise the result says which window is to be put where.
pub fn relayout_stack(cards: &mut Vec<Card>, gap: i32, glide: bool) -> (moves: Vec<
    (usize, Point),
>)
    requires
        cards_ok(old(cards)@),
        modest(gap as int),
    ensures
        cards_ok(final(cards)@),
        final(cards)@.len() == old(cards)@.len(),
        final(cards)@ == all_sent(old(cards)@, stack_targets(old(cards)@, gap as int), glide),
        only_sent(old(cards)@, final(cards)@),
        moves@ == if glide {
            Seq::empty()
        } else {
            stack_targets(old(cards)@, gap as int)
        },
{
    let targets = compute_stack_targets(cards, gap);
    let mut k: usize = 0;
    assert(targets@.take(0) == Seq::<(usize, Point)>::empty());
    while k < targets.len()
        invariant
            k <= targets@.len(),
            cards@.len() == old(cards)@.len(),
            cards@ == all_sent(old(cards)@, targets@.take(k as int), glide),
            forall|j: int|
                0 <= j < targets@.len() ==> (#[trigger] targets@[j]).0 < old(cards)@.len()
                    && reachable(targets@[j].1),
        decreases targets@.len() - k,
    {
        let (i, p) = targets[k];
        let ghost t = targets@.take(k + 1);
        assert(t.drop_last() == targets@.take(k as int));
        assert(t.last() == (i, p));
        assert(targets@[k as int].0 == i);
        let c = send(cards[i], p, glide);
        cards.set(i, c);
        k = k + 1;
    }
    assert(targets@.take(targets@.len() as int) == targets@);
    proof {
        lemma_only_sent(old(cards)@, targets@, glide);
    }
    if glide {
        Vec::new()
    } else {
        targets
    }
}

/// A window on its way to a slot, or about to be put there.
fn send(c: Card, p: Point, glide: bool) -> (r: Card)
    ensures
        r == sent(c, p, glide),
{
    let mut d: Card = c;
    d.pos_to = if glide {
        Some(p)
    } else {
        None
    };
    d
}

/// Laying the stack out changes nothing but where the windows glide to.
pub proof fn lemma_sent_only(cards: Seq<Card>, gap: int)
    requires
        cards_ok(cards),
        modest(gap),
    ensures
        only_sent(cards, all_sent(cards, stack_targets(cards, gap), true)),
{
    let t = stack_targets(cards, gap);
    let found = lemma_order_exists(cards, cards.len() as int);
    lemma_order_unique(cards, found);
    let o = the_order(cards);
    lemma_order_len(cards, o);
    assert(cards[0].wf());
    lemma_packed(cards, o, cards[0].rect.right as int, cards[0].rect.top - gap, gap);
    assert forall|k: int| 0 <= k < t.len() implies (#[trigger] t[k]).0 < cards.len() && reachable(
        t[k].1,
    ) by {
        assert(o[o.len() - 1 - k] < cards.len());
    }
    lemma_only_sent(cards, t, true);
}

/// Giving out targets changes nothing else.
pub proof fn lemma_only_sent(cards: Seq<Card>, t: Seq<(usize, Point)>, glide: bool)
    requires
        cards_ok(cards),
        forall|k: int| 0 <= k < t.len() ==> (#[trigger] t[k]).0 < cards.len() && reachable(t[k].1),
    ensures
        only_sent(cards, all_sent(cards, t, glide)),
        cards_ok(all_sent(cards, t, glide)),
    decreases t.len(),
{
    if t.len() > 0 {
        let d = t.drop_last();
        assert forall|k: int| 0 <= k < d.len() implies (#[trigger] d[k]).0 < cards.len()
            && reachable(d[k].1) by {
            assert(d[k] == t[k]);
        }
        lemma_only_sent(cards, d, glide);
        let c = all_sent(cards, d, glide);
        let i = t.last().0 as int;
        assert(t[t.len() - 1].0 == i);
        assert(c[i].wf());
        let e = sent(c[i], t.last().1, glide);
        lemma_update(c, i, e);
        assert forall|k: int| 0 <= k < cards.len() implies moved_only(
            #[trigger] cards[k],
            c.update(i, e)[k],
        ) by {
            assert(moved_only(cards[k], c[k]));
            if k == i {
                lemma_moved_sent(cards[k], c[k], t.last().1, glide);
            }
        }
    } else {
        assert forall|k: int| 0 <= k < cards.len() implies moved_only(
            #[trigger] cards[k],
            cards[k],
        ) by {
            lemma_moved_self(cards[k]);
        }
    }
}

proof fn lemma_all_sent(cards: Seq<Card>, t: Seq<(usize, Point)>, glide: bool, i: int)
    requires
        0 <= i < cards.len(),
        forall|k: int| 0 <= k < t.len() ==> (#[trigger] t[k]).0 < cards.len(),
        forall|a: int, b: int| 0 <= a < b < t.len() ==> (#[trigger] t[a]).0 != (#[trigger] t[b]).0,
    ensures
        all_sent(cards, t, glide).len() == cards.len(),
        (forall|k: int| 0 <= k < t.len() ==> (#[trigger] t[k]).0 != i) ==> all_sent(
            cards,
            t,
            glide,
        )[i] == cards[i],
        forall|k: int|
            0 <= k < t.len() && (#[trigger] t[k]).0 == i ==> all_sent(cards, t, glide)[i] == sent(
                cards[i],
                t[k].1,
                glide,
            ),
    decreases t.len(),
{
    if t.len() > 0 {
        let d = t.drop_last();
        assert forall|k: int| 0 <= k < d.len() implies (#[trigger] d[k]).0 < cards.len() by {
            assert(d[k] == t[k]);
        }
        assert forall|a: int, b: int| 0 <= a < b < d.len() implies (#[trigger] d[a]).0 != (
        #[trigger] d[b]).0 by {
            assert(d[a] == t[a] && d[b] == t[b]);
        }
        lemma_all_sent(cards, d, glide, i);
        let n = t.len() - 1;
        if t[n].0 == i {
            assert forall|k: int| 0 <= k < d.len() implies (#[trigger] d[k]).0 != i by {
                assert(t[k].0 != t[n].0);
            }
        } else {
            if forall|k: int| 0 <= k < t.len() ==> (#[trigger] t[k]).0 != i {
                assert forall|k: int| 0 <= k < d.len() implies (#[trigger] d[k]).0 != i by {
                    assert(d[k] == t[k]);
                }
            }
            assert forall|k: int| 0 <= k < t.len() && (#[trigger] t[k]).0 == i implies all_sent(
                cards,
                t,
                glide,
            )[i] == sent(cards[i], t[k].1, glide) by {
                assert(d[k] == t[k]);
            }
        }
    }
}

/// Laying the stack out leaves every window alone that is not in it, and sends
/// each note of it to its own slot.
pub proof fn relayout_moves_the_stack_alone(cards: Seq<Card>, gap: int, glide: bool, i: int)
    requires
        cards_ok(cards),
        modest(gap),
        0 <= i < cards.len(),
    ensures
        ({
            let t = stack_targets(cards, gap);
            let after = all_sent(cards, t, glide)[i];
            &&& !cards[i].stacked() ==> after == cards[i]
            &&& cards[i].stacked() ==> exists|k: int|
                0 <= k < t.len() && (#[trigger] t[k]).0 == i && after == sent(
                    cards[i],
                    t[k].1,
                    glide,
                )
        }),
{
    let t = stack_targets(cards, gap);
    let found = lemma_order_exists(cards, cards.len() as int);
    lemma_order_unique(cards, found);
    let o = the_order(cards);
    let n = o.len() as int;
    stack_is_packed(cards, gap);
    assert forall|k: int| 0 <= k < t.len() implies (#[trigger] t[k]).0 < cards.len()
        && cards[t[k].0 as int].stacked() by {
        assert(o[n - 1 - k] < cards.len());
    }
    assert forall|a: int, b: int| 0 <= a < b < t.len() implies (#[trigger] t[a]).0 != (
    #[trigger] t[b]).0 by {
        assert(above(cards, o[n - 1 - b], o[n - 1 - a]));
    }
    lemma_all_sent(cards, t, glide, i);
    if cards[i].stacked() {
        let u = i as usize;
        assert(cards[u as int].stacked());
        assert(o.contains(u));
        let p = choose|p: int| 0 <= p < o.len() && o[p] == u;
        assert(t[n - 1 - p].0 == i);
    }
}

/// The highest top edge in the stack, or `y` where it is empty.
pub open spec fn stack_top(cards: Seq<Card>, n: int, y: int) -> int
    decreases n,
{
    if n <= 0 {
        y
    } else if cards[n - 1].stacked() {
        let t = cards[n - 1].rect.top as int;
        if has_stacked(cards, n - 1) {
            lesser(t, stack_top(cards, n - 1, y))
        } else {
            t
        }
    } else {
        stack_top(cards, n - 1, y)
    }
}

/// There is a note of the stack among the first `n` windows.
pub open spec fn has_stacked(cards: Seq<Card>, n: int) -> bool
    decreases n,
{
    n > 0 && (cards[n - 1].stacked() || has_stacked(cards, n - 1))
}

/// A dragged note snaps into the stack where it is let go: it overlaps the
/// stack's column, from the foot of it up to the highest note, or hovers over its
/// top by no more than its own height.
pub open spec fn snaps_in(cards: Seq<Card>, idx: int, gap: int) -> bool {
    let d = cards[idx].rect;
    let b = cards[0].rect;
    let foot = b.top - gap;
    let top = stack_top(cards, cards.len() as int, foot);
    &&& d.right > b.right - d.w()
    &&& d.left < b.right
    &&& d.bottom > top - d.h()
    &&& d.top < foot
}

/// Whether a dragged note snaps into the stack where it is let go.
pub fn over_stack(cards: &Vec<Card>, idx: usize, gap: i32) -> (r: bool)
    requires
        cards_ok(cards@),
        modest(gap as int),
    ensures
        r == (idx < cards@.len() && snaps_in(cards@, idx as int, gap as int)),
{
    if idx >= cards.len() {
        return false;
    }
    assert(cards@[idx as int].wf());
    assert(cards@[0].wf());
    let d = cards[idx].rect;
    let b = cards[0].rect;
    let dh: i32 = d.height();
    let foot: i32 = b.top - gap;
    let right: i32 = b.right;
    let left: i32 = right - d.width();
    if !(d.right > left && d.left < right) {
        return false;
    }
    let mut top: i32 = foot;
    let mut any = false;
    let mut i: usize = 0;
    while i < cards.len()
        invariant
            i <= cards@.len(),
            cards_ok(cards@),
            b == cards@[0].rect,
            any == has_stacked(cards@, i as int),
            top == stack_top(cards@, i as int, foot as int),
            -REACH - 0x20000 <= top <= REACH,
        decreases cards@.len() - i,
    {
        assert(cards@[i as int].wf());
        if cards[i].is_stacked() {
            let t: i32 = cards[i].rect.top;
            if !any || t < top {
                top = t;
            }
            any = true;
        }
        i = i + 1;
    }
    d.bottom > top - dh && d.top < foot
}

/// The top of the stack is its highest note: no note of the stack stands higher, and
/// one of them stands there. Without notes it is the foot.
pub proof fn the_top_is_the_highest_note(cards: Seq<Card>, n: int, y: int)
    requires
        0 <= n <= cards.len(),
    ensures
        has_stacked(cards, n) <==> exists|i: int| 0 <= i < n && (#[trigger] cards[i]).stacked(),
        forall|i: int|
            0 <= i < n && (#[trigger] cards[i]).stacked() ==> stack_top(cards, n, y)
                <= cards[i].rect.top,
        has_stacked(cards, n) ==> exists|i: int|
            0 <= i < n && (#[trigger] cards[i]).stacked() && stack_top(cards, n, y)
                == cards[i].rect.top,
        !has_stacked(cards, n) ==> stack_top(cards, n, y) == y,
    decreases n,
{
    if n > 0 {
        the_top_is_the_highest_note(cards, n - 1, y);
        assert(cards[n - 1].stacked() ==> has_stacked(cards, n));
        if has_stacked(cards, n - 1) {
            let i = choose|i: int|
                0 <= i < n - 1 && (#[trigger] cards[i]).stacked() && stack_top(cards, n - 1, y)
                    == cards[i].rect.top;
            assert(cards[i].stacked());
        }
    }
}

/// A note snaps in where a pixel of it lies in the column of the stack: as wide as the
/// note and in line with the button's right edge, from a gap above the button up to
/// the note's own height over the highest note of the stack. Elsewhere it does not.
pub proof fn notes_snap_in_over_the_column(cards: Seq<Card>, idx: int, gap: int)
    requires
        cards_ok(cards),
        0 <= idx < cards.len(),
        modest(gap),
        cards[idx].rect.left < cards[idx].rect.right,
        cards[idx].rect.top < cards[idx].rect.bottom,
        stack_top(cards, cards.len() as int, cards[0].rect.top - gap) - (cards[idx].rect.bottom
            - cards[idx].rect.top) < cards[0].rect.top - gap,
    ensures
        snaps_in(cards, idx, gap) <==> exists|x: int, y: int|
            #![trigger cards[idx].rect.holds(x, y)]
            {
                let r = cards[idx].rect;
                let b = cards[0].rect;
                let top = stack_top(cards, cards.len() as int, b.top - gap);
                &&& r.holds(x, y)
                &&& b.right - (r.right - r.left) <= x < b.right
                &&& top - (r.bottom - r.top) <= y < b.top - gap
            },
{
    let r = cards[idx].rect;
    let b = cards[0].rect;
    let top = stack_top(cards, cards.len() as int, b.top - gap);
    if snaps_in(cards, idx, gap) {
        let w = r.right - r.left;
        let h = r.bottom - r.top;
        let x: int = if b.right - w > r.left {
            b.right - w
        } else {
            r.left as int
        };
        let y: int = if top - h > r.top {
            top - h
        } else {
            r.top as int
        };
        assert(r.holds(x, y));
    }
}

/// The order of the stack goes by height, and holds each of its notes once and
/// nothing else.
pub proof fn the_order_goes_by_height(cards: Seq<Card>)
    requires
        cards_ok(cards),
    ensures
        ({
            let o = the_order(cards);
            &&& forall|k: int|
                0 <= k < o.len() ==> (#[trigger] o[k]) < cards.len() && {
                    let c = cards[o[k] as int];
                    c.role == crate::card::Role::Note && !c.free && c.docked == 0
                }
            &&& forall|a: int, b: int|
                0 <= a < b < o.len() ==> cards[o[a] as int].rect.top <= cards[o[b] as int].rect.top
                    && o[a] != o[b]
            &&& forall|a: int, b: int|
                0 <= a < b < o.len() && cards[o[a] as int].rect.top == cards[o[b] as int].rect.top
                    ==> o[a] < o[b]
            &&& forall|i: usize|
                i < cards.len() && (#[trigger] cards[i as int]).role == crate::card::Role::Note
                    && !cards[i as int].free && cards[i as int].docked == 0 ==> o.contains(i)
        }),
{
    let found = lemma_order_exists(cards, cards.len() as int);
    lemma_order_unique(cards, found);
    let o = the_order(cards);
    assert forall|a: int, b: int| 0 <= a < b < o.len() implies cards[o[a] as int].rect.top
        <= cards[o[b] as int].rect.top && o[a] != o[b] by {
        assert(above(cards, o[a], o[b]));
    }
    assert forall|a: int, b: int|
        0 <= a < b < o.len() && cards[o[a] as int].rect.top
            == cards[o[b] as int].rect.top implies o[a] < o[b] by {
        assert(above(cards, o[a], o[b]));
    }
}

/// At their slots no two notes of the stack overlap, nor does one overlap the button:
/// a note that stood above another stands a gap above it at least.
pub proof fn slots_do_not_overlap(cards: Seq<Card>, gap: int, j: int, k: int)
    requires
        cards_ok(cards),
        modest(gap),
        0 <= j < k < stack_targets(cards, gap).len(),
    ensures
        ({
            let t = stack_targets(cards, gap);
            let a = cards[t[j].0 as int].rect;
            let b = cards[t[k].0 as int].rect;
            &&& t[k].1.y + (b.bottom - b.top) + gap <= t[j].1.y
            &&& t[j].1.y + (a.bottom - a.top) + gap <= cards[0].rect.top
            &&& t[k].1.y + (b.bottom - b.top) + gap <= cards[0].rect.top
            &&& t[j].1.x + (a.right - a.left) == cards[0].rect.right
            &&& b.top <= a.top
        }),
    decreases k,
{
    let t = stack_targets(cards, gap);
    let o = the_order(cards);
    stack_is_packed(cards, gap);
    the_order_goes_by_height(cards);
    assert(t[j].0 == o[o.len() - 1 - j]);
    assert(t[k].0 == o[o.len() - 1 - k]);
    assert(cards[t[k].0 as int].wf());
    assert(cards[t[j].0 as int].wf());
    assert(t[k].1.y + cards[t[k].0 as int].rect.h() + gap == t[k - 1].1.y);
    if j < k - 1 {
        slots_do_not_overlap(cards, gap, j, k - 1);
        assert(cards[t[k - 1].0 as int].wf());
    } else if j > 0 {
        slots_do_not_overlap(cards, gap, j - 1, j);
        assert(cards[t[j - 1].0 as int].wf());
    }
}

/// A note that glides is sent to its target and one that does not glide is still;
/// nothing else about it changes.
pub proof fn sending_sets_the_target_alone(c: Card, p: Point, glide: bool)
    ensures
        glide ==> sent(c, p, glide).pos_to == Some(p),
        !glide ==> sent(c, p, glide).pos_to is None,
        sent(c, p, glide) == (Card { pos_to: sent(c, p, glide).pos_to, ..c }),
{
}

/// The note glides to a place in the column, whose right edge is that of the
/// button.
pub open spec fn heads_for_column(c: Card, button: Rect) -> bool {
    c.pos_to is Some && c.pos_to->Some_0.x + c.rect.w() == button.right
}

/// Once the stack is laid out every note of it glides to the column, and every
/// other window goes on as before.
pub proof fn stacked_notes_head_for_the_column(cards: Seq<Card>, gap: int, i: int)
    requires
        cards_ok(cards),
        modest(gap),
        0 <= i < cards.len(),
    ensures
        ({
            let a = all_sent(cards, stack_targets(cards, gap), true);
            &&& a.len() == cards.len()
            &&& moved_only(cards[i], a[i])
            &&& cards[i].stacked() ==> heads_for_column(a[i], cards[0].rect)
            &&& !cards[i].stacked() ==> a[i].pos_to == cards[i].pos_to
        }),
{
    let t = stack_targets(cards, gap);
    let a = all_sent(cards, t, true);
    lemma_sent_only(cards, gap);
    relayout_moves_the_stack_alone(cards, gap, true, i);
    stack_is_packed(cards, gap);
    assert(only_sent(cards, a));
    assert(moved_only(cards[i], a[i]));
    if cards[i].stacked() {
        let k = choose|k: int| 0 <= k < t.len() && (#[trigger] t[k]).0 == i && a[i] == sent(
            cards[i],
            t[k].1,
            true,
        );
        assert(t[k].1.x + cards[t[k].0 as int].rect.w() == cards[0].rect.right);
        sending_sets_the_target_alone(cards[i], t[k].1, true);
    }
}

} // verus!
