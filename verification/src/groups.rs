//! Notes that stand close together form groups.

use vstd::prelude::*;
use crate::card::cards_ok;
use crate::card::Card;
use crate::geometry::greater;
use crate::geometry::max_of;
use crate::geometry::Rect;

verus! {

/// Edge to edge, two notes closer than this are neighbours.
pub const GROUP_DIST: i32 = 60;

/// How far two rectangles are apart along the farther axis.
pub open spec fn gap_between(a: Rect, b: Rect) -> int {
    let dx = greater(greater(b.left - a.right, a.left - b.right), 0);
    let dy = greater(greater(b.top - a.bottom, a.top - b.bottom), 0);
    greater(dx, dy)
}

/// Two windows are notes and neighbours.
pub open spec fn linked(cards: Seq<Card>, i: int, j: int) -> bool {
    &&& 0 <= i < cards.len()
    &&& 0 <= j < cards.len()
    &&& cards[i].note()
    &&& cards[j].note()
    &&& gap_between(cards[i].rect, cards[j].rect) <= GROUP_DIST
}

/// Each window of the path is a neighbour of the one before.
pub open spec fn is_path(cards: Seq<Card>, path: Seq<int>) -> bool {
    &&& path.len() > 0
    &&& forall|k: int| 0 < k < path.len() ==> linked(cards, path[k - 1], #[trigger] path[k])
}

/// A chain of neighbours leads from one window to the other.
pub open spec fn connected(cards: Seq<Card>, i: int, j: int) -> bool {
    exists|path: Seq<int>| #[trigger] is_path(cards, path) && path[0] == i && path.last() == j
}

pub proof fn lemma_connected_self(cards: Seq<Card>, i: int)
    ensures
        connected(cards, i, i),
{
    let p = seq![i];
    assert(is_path(cards, p));
}

proof fn lemma_connected_step(cards: Seq<Card>, i: int, j: int, k: int)
    requires
        connected(cards, i, j),
        linked(cards, j, k),
    ensures
        connected(cards, i, k),
{
    let p = choose|p: Seq<int>| #[trigger] is_path(cards, p) && p[0] == i && p.last() == j;
    let q = p.push(k);
    assert forall|m: int| 0 < m < q.len() implies linked(cards, q[m - 1], #[trigger] q[m]) by {
        if m < p.len() {
            assert(linked(cards, p[m - 1], p[m]));
        }
    }
    assert(is_path(cards, q));
}

pub proof fn lemma_connected_symmetric(cards: Seq<Card>, i: int, j: int)
    requires
        connected(cards, i, j),
    ensures
        connected(cards, j, i),
{
    let p = choose|p: Seq<int>| #[trigger] is_path(cards, p) && p[0] == i && p.last() == j;
    let q = p.reverse();
    let n = p.len();
    assert forall|m: int| 0 < m < q.len() implies linked(cards, q[m - 1], #[trigger] q[m]) by {
        assert(linked(cards, p[n - 1 - m], p[n - m]));
        assert(q[m] == p[n - 1 - m]);
        assert(q[m - 1] == p[n - m]);
    }
    assert(is_path(cards, q));
}

pub proof fn lemma_connected_transitive(cards: Seq<Card>, i: int, j: int, k: int)
    requires
        connected(cards, i, j),
        connected(cards, j, k),
    ensures
        connected(cards, i, k),
{
    let p = choose|p: Seq<int>| #[trigger] is_path(cards, p) && p[0] == i && p.last() == j;
    let q = choose|q: Seq<int>| #[trigger] is_path(cards, q) && q[0] == j && q.last() == k;
    let r = p + q.skip(1);
    assert forall|m: int| 0 < m < r.len() implies linked(cards, r[m - 1], #[trigger] r[m]) by {
        if m < p.len() {
            assert(linked(cards, p[m - 1], p[m]));
        } else {
            assert(linked(cards, q[m - p.len()], q[m - p.len() + 1]));
        }
    }
    assert(is_path(cards, r));
    assert(r.last() == k);
}

/// The labels of the windows; `cards.len()` for none. A label is the number of
/// the group's first note.
spec fn labelled(g: Seq<usize>, i: int) -> bool {
    g[i] < g.len()
}

/// How many of the first `n` windows have no label.
spec fn unlabelled(g: Seq<usize>, n: int) -> nat
    decreases n,
{
    if n <= 0 {
        0
    } else {
        unlabelled(g, n - 1) + if labelled(g, n - 1) {
            0nat
        } else {
            1
        }
    }
}

proof fn lemma_unlabelled(g: Seq<usize>, n: int, i: int, v: usize)
    requires
        0 <= i < g.len(),
        0 <= n <= g.len(),
        v < g.len(),
        !labelled(g, i),
    ensures
        unlabelled(g.update(i, v), n) == if i < n {
            unlabelled(g, n) - 1
        } else {
            unlabelled(g, n) as int
        },
    decreases n,
{
    if n > 0 {
        lemma_unlabelled(g, n - 1, i, v);
    }
}

/// Labels are on notes, and two windows with one label are connected.
spec fn labels_sound(cards: Seq<Card>, g: Seq<usize>) -> bool {
    &&& g.len() == cards.len()
    &&& forall|a: int| 0 <= a < g.len() && labelled(g, a) ==> (#[trigger] cards[a]).note()
        && connected(cards, g[a] as int, a)
}

/// The neighbours of the window carry its label.
spec fn settled(cards: Seq<Card>, g: Seq<usize>, a: int, upto: int) -> bool {
    forall|b: int| 0 <= b < upto && #[trigger] linked(cards, a, b) ==> g[b] == g[a]
}

/// Every labelled window is settled, unless it waits on the stack.
spec fn labels_closed(cards: Seq<Card>, g: Seq<usize>, waiting: Seq<usize>) -> bool {
    forall|a: int|
        0 <= a < g.len() && #[trigger] labelled(g, a) && !waiting.contains(a as usize) ==> settled(
            cards,
            g,
            a,
            g.len() as int,
        )
}

/// Along a path in a closed labelling the label stays.
proof fn lemma_path_label(cards: Seq<Card>, g: Seq<usize>, path: Seq<int>, k: int)
    requires
        g.len() == cards.len(),
        labels_closed(cards, g, Seq::empty()),
        is_path(cards, path),
        0 <= k < path.len(),
        0 <= path[0] < g.len(),
        labelled(g, path[0]),
    ensures
        0 <= path[k] < g.len(),
        g[path[k]] == g[path[0]],
    decreases k,
{
    if k > 0 {
        lemma_path_label(cards, g, path, k - 1);
        assert(linked(cards, path[k - 1], path[k]));
        assert(labelled(g, path[k - 1]));
        assert(settled(cards, g, path[k - 1], g.len() as int));
    }
}

/// Whether two windows are neighbours.
fn is_linked(cards: &Vec<Card>, i: usize, j: usize) -> (r: bool)
    requires
        cards_ok(cards@),
        i < cards@.len(),
        j < cards@.len(),
        cards@[i as int].note(),
    ensures
        r == linked(cards@, i as int, j as int),
{
    assert(cards@[i as int].wf());
    assert(cards@[j as int].wf());
    if !cards[j].is_note() {
        return false;
    }
    let a = cards[i].rect;
    let b = cards[j].rect;
    let dx: i32 = max_of(max_of(b.left - a.right, a.left - b.right), 0);
    let dy: i32 = max_of(max_of(b.top - a.bottom, a.top - b.bottom), 0);
    max_of(dx, dy) <= GROUP_DIST
}

/// Labels kept or newly given as `s`.
spec fn extends(old_g: Seq<usize>, g: Seq<usize>, s: usize) -> bool {
    &&& g.len() == old_g.len()
    &&& forall|a: int|
        0 <= a < g.len() ==> (#[trigger] g[a] == old_g[a] || (!labelled(old_g, a) && g[a] == s))
}

/// What waits on the stack carries the label `s`.
spec fn waits(g: Seq<usize>, stack: Seq<usize>, s: usize) -> bool {
    forall|k: int| 0 <= k < stack.len() ==> (#[trigger] stack[k]) < g.len() && g[stack[k] as int] == s
}

/// Closed but for window `a`.
spec fn closed_but(cards: Seq<Card>, g: Seq<usize>, waiting: Seq<usize>, a: int) -> bool {
    forall|x: int|
        0 <= x < g.len() && #[trigger] labelled(g, x) && x != a && !waiting.contains(x as usize)
            ==> settled(cards, g, x, g.len() as int)
}

/// Giving a label to a neighbour of `a` that has none.
proof fn lemma_label(
    cards: Seq<Card>,
    g: Seq<usize>,
    stack: Seq<usize>,
    s: usize,
    a: int,
    b: usize,
)
    requires
        g.len() == cards.len(),
        labels_sound(cards, g),
        closed_but(cards, g, stack, a),
        waits(g, stack, s),
        s < g.len(),
        0 <= a < g.len(),
        g[a] == s,
        b < g.len(),
        linked(cards, a, b as int),
        !labelled(g, b as int),
        settled(cards, g, a, b as int),
    ensures
        labels_sound(cards, g.update(b as int, s)),
        closed_but(cards, g.update(b as int, s), stack.push(b), a),
        waits(g.update(b as int, s), stack.push(b), s),
        settled(cards, g.update(b as int, s), a, b + 1),
{
    let h = g.update(b as int, s);
    let t = stack.push(b);
    assert(labelled(g, a));
    assert(cards[a].note());
    lemma_connected_step(cards, s as int, a, b as int);
    assert forall|x: int| 0 <= x < h.len() && labelled(h, x) implies (#[trigger] cards[x]).note()
        && connected(cards, h[x] as int, x) by {
        if x != b {
            assert(labelled(g, x));
        }
    }
    assert forall|x: int|
        0 <= x < h.len() && #[trigger] labelled(h, x) && x != a && !t.contains(
            x as usize,
        ) implies settled(cards, h, x, h.len() as int) by {
        assert(t[stack.len() as int] == b);
        assert(x != b);
        assert(labelled(g, x));
        assert(!stack.contains(x as usize)) by {
            if stack.contains(x as usize) {
                let k = choose|k: int| 0 <= k < stack.len() && stack[k] == x as usize;
                assert(t[k] == x as usize);
            }
        }
        assert(settled(cards, g, x, g.len() as int));
        assert forall|y: int| 0 <= y < h.len() && #[trigger] linked(cards, x, y) implies h[y]
            == h[x] by {
            assert(g[y] == g[x]);
        }
    }
    assert forall|k: int| 0 <= k < t.len() implies (#[trigger] t[k]) < h.len() && h[t[k] as int]
        == s by {
        if k < stack.len() {
            assert(stack[k] < g.len());
        }
    }
    assert forall|y: int| 0 <= y < b + 1 && #[trigger] linked(cards, a, y) implies h[y] == h[a] by {
        if y < b {
            assert(g[y] == g[a]);
        }
    }
}

/// A neighbour of `a` that has a label has that of `a`.
proof fn lemma_already(
    cards: Seq<Card>,
    g: Seq<usize>,
    stack: Seq<usize>,
    s: usize,
    a: int,
    b: int,
)
    requires
        g.len() == cards.len(),
        closed_but(cards, g, stack, a),
        waits(g, stack, s),
        0 <= a < g.len(),
        g[a] == s,
        0 <= b < g.len(),
        linked(cards, a, b),
        labelled(g, b),
        g.len() <= usize::MAX,
    ensures
        g[b] == g[a],
{
    if b != a {
        if stack.contains(b as usize) {
            let k = choose|k: int| 0 <= k < stack.len() && stack[k] == b as usize;
            assert(g[stack[k] as int] == s);
        } else {
            assert(settled(cards, g, b, g.len() as int));
            assert(linked(cards, b, a));
        }
    }
}

/// Labels the neighbours of `a` that have no label and puts them on the stack.
fn spread(cards: &Vec<Card>, g: &mut Vec<usize>, stack: &mut Vec<usize>, s: usize, a: usize)
    requires
        cards_ok(cards@),
        old(g)@.len() == cards@.len(),
        labels_sound(cards@, old(g)@),
        closed_but(cards@, old(g)@, old(stack)@, a as int),
        waits(old(g)@, old(stack)@, s),
        s < cards@.len(),
        a < cards@.len(),
        old(g)@[a as int] == s,
    ensures
        labels_sound(cards@, final(g)@),
        labels_closed(cards@, final(g)@, final(stack)@),
        waits(final(g)@, final(stack)@, s),
        extends(old(g)@, final(g)@, s),
        2 * unlabelled(final(g)@, cards@.len() as int) + final(stack)@.len() <= 2 * unlabelled(
            old(g)@,
            cards@.len() as int,
        ) + old(stack)@.len(),
{
    let n: usize = cards.len();
    let mut b: usize = 0;
    assert(labelled(g@, a as int));
    assert(cards@[a as int].note());
    while b < n
        invariant
            b <= n,
            n == cards@.len(),
            cards_ok(cards@),
            cards@[a as int].note(),
            g@.len() == cards@.len(),
            labels_sound(cards@, g@),
            closed_but(cards@, g@, stack@, a as int),
            waits(g@, stack@, s),
            s < cards@.len(),
            a < cards@.len(),
            g@[a as int] == s,
            settled(cards@, g@, a as int, b as int),
            extends(old(g)@, g@, s),
            2 * unlabelled(g@, n as int) + stack@.len() <= 2 * unlabelled(old(g)@, n as int) + old(
                stack,
            )@.len(),
        decreases n - b,
    {
        if is_linked(cards, a, b) {
            if g[b] >= n {
                proof {
                    lemma_label(cards@, g@, stack@, s, a as int, b);
                    lemma_unlabelled(g@, n as int, b as int, s);
                }
                g.set(b, s);
                stack.push(b);
            } else {
                proof {
                    lemma_already(cards@, g@, stack@, s, a as int, b as int);
                }
            }
        }
        b = b + 1;
    }
    assert(settled(cards@, g@, a as int, g@.len() as int));
}

/// Labels all that is connected to the note `s`.
fn flood(cards: &Vec<Card>, g: &mut Vec<usize>, s: usize)
    requires
        cards_ok(cards@),
        old(g)@.len() == cards@.len(),
        labels_sound(cards@, old(g)@),
        labels_closed(cards@, old(g)@, Seq::empty()),
        s < cards@.len(),
        cards@[s as int].note(),
        !labelled(old(g)@, s as int),
    ensures
        labels_sound(cards@, final(g)@),
        labels_closed(cards@, final(g)@, Seq::empty()),
        extends(old(g)@, final(g)@, s),
        labelled(final(g)@, s as int),
{
    let ghost g0 = g@;
    let mut stack: Vec<usize> = Vec::new();
    g.set(s, s);
    stack.push(s);
    proof {
        lemma_connected_self(cards@, s as int);
        assert forall|x: int| 0 <= x < g@.len() && labelled(g@, x) implies (
        #[trigger] cards@[x]).note() && connected(cards@, g@[x] as int, x) by {
            if x != s {
                assert(labelled(g0, x));
            }
        }
        assert forall|x: int|
            0 <= x < g@.len() && #[trigger] labelled(g@, x) && !stack@.contains(
                x as usize,
            ) implies settled(cards@, g@, x, g@.len() as int) by {
            assert(stack@[0] == s);
            assert(x != s);
            assert(labelled(g0, x));
            assert(!Seq::<usize>::empty().contains(x as usize));
            assert(settled(cards@, g0, x, g0.len() as int));
            assert forall|y: int| 0 <= y < g@.len() && #[trigger] linked(cards@, x, y) implies g@[y]
                == g@[x] by {
                assert(g0[y] == g0[x]);
            }
        }
        assert(labels_sound(cards@, g@));
        assert(labels_closed(cards@, g@, stack@));
    }
    while stack.len() > 0
        invariant
            cards_ok(cards@),
            g@.len() == cards@.len(),
            labels_sound(cards@, g@),
            labels_closed(cards@, g@, stack@),
            waits(g@, stack@, s),
            s < cards@.len(),
            g@[s as int] == s,
            extends(g0, g@, s),
        decreases 2 * unlabelled(g@, cards@.len() as int) + stack@.len(),
    {
        let ghost before = stack@;
        let ghost gb = g@;
        let a: usize = match stack.pop() {
            Some(a) => a,
            None => 0,
        };
        proof {
            assert(before[before.len() - 1] == a);
            assert forall|x: int|
                0 <= x < g@.len() && #[trigger] labelled(g@, x) && x != a && !stack@.contains(
                    x as usize,
                ) implies settled(cards@, g@, x, g@.len() as int) by {
                if before.contains(x as usize) {
                    let k = choose|k: int| 0 <= k < before.len() && before[k] == x as usize;
                    assert(k < before.len() - 1);
                    assert(stack@[k] == x as usize);
                }
            }
            assert forall|k: int| 0 <= k < stack@.len() implies (#[trigger] stack@[k]) < g@.len()
                && g@[stack@[k] as int] == s by {
                assert(before[k] == stack@[k]);
            }
        }
        spread(cards, g, &mut stack, s, a);
    }
    assert(stack@ =~= Seq::<usize>::empty());
}

/// The group of each note: two notes have one label if and only if a chain of
/// neighbours leads from one to the other. What is no note has the label
/// `cards.len()`.
pub fn note_groups(cards: &Vec<Card>) -> (g: Vec<usize>)
    requires
        cards_ok(cards@),
    ensures
        g@.len() == cards@.len(),
        forall|i: int|
            0 <= i < g@.len() ==> (#[trigger] g@[i] < g@.len() <==> cards@[i].note()),
        forall|i: int, j: int|
            0 <= i < g@.len() && 0 <= j < g@.len() && cards@[i].note() && cards@[j].note() ==> (
            #[trigger] g@[i] == #[trigger] g@[j] <==> connected(cards@, i, j)),
{
    let n: usize = cards.len();
    let mut g: Vec<usize> = Vec::new();
    let mut k: usize = 0;
    while k < n
        invariant
            k <= n,
            g@.len() == k,
            forall|i: int| 0 <= i < k ==> #[trigger] g@[i] == n,
        decreases n - k,
    {
        g.push(n);
        k = k + 1;
    }
    let mut s: usize = 0;
    while s < n
        invariant
            s <= n,
            n == cards@.len(),
            cards_ok(cards@),
            g@.len() == n,
            labels_sound(cards@, g@),
            labels_closed(cards@, g@, Seq::empty()),
            forall|i: int| 0 <= i < s && (#[trigger] cards@[i]).note() ==> labelled(g@, i),
        decreases n - s,
    {
        let ghost g0 = g@;
        if cards[s].is_note() && g[s] >= n {
            flood(cards, &mut g, s);
            assert forall|i: int| 0 <= i < s + 1 && (#[trigger] cards@[i]).note() implies labelled(
                g@,
                i,
            ) by {
                if i < s {
                    assert(labelled(g0, i));
                    assert(g@[i] == g0[i]);
                }
            }
        }
        s = s + 1;
    }
    proof {
        assert forall|i: int| 0 <= i < g@.len() implies (#[trigger] g@[i] < g@.len()
            <==> cards@[i].note()) by {
            if g@[i] < g@.len() {
                assert(labelled(g@, i));
            }
            if cards@[i].note() {
                assert(labelled(g@, i));
            }
        }
        assert forall|i: int, j: int|
            0 <= i < g@.len() && 0 <= j < g@.len() && cards@[i].note() && cards@[j].note() implies (
        #[trigger] g@[i] == #[trigger] g@[j] <==> connected(cards@, i, j)) by {
            assert(labelled(g@, i) && labelled(g@, j));
            if g@[i] == g@[j] {
                lemma_connected_symmetric(cards@, g@[i] as int, i);
                lemma_connected_transitive(cards@, i, g@[i] as int, j);
            }
            if connected(cards@, i, j) {
                let p = choose|p: Seq<int>| #[trigger]
                    is_path(cards@, p) && p[0] == i && p.last() == j;
                lemma_path_label(cards@, g@, p, p.len() - 1);
            }
        }
    }
    g
}

/// How far two rectangles are apart is the same from either, and is the least by which one
/// of them has to grow on every side to touch the other.
pub proof fn neighbours_touch_once_they_grow(a: Rect, b: Rect, d: int)
    requires
        d >= 0,
    ensures
        gap_between(a, b) == gap_between(b, a),
        gap_between(a, b) <= d <==> a.left - d <= b.right && b.left <= a.right + d && a.top - d
            <= b.bottom && b.top <= a.bottom + d,
        gap_between(a, b) >= 0,
{
}

/// Two notes no more than sixty pixels apart are in one group.
pub proof fn close_notes_are_grouped(cards: Seq<Card>, i: int, j: int)
    requires
        0 <= i < cards.len(),
        0 <= j < cards.len(),
        cards[i].note(),
        cards[j].note(),
        gap_between(cards[i].rect, cards[j].rect) <= 60,
    ensures
        connected(cards, i, j),
{
    lemma_connected_self(cards, i);
    lemma_connected_step(cards, i, i, j);
}

proof fn lemma_path_stays(cards: Seq<Card>, s: Set<int>, path: Seq<int>, k: int)
    requires
        is_path(cards, path),
        s.contains(path[0]),
        forall|i: int, j: int|
            s.contains(i) && !s.contains(j) && 0 <= i < cards.len() && 0 <= j < cards.len()
                && cards[i].note() && cards[j].note() ==> #[trigger] gap_between(
                cards[i].rect,
                cards[j].rect,
            ) > 60,
        0 <= k < path.len(),
    ensures
        s.contains(path[k]),
    decreases k,
{
    if k > 0 {
        lemma_path_stays(cards, s, path, k - 1);
        assert(linked(cards, path[k - 1], path[k]));
        assert(gap_between(cards[path[k - 1]].rect, cards[path[k]].rect) <= 60);
    }
}

/// Notes that no chain of neighbours joins are in different groups: where all notes of one
/// side are more than sixty pixels away from all of the other, no group reaches across.
pub proof fn groups_do_not_reach_across(cards: Seq<Card>, s: Set<int>, i: int, j: int)
    requires
        s.contains(i),
        !s.contains(j),
        forall|a: int, b: int|
            s.contains(a) && !s.contains(b) && 0 <= a < cards.len() && 0 <= b < cards.len()
                && cards[a].note() && cards[b].note() ==> #[trigger] gap_between(
                cards[a].rect,
                cards[b].rect,
            ) > 60,
    ensures
        !connected(cards, i, j),
{
    if connected(cards, i, j) {
        let p = choose|p: Seq<int>| #[trigger] is_path(cards, p) && p[0] == i && p.last() == j;
        lemma_path_stays(cards, s, p, p.len() - 1);
    }
}

} // verus!
