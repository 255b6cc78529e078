//! One step of the animations: gliding, hurling, fading out.

use vstd::prelude::*;
use crate::card::cards_ok;
use crate::card::reachable;
use crate::card::Card;
use crate::card::Role;
use crate::geometry::Point;
use crate::geometry::Rect;

verus! {

/// How the easing of one window went.
#[derive(Clone, Copy, Debug, PartialEq, Eq, Structural)]
pub struct Eased {
    /// Something about how the window looks has changed.
    pub changed: bool,
    /// The window has all but faded away.
    pub faded: bool,
    /// How far a hurled window flies, or a gliding one glides, in this step.
    pub step: Point,
}

/// What one step does with a window.
#[derive(Clone, Copy, Debug, PartialEq, Eq, Structural)]
pub enum Motion {
    Still,
    /// The window is drawn again.
    Redraw,
    /// The window goes there.
    Move(Point),
    /// The window goes there, and spins.
    Fly(Point),
}

/// How far beyond the screen a hurled window flies.
pub const FLING_MARGIN: i32 = 100;

/// The window is clear of the screen.
pub open spec fn off_screen(r: Rect, screen: Rect) -> bool {
    r.right < screen.left - FLING_MARGIN || r.left > screen.right + FLING_MARGIN || r.bottom
        < screen.top - FLING_MARGIN || r.top > screen.bottom + FLING_MARGIN
}

/// One axis of a glide: the eased step, but a pixel at least where there is any
/// way to go.
pub open spec fn glide_axis(at: int, to: int, step: int) -> int {
    if step != 0 {
        at + step
    } else if to > at {
        at + 1
    } else if to < at {
        at - 1
    } else {
        at
    }
}

/// The window is within a pixel of where it glides to.
pub open spec fn arrives(r: Rect, t: Point) -> bool {
    -1 <= t.x - r.left <= 1 && -1 <= t.y - r.top <= 1
}

/// What one step does with a window. The one under a drag is moved by the hand
/// alone.
pub open spec fn motion(c: Card, dragged: bool, e: Eased) -> Motion {
    let r = c.rect;
    if dragged {
        if e.changed {
            Motion::Redraw
        } else {
            Motion::Still
        }
    } else if c.flung {
        Motion::Fly(Point { x: (r.left + e.step.x) as i32, y: (r.top + e.step.y) as i32 })
    } else {
        match c.pos_to {
            Some(t) => if arrives(r, t) {
                Motion::Move(t)
            } else {
                Motion::Move(
                    Point {
                        x: glide_axis(r.left as int, t.x as int, e.step.x as int) as i32,
                        y: glide_axis(r.top as int, t.y as int, e.step.y as int) as i32,
                    },
                )
            },
            None => if e.changed {
                Motion::Redraw
            } else {
                Motion::Still
            },
        }
    }
}

/// A window after one step: an arrived one glides no more, and one that has
/// faded, or that flew off the screen, is to be destroyed.
pub open spec fn advanced(c: Card, dragged: bool, e: Eased, screen: Rect) -> Card {
    let gone = !dragged && c.flung && (e.faded || off_screen(c.rect, screen));
    Card {
        pos_to: match c.pos_to {
            Some(t) => if !dragged && !c.flung && arrives(c.rect, t) {
                None
            } else {
                c.pos_to
            },
            None => None,
        },
        dying: c.dying || gone || (c.closing && e.faded),
        ..c
    }
}

/// A newcomer after so many microseconds: once its time has run out it fades
/// in.
pub open spec fn held_back(c: Card, dt_us: int) -> Card {
    if c.hold_us == 0 {
        c
    } else if c.hold_us > dt_us {
        Card { hold_us: (c.hold_us - dt_us) as u32, ..c }
    } else {
        Card { hold_us: 0, shown: true, ..c }
    }
}

/// Lets the time of newcomers run.
pub fn hold_step(cards: &mut Vec<Card>, dt_us: u32)
    requires
        cards_ok(old(cards)@),
    ensures
        cards_ok(final(cards)@),
        final(cards)@.len() == old(cards)@.len(),
        forall|i: int|
            0 <= i < old(cards)@.len() ==> #[trigger] final(cards)@[i] == held_back(
                old(cards)@[i],
                dt_us as int,
            ),
{
    let n: usize = cards.len();
    let mut i: usize = 0;
    while i < n
        invariant
            i <= n,
            n == cards@.len(),
            n == old(cards)@.len(),
            cards_ok(old(cards)@),
            forall|k: int|
                0 <= k < n ==> #[trigger] cards@[k] == if k < i {
                    held_back(old(cards)@[k], dt_us as int)
                } else {
                    old(cards)@[k]
                },
        decreases n - i,
    {
        let mut c: Card = cards[i];
        if c.hold_us > 0 {
            if c.hold_us > dt_us {
                c.hold_us = c.hold_us - dt_us;
            } else {
                c.hold_us = 0;
                c.shown = true;
            }
            cards.set(i, c);
        }
        i = i + 1;
    }
    proof {
        lemma_same_roles(old(cards)@, cards@);
    }
}

proof fn lemma_same_roles(a: Seq<Card>, b: Seq<Card>)
    requires
        cards_ok(a),
        a.len() == b.len(),
        forall|i: int| 0 <= i < a.len() ==> (#[trigger] b[i]).role == a[i].role,
        forall|i: int| 0 <= i < a.len() ==> (#[trigger] a[i]).wf() ==> b[i].wf(),
    ensures
        cards_ok(b),
{
    assert(b[0].role == a[0].role);
    assert forall|i: int| 0 < i < b.len() implies (#[trigger] b[i]).role != Role::Button by {
        assert(a[i].role != Role::Button);
    }
    assert forall|i: int| 0 <= i < b.len() implies (#[trigger] b[i]).wf() by {
        assert(a[i].wf());
    }
}

/// One axis of a glide.
fn glide(at: i32, to: i32, step: i32) -> (r: i32)
    requires
        -0x1000_0000 <= at <= 0x1000_0000,
        -0x6000_0000 <= step <= 0x6000_0000,
    ensures
        r == glide_axis(at as int, to as int, step as int),
{
    if step != 0 {
        at + step
    } else if to > at {
        at + 1
    } else if to < at {
        at - 1
    } else {
        at
    }
}

/// What one step does with a window.
fn motion_of(c: &Card, dragged: bool, e: Eased) -> (m: Motion)
    requires
        c.wf(),
        reachable(e.step),
    ensures
        m == motion(*c, dragged, e),
{
    let r = c.rect;
    if !dragged {
        if c.flung {
            return Motion::Fly(Point { x: r.left + e.step.x, y: r.top + e.step.y });
        }
        if let Some(t) = c.pos_to {
            if has_arrived(r, t) {
                return Motion::Move(t);
            }
            return Motion::Move(
                Point { x: glide(r.left, t.x, e.step.x), y: glide(r.top, t.y, e.step.y) },
            );
        }
    }
    if e.changed {
        Motion::Redraw
    } else {
        Motion::Still
    }
}

/// Whether a window is within a pixel of its target.
fn has_arrived(r: Rect, t: Point) -> (a: bool)
    requires
        r.wf(),
        reachable(t),
    ensures
        a == arrives(r, t),
{
    let dx: i32 = t.x - r.left;
    let dy: i32 = t.y - r.top;
    -1 <= dx && dx <= 1 && -1 <= dy && dy <= 1
}

/// The window on its way, and to be destroyed or not.
fn bound_for(c: Card, pos_to: Option<Point>, dying: bool) -> (d: Card)
    requires
        c.wf(),
        pos_to matches Some(p) ==> reachable(p),
    ensures
        d == (Card { pos_to, dying, ..c }),
        d.wf(),
{
    let mut d: Card = c;
    d.pos_to = pos_to;
    d.dying = dying;
    d
}

/// One step of one window.
fn step_card(c: Card, dragged: bool, e: Eased, screen: Rect) -> (r: (Card, Motion))
    requires
        c.wf(),
        reachable(e.step),
        screen.wf(),
    ensures
        r.0 == advanced(c, dragged, e, screen),
        r.1 == motion(c, dragged, e),
        r.0.wf(),
        r.0.role == c.role,
{
    let m = motion_of(&c, dragged, e);
    let r = c.rect;
    let off = r.right < screen.left - FLING_MARGIN || r.left > screen.right + FLING_MARGIN
        || r.bottom < screen.top - FLING_MARGIN || r.top > screen.bottom + FLING_MARGIN;
    let gone = !dragged && c.flung && (e.faded || off);
    let dying = c.dying || gone || (c.closing && e.faded);
    let pos_to = match c.pos_to {
        Some(t) => if !dragged && !c.flung && has_arrived(r, t) {
            None
        } else {
            Some(t)
        },
        None => None,
    };
    (bound_for(c, pos_to, dying), m)
}

/// One step of all windows. `dragged` is the one under a drag, and `eased` says
/// how the easing of each went.
pub fn anim_step(cards: &mut Vec<Card>, dragged: Option<usize>, eased: &Vec<Eased>, screen: Rect) -> (
    motions: Vec<Motion>)
    requires
        cards_ok(old(cards)@),
        eased@.len() == old(cards)@.len(),
        forall|i: int| 0 <= i < eased@.len() ==> reachable((#[trigger] eased@[i]).step),
        screen.wf(),
    ensures
        cards_ok(final(cards)@),
        final(cards)@.len() == old(cards)@.len(),
        motions@.len() == old(cards)@.len(),
        forall|i: int|
            0 <= i < old(cards)@.len() ==> #[trigger] final(cards)@[i] == advanced(
                old(cards)@[i],
                dragged == Some(i as usize),
                eased@[i],
                screen,
            ),
        forall|i: int|
            0 <= i < old(cards)@.len() ==> #[trigger] motions@[i] == motion(
                old(cards)@[i],
                dragged == Some(i as usize),
                eased@[i],
            ),
{
    let n: usize = cards.len();
    let mut motions: Vec<Motion> = Vec::new();
    let mut i: usize = 0;
    while i < n
        invariant
            i <= n,
            n == cards@.len(),
            n == old(cards)@.len(),
            cards_ok(old(cards)@),
            eased@.len() == n,
            forall|i: int| 0 <= i < eased@.len() ==> reachable((#[trigger] eased@[i]).step),
            screen.wf(),
            motions@.len() == i,
            forall|k: int|
                0 <= k < n ==> #[trigger] cards@[k] == if k < i {
                    advanced(old(cards)@[k], dragged == Some(k as usize), eased@[k], screen)
                } else {
                    old(cards)@[k]
                },
            forall|k: int|
                0 <= k < i ==> #[trigger] motions@[k] == motion(
                    old(cards)@[k],
                    dragged == Some(k as usize),
                    eased@[k],
                ),
        decreases n - i,
    {
        let c: Card = cards[i];
        assert(cards@[i as int] == old(cards)@[i as int]);
        assert(old(cards)@[i as int].wf());
        let e: Eased = eased[i];
        assert(reachable(eased@[i as int].step));
        let under = match dragged {
            Some(d) => d == i,
            None => false,
        };
        let (d, m) = step_card(c, under, e, screen);
        cards.set(i, d);
        motions.push(m);
        i = i + 1;
    }
    proof {
        lemma_same_roles(old(cards)@, cards@);
    }
    motions
}

/// A gliding window that has not arrived comes nearer in every step, as long as
/// the eased step does not lead past the target or away from it.
pub proof fn glide_always_gains(at: int, to: int, step: int)
    requires
        at != to,
        to > at ==> 0 <= step <= to - at,
        to < at ==> to - at <= step <= 0,
    ensures
        ({
            let n = glide_axis(at, to, step);
            let left = if to > n {
                to - n
            } else {
                n - to
            };
            let before = if to > at {
                to - at
            } else {
                at - to
            };
            left < before
        }),
{
}

/// Something is left for the next step to do. `easing` says whether any of the
/// window's faded quantities is still on its way; of the button only the
/// colours count.
pub fn any_animating(cards: &Vec<Card>, easing: &Vec<bool>, colour: &Vec<bool>, sliding: bool) -> (r:
    bool)
    requires
        easing@.len() == cards@.len(),
        colour@.len() == cards@.len(),
    ensures
        r == (sliding || exists|i: int|
            0 <= i < cards@.len() && (colour@[i] || ((#[trigger] cards@[i]).role != Role::Button && (
            easing@[i] || cards@[i].pos_to is Some || cards@[i].flung || cards@[i].closing
                || cards@[i].hold_us > 0)))),
        sliding ==> r,
        !r ==> forall|i: int|
            0 <= i < cards@.len() && (#[trigger] cards@[i]).role != Role::Button ==> cards@[i].pos_to is None
                && !cards@[i].flung && !cards@[i].closing && cards@[i].hold_us == 0 && !easing@[i],
{
    if sliding {
        return true;
    }
    let mut i: usize = 0;
    while i < cards.len()
        invariant
            i <= cards@.len(),
            easing@.len() == cards@.len(),
            colour@.len() == cards@.len(),
            !sliding,
            forall|k: int|
                0 <= k < i ==> !(colour@[k] || ((#[trigger] cards@[k]).role != Role::Button && (
                easing@[k] || cards@[k].pos_to is Some || cards@[k].flung || cards@[k].closing
                    || cards@[k].hold_us > 0))),
        decreases cards@.len() - i,
    {
        let c: Card = cards[i];
        let is_button = matches!(c.role, Role::Button);
        if colour[i] || (!is_button && (easing[i] || c.pos_to.is_some() || c.flung || c.closing
            || c.hold_us > 0)) {
            assert(cards@[i as int] == c);
            return true;
        }
        i = i + 1;
    }
    false
}

/// How far two places on an axis are apart.
pub open spec fn away(a: int, b: int) -> int {
    if a < b {
        b - a
    } else {
        a - b
    }
}

/// The eased step does not lead away from the target, nor past it.
pub open spec fn leads(at: int, to: int, step: int) -> bool {
    &&& to >= at ==> 0 <= step <= to - at
    &&& to <= at ==> to - at <= step <= 0
}

/// A window that glides, and is neither dragged nor flung, is moved, and along
/// either axis on which it is not there yet it comes nearer to its target: by the
/// eased step at least, and never past the target. Along an axis on which it is
/// there it stays.
pub proof fn gliding_window_comes_nearer(c: Card, e: Eased, t: Point)
    requires
        c.wf(),
        reachable(e.step),
        !c.flung,
        c.pos_to == Some(t),
        leads(c.rect.left as int, t.x as int, e.step.x as int),
        leads(c.rect.top as int, t.y as int, e.step.y as int),
    ensures
        motion(c, false, e) is Move,
        ({
            let q = motion(c, false, e)->Move_0;
            &&& t.x != c.rect.left ==> away(q.x as int, t.x as int) < away(
                c.rect.left as int,
                t.x as int,
            )
            &&& t.y != c.rect.top ==> away(q.y as int, t.y as int) < away(
                c.rect.top as int,
                t.y as int,
            )
            &&& t.x == c.rect.left ==> q.x == t.x
            &&& t.y == c.rect.top ==> q.y == t.y
            &&& away(q.x as int, c.rect.left as int) >= away(e.step.x as int, 0)
            &&& away(q.y as int, c.rect.top as int) >= away(e.step.y as int, 0)
            &&& away(q.x as int, c.rect.left as int) + away(q.x as int, t.x as int) == away(
                c.rect.left as int,
                t.x as int,
            )
            &&& away(q.y as int, c.rect.top as int) + away(q.y as int, t.y as int) == away(
                c.rect.top as int,
                t.y as int,
            )
        }),
{
}

/// Away from the target a gliding window is moved by the eased step itself along
/// an axis on which there is one.
pub proof fn gliding_window_takes_the_eased_step(c: Card, e: Eased, t: Point)
    requires
        c.wf(),
        reachable(e.step),
        !c.flung,
        c.pos_to == Some(t),
        away(c.rect.left as int, t.x as int) > 1 || away(c.rect.top as int, t.y as int) > 1,
    ensures
        motion(c, false, e) is Move,
        e.step.x != 0 ==> motion(c, false, e)->Move_0.x - c.rect.left == e.step.x,
        e.step.y != 0 ==> motion(c, false, e)->Move_0.y - c.rect.top == e.step.y,
        forall|screen: Rect| (#[trigger] advanced(c, false, e, screen)).pos_to == c.pos_to,
{
}

/// A glide ends at its target: once the window is within a pixel of it along both
/// axes it is moved right there and glides no more, and in no other case does a
/// glide end.
pub proof fn a_glide_ends_at_its_target(c: Card, dragged: bool, e: Eased, screen: Rect, t: Point)
    requires
        c.wf(),
        c.pos_to == Some(t),
    ensures
        advanced(c, dragged, e, screen).pos_to is None || advanced(c, dragged, e, screen).pos_to
            == Some(t),
        advanced(c, dragged, e, screen).pos_to is None ==> motion(c, dragged, e) == Motion::Move(t),
        advanced(c, dragged, e, screen).pos_to is None <==> !dragged && !c.flung && away(
            c.rect.left as int,
            t.x as int,
        ) <= 1 && away(c.rect.top as int, t.y as int) <= 1,
{
}

/// The window under the hand is left where the hand has it, and one with nowhere to
/// go where it is: they are drawn again just where they look different. A hurled
/// window flies on by its step.
pub proof fn still_windows_are_not_moved(c: Card, e: Eased)
    requires
        c.wf(),
        reachable(e.step),
    ensures
        motion(c, true, e) == if e.changed {
            Motion::Redraw
        } else {
            Motion::Still
        },
        !c.flung && c.pos_to is None ==> motion(c, false, e) == motion(c, true, e),
        c.flung ==> motion(c, false, e) is Fly,
        c.flung ==> motion(c, false, e)->Fly_0.x - c.rect.left == e.step.x,
        c.flung ==> motion(c, false, e)->Fly_0.y - c.rect.top == e.step.y,
{
}

/// A window is destroyed only once it has faded, or flew off the screen. A hurled
/// one that has a pixel on the screen, or within a hundred pixels of it, flies on;
/// one that is further away on any side is destroyed. A step changes nothing else.
pub proof fn windows_go_once_they_are_out_of_sight(
    c: Card,
    dragged: bool,
    e: Eased,
    screen: Rect,
)
    requires
        c.wf(),
        screen.wf(),
    ensures
        ({
            let d = advanced(c, dragged, e, screen);
            &&& c.dying ==> d.dying
            &&& e.faded && c.closing ==> d.dying
            &&& e.faded && c.flung && !dragged ==> d.dying
            &&& !c.closing && !c.flung ==> d.dying == c.dying
            &&& !e.faded && (dragged || !c.flung) ==> d.dying == c.dying
            &&& forall|x: int, y: int|
                #![trigger c.rect.holds(x, y)]
                c.rect.holds(x, y) && screen.left - 100 <= x <= screen.right + 100 && screen.top
                    - 100 <= y <= screen.bottom + 100 && !e.faded ==> d.dying == c.dying
            &&& c.flung && !dragged && (c.rect.right + 100 < screen.left || c.rect.left - 100
                > screen.right || c.rect.bottom + 100 < screen.top || c.rect.top - 100
                > screen.bottom) ==> d.dying
            &&& d == (Card { pos_to: d.pos_to, dying: d.dying, ..c })
        }),
{
}

/// A newcomer stays hidden until its time has run out, and shows from then on.
/// Nothing else changes, and other windows not at all.
#[verifier::spinoff_prover]
pub proof fn newcomers_show_when_their_time_has_come(c: Card, a: int)
    requires
        0 <= a <= u32::MAX,
    ensures
        a < c.hold_us ==> held_back(c, a).hold_us == c.hold_us - a && held_back(c, a).shown
            == c.shown,
        0 < c.hold_us <= a ==> held_back(c, a).hold_us == 0 && held_back(c, a).shown,
        c.hold_us == 0 ==> held_back(c, a) == c,
        held_back(c, a) == (Card {
            hold_us: held_back(c, a).hold_us,
            shown: held_back(c, a).shown,
            ..c
        }),
{
}

/// However the time is cut into steps, it runs out at the same moment.
#[verifier::spinoff_prover]
pub proof fn time_may_be_cut_into_steps(c: Card, a: int, b: int)
    requires
        0 <= a <= u32::MAX,
        0 <= b <= u32::MAX,
    ensures
        held_back(held_back(c, a), b).hold_us == held_back(c, a + b).hold_us,
        held_back(held_back(c, a), b).shown == held_back(c, a + b).shown,
{
    let d = held_back(c, a);
    if c.hold_us == 0 {
        assert(d == c);
    } else if c.hold_us > a {
        assert(d.hold_us == c.hold_us - a);
        assert(d.shown == c.shown);
    } else {
        assert(d.hold_us == 0);
        assert(d.shown);
    }
}

} // verus!
