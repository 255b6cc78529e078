//! The mouse over notes: dragging, docked notes that slide out, and the
//! keyboard focus.

use vstd::prelude::*;
use crate::actions::closing_card;
use crate::actions::flung_card;
use crate::card::Card;
use crate::desk::Desk;
use crate::desk::Drag;
use crate::geometry::dock_x;
use crate::geometry::docked_left;
use crate::geometry::clamped;
use crate::geometry::greater;
use crate::geometry::out_left;
use crate::geometry::Point;
use crate::geometry::Rect;
use crate::metrics::modest;
use crate::stack::all_sent;
use crate::stack::only_sent;
use crate::stack::over_stack;
use crate::stack::snaps_in;
use crate::stack::stack_targets;
use crate::zones::undock_x;

verus! {

/// The absolute value.
pub open spec fn magnitude(v: int) -> int {
    if v < 0 {
        -v
    } else {
        v
    }
}

/// The hand has travelled more than a click's slop.
pub open spec fn travelled(d: Drag, p: Point) -> bool {
    magnitude(p.x - d.last.x) + magnitude(p.y - d.last.y) > 4
}

/// The windows once a note is out of the stack, which closes over the gap.
pub open spec fn left_stack(cards: Seq<Card>, i: int, gap: int) -> Seq<Card> {
    if cards[i].free {
        cards
    } else {
        let freed = cards.update(i, Card { free: true, ..cards[i] });
        all_sent(freed, stack_targets(freed, gap), true)
    }
}

/// The windows once the drag has started: the note leaves the stack and glides
/// no more.
pub open spec fn detached(cards: Seq<Card>, i: int, gap: int) -> Seq<Card> {
    let c = left_stack(cards, i, gap);
    c.update(i, Card { pos_to: None, ..c[i] })
}

impl Desk {
    /// The note leaves the stack.
    fn leave_stack(&mut self, i: usize, gap: i32)
        requires
            old(self).wf(),
            i < old(self).cards@.len(),
            modest(gap as int),
        ensures
            final(self).wf(),
            final(self).cards@.len() == old(self).cards@.len(),
            final(self).cards@ == left_stack(old(self).cards@, i as int, gap as int),
            *final(self) == (Desk { cards: final(self).cards, ..*old(self) }),
    {
        let c: Card = self.cards[i];
        assert(self.cards@[i as int].wf());
        if !c.free {
            self.set_card(i, freed(c));
            self.relayout(gap, true);
        }
    }

    /// The drag starts.
    fn detach(&mut self, i: usize, gap: i32)
        requires
            old(self).wf(),
            i < old(self).cards@.len(),
            modest(gap as int),
        ensures
            final(self).wf(),
            final(self).cards@ == detached(old(self).cards@, i as int, gap as int),
            *final(self) == (Desk { cards: final(self).cards, ..*old(self) }),
    {
        self.leave_stack(i, gap);
        let c: Card = self.cards[i];
        assert(c.wf() && c.stamp() <= self.deletions) by {
            assert(self.cards@[i as int] == c);
        }
        let d: Card = stopped(c);
        assert(d.stamp() == c.stamp());
        self.set_card(i, d);
    }

    /// The hand moves with a note. The result is where the note goes, once the
    /// hand has left the spot.
    pub fn drag_move(&mut self, p: Point, gap: i32) -> (r: Option<Point>)
        requires
            old(self).wf(),
            p.wf(),
            modest(gap as int),
        ensures
            final(self).wf(),
            match old(self).drag {
                None => r is None && *final(self) == *old(self),
                Some(d) => {
                    let starts = !d.moved && travelled(d, p);
                    &&& final(self).cards@ == if starts {
                        detached(old(self).cards@, d.idx as int, gap as int)
                    } else {
                        old(self).cards@
                    }
                    &&& if d.moved || starts {
                        &&& r == Some(
                            Point { x: (p.x - d.grab.x) as i32, y: (p.y - d.grab.y) as i32 },
                        )
                        &&& final(self).drag == Some(Drag { moved: true, last: p, ..d })
                    } else {
                        r is None && final(self).drag == old(self).drag
                    }
                    &&& *final(self) == (Desk {
                        cards: final(self).cards,
                        drag: final(self).drag,
                        ..*old(self)
                    })
                },
            },
            old(self).drag is Some && r is Some ==> r->Some_0.x + old(self).drag->Some_0.grab.x == p.x
                && r->Some_0.y + old(self).drag->Some_0.grab.y == p.y,
            r is Some ==> final(self).drag is Some && final(self).drag->Some_0.moved
                && final(self).drag->Some_0.last == p,
            old(self).drag is Some ==> final(self).drag is Some && final(self).drag->Some_0.idx == old(
                self,
            ).drag->Some_0.idx && final(self).drag->Some_0.grab == old(self).drag->Some_0.grab,
            old(self).drag is Some && old(self).drag->Some_0.moved ==> r is Some && final(self).cards@ == old(
                self,
            ).cards@,
    {
        match self.drag {
            None => None,
            Some(d) => {
                let dx: i32 = if p.x < d.last.x {
                    d.last.x - p.x
                } else {
                    p.x - d.last.x
                };
                let dy: i32 = if p.y < d.last.y {
                    d.last.y - p.y
                } else {
                    p.y - d.last.y
                };
                if !d.moved && dx + dy <= 4 {
                    return None;
                }
                if !d.moved {
                    self.detach(d.idx, gap);
                }
                self.drag = Some(
                    Drag {
                        idx: d.idx,
                        grab: d.grab,
                        moved: true,
                        last: p,
                        from: d.from,
                        free: d.free,
                    },
                );
                Some(Point { x: p.x - d.grab.x, y: p.y - d.grab.y })
            },
        }
    }

    /// The note under the hand glows while it would snap into the stack.
    pub fn drag_glow(&mut self, gap: i32)
        requires
            old(self).wf(),
            modest(gap as int),
        ensures
            final(self).wf(),
            match old(self).drag {
                Some(d) => final(self).cards@ == if d.moved && old(
                    self,
                ).cards@[d.idx as int].free {
                    old(self).cards@.update(
                        d.idx as int,
                        Card {
                            glow: snaps_in(old(self).cards@, d.idx as int, gap as int),
                            ..old(self).cards@[d.idx as int]
                        },
                    )
                } else {
                    old(self).cards@
                },
                None => final(self).cards@ == old(self).cards@,
            },
            *final(self) == (Desk { cards: final(self).cards, ..*old(self) }),
            final(self).cards@.len() == old(self).cards@.len(),
            forall|j: int|
                0 <= j < old(self).cards@.len() ==> (#[trigger] final(self).cards@[j]).rect == old(
                    self,
                ).cards@[j].rect && final(self).cards@[j].pos_to == old(self).cards@[j].pos_to,
    {
        if let Some(d) = self.drag {
            let c: Card = self.cards[d.idx];
            assert(self.cards@[d.idx as int].wf());
            if d.moved && c.free {
                let on = over_stack(&self.cards, d.idx, gap);
                self.set_card(d.idx, glowing(c, on));
            }
        }
    }
}

/// The note out of the stack.
fn freed(c: Card) -> (r: Card)
    requires
        c.wf(),
    ensures
        r == (Card { free: true, ..c }),
        r.wf(),
{
    let mut d: Card = c;
    d.free = true;
    d
}

/// The window that glides no more.
fn stopped(c: Card) -> (r: Card)
    requires
        c.wf(),
    ensures
        r == (Card { pos_to: None, ..c }),
        r.wf(),
{
    let mut d: Card = c;
    d.pos_to = None;
    d
}

/// The window with its rim glowing or not.
fn glowing(c: Card, on: bool) -> (r: Card)
    requires
        c.wf(),
    ensures
        r == (Card { glow: on, ..c }),
        r.wf(),
{
    let mut d: Card = c;
    d.glow = on;
    d
}

/// A docked note that slides back on screen.
pub open spec fn undocked_card(c: Card, wa: Rect) -> Card {
    Card {
        docked: 0,
        revealed: false,
        pos_to: Some(
            Point {
                x: clamped(
                    c.rect.left as int,
                    wa.left + 8,
                    greater(wa.right - c.rect.w() - 8, wa.left + 8),
                ) as i32,
                y: c.rect.top,
            },
        ),
        ..c
    }
}

/// A docked note that glides to its sliver, or out a little to peek.
pub open spec fn poked_card(c: Card, wa: Rect, peek: bool) -> Card {
    Card {
        tracking: peek,
        revealed: peek,
        pos_to: Some(
            Point {
                x: docked_left(c.docked as int, c.rect.w(), peek, wa) as i32,
                y: c.rect.top,
            },
        ),
        ..c
    }
}

/// A docked note that glides out until all of it shows.
pub open spec fn drawn_out(c: Card, wa: Rect) -> Card {
    Card {
        pos_to: Some(
            Point { x: out_left(c.docked as int, c.rect.w(), wa) as i32, y: c.rect.top },
        ),
        ..c
    }
}

/// The window is a note that slid out and has the keyboard.
pub open spec fn edits(d: Desk, idx: usize) -> bool {
    d.focused == Some(idx) && d.cards@[idx as int].revealed
}

/// A note that slid out stays out: the mouse, at `p`, is on it, or it has the
/// keyboard.
pub open spec fn stays_out(d: Desk, idx: usize, p: Point) -> bool {
    let c = d.cards@[idx as int];
    c.revealed && c.rect.holds(p.x as int, p.y as int) || edits(d, idx)
}

fn draw_out(c: Card, wa: Rect) -> (r: Card)
    requires
        c.wf(),
        wa.wf(),
    ensures
        r == drawn_out(c, wa),
        r.wf(),
{
    let mut d: Card = c;
    let x: i32 = if c.docked < 0 {
        wa.left
    } else {
        wa.right - c.rect.width()
    };
    d.pos_to = Some(Point { x, y: c.rect.top });
    d
}

fn watched(c: Card, on: bool) -> (r: Card)
    requires
        c.wf(),
    ensures
        r == (Card { tracking: on, ..c }),
        r.wf(),
{
    let mut d: Card = c;
    d.tracking = on;
    d
}

fn undock(c: Card, wa: Rect) -> (r: Card)
    requires
        c.wf(),
        wa.wf(),
    ensures
        r == undocked_card(c, wa),
        r.wf(),
{
    let mut d: Card = c;
    d.docked = 0;
    d.revealed = false;
    d.pos_to = Some(Point { x: undock_x(c.rect, wa), y: c.rect.top });
    d
}

fn poke_out(c: Card, wa: Rect, peek: bool) -> (r: Card)
    requires
        c.wf(),
        wa.wf(),
    ensures
        r == poked_card(c, wa, peek),
        r.wf(),
{
    let mut d: Card = c;
    d.tracking = peek;
    d.revealed = peek;
    d.pos_to = Some(
        Point { x: dock_x(c.docked, c.rect.width(), peek, wa), y: c.rect.top },
    );
    d
}

impl Desk {
    /// A click on a docked note slides it back on screen.
    pub fn undock_note(&mut self, idx: usize, wa: Rect)
        requires
            old(self).wf(),
            idx < old(self).cards@.len(),
            wa.wf(),
        ensures
            final(self).wf(),
            final(self).cards@ == old(self).cards@.update(
                idx as int,
                undocked_card(old(self).cards@[idx as int], wa),
            ),
            *final(self) == (Desk { cards: final(self).cards, dirty: true, ..*old(self) }),
            final(self).dirty,
            final(self).cards@[idx as int].docked == 0,
    {
        assert(self.cards@[idx as int].wf());
        let c = undock(self.cards[idx], wa);
        self.set_card(idx, c);
        self.dirty = true;
    }

    /// The mouse moves over a docked note: where notes slide out, it peeks out,
    /// unless it is out already to be edited. True where the mouse leaving it is
    /// to be watched for from now on.
    pub fn peek(&mut self, idx: usize, wa: Rect) -> (watch: bool)
        requires
            old(self).wf(),
            idx < old(self).cards@.len(),
            wa.wf(),
        ensures
            final(self).wf(),
            ({
                let c = old(self).cards@[idx as int];
                let peeks = old(self).slide_out && old(self).drag is None && c.docked != 0;
                &&& watch == (peeks && !c.tracking)
                &&& final(self).cards@ == if !peeks {
                    old(self).cards@
                } else if edits(*old(self), idx) {
                    old(self).cards@.update(idx as int, Card { tracking: true, ..c })
                } else {
                    old(self).cards@.update(idx as int, poked_card(c, wa, true))
                }
            }),
            *final(self) == (Desk { cards: final(self).cards, ..*old(self) }),
            !old(self).slide_out || old(self).drag is Some ==> !watch && final(self).cards@ == old(self).cards@,
            old(self).cards@[idx as int].docked == 0 ==> !watch && final(self).cards@ == old(self).cards@,
            watch ==> !old(self).cards@[idx as int].tracking && final(self).cards@[idx as int].tracking,
            watch || final(self).cards@ != old(self).cards@ ==> final(self).cards@[idx as int].revealed,
    {
        let c: Card = self.cards[idx];
        assert(self.cards@[idx as int].wf());
        if !self.slide_out || self.drag.is_some() || c.docked == 0 {
            return false;
        }
        if self.is_edited(idx) {
            self.set_card(idx, watched(c, true));
        } else {
            self.set_card(idx, poke_out(c, wa, true));
        }
        !c.tracking
    }

    /// The mouse has left the inside of a window and is at `p`: a docked note goes
    /// back to its sliver, unless the mouse is on its border or the note is out to
    /// be edited.
    pub fn unpeek(&mut self, idx: usize, p: Point, wa: Rect)
        requires
            old(self).wf(),
            idx < old(self).cards@.len(),
            wa.wf(),
        ensures
            final(self).wf(),
            ({
                let c = old(self).cards@[idx as int];
                final(self).cards@ == old(self).cards@.update(
                    idx as int,
                    if c.docked != 0 && !stays_out(*old(self), idx, p) {
                        poked_card(c, wa, false)
                    } else {
                        Card { tracking: false, ..c }
                    },
                )
            }),
            *final(self) == (Desk { cards: final(self).cards, ..*old(self) }),
            !final(self).cards@[idx as int].tracking,
            old(self).cards@[idx as int].docked == 0 ==> final(self).cards@[idx as int].pos_to == old(
                self,
            ).cards@[idx as int].pos_to,
            final(self).cards@[idx as int].revealed ==> old(self).cards@[idx as int].revealed,
    {
        let c: Card = self.cards[idx];
        assert(self.cards@[idx as int].wf());
        if c.docked != 0 && !self.is_out(idx, p) {
            self.set_card(idx, poke_out(c, wa, false));
        } else {
            self.set_card(idx, watched(c, false));
        }
    }

    /// Whether a note that slid out stays out.
    fn is_out(&self, idx: usize, p: Point) -> (r: bool)
        requires
            idx < self.cards@.len(),
        ensures
            r == stays_out(*self, idx, p),
    {
        let b = self.cards[idx].rect;
        let on = b.left <= p.x && p.x < b.right && b.top <= p.y && p.y < b.bottom;
        self.cards[idx].revealed && on || self.is_edited(idx)
    }

    /// Whether the window is a note that slid out and has the keyboard.
    fn is_edited(&self, idx: usize) -> (r: bool)
        requires
            idx < self.cards@.len(),
        ensures
            r == edits(*self, idx),
    {
        match self.focused {
            Some(f) => f == idx && self.cards[idx].revealed,
            None => false,
        }
    }

    /// A window gets the keyboard; only notes use it. A docked note that slid out
    /// comes out as a whole. True where the caret is to blink from now on.
    pub fn gain_focus(&mut self, idx: usize, wa: Rect) -> (r: bool)
        requires
            old(self).wf(),
            idx < old(self).cards@.len(),
            wa.wf(),
        ensures
            final(self).wf(),
            r == old(self).cards@[idx as int].note(),
            ({
                let c = old(self).cards@[idx as int];
                final(self).cards@ == if r && c.docked != 0 && c.revealed {
                    old(self).cards@.update(idx as int, drawn_out(c, wa))
                } else {
                    old(self).cards@
                }
            }),
            *final(self) == if r {
                Desk {
                    cards: final(self).cards,
                    focused: Some(idx),
                    caret_on: true,
                    ..*old(self)
                }
            } else {
                *old(self)
            },
            r ==> final(self).focused == Some(idx) && final(self).caret_on,
            !r ==> final(self).focused == old(self).focused,
            old(self).cards@[idx as int].docked == 0 ==> final(self).cards@ == old(self).cards@,
    {
        let c: Card = self.cards[idx];
        assert(self.cards@[idx as int].wf());
        if !c.is_note() {
            return false;
        }
        self.focused = Some(idx);
        self.caret_on = true;
        if c.docked != 0 && c.revealed {
            self.set_card(idx, draw_out(c, wa));
        }
        true
    }

    /// A docked note that slid out goes back to its sliver once the mouse, at
    /// `p`, is not on it and it has not the keyboard.
    pub fn settle(&mut self, idx: usize, p: Point, wa: Rect)
        requires
            old(self).wf(),
            idx < old(self).cards@.len(),
            wa.wf(),
        ensures
            final(self).wf(),
            ({
                let c = old(self).cards@[idx as int];
                final(self).cards@ == if c.docked != 0 && c.revealed && !stays_out(
                    *old(self),
                    idx,
                    p,
                ) {
                    old(self).cards@.update(idx as int, poked_card(c, wa, false))
                } else {
                    old(self).cards@
                }
            }),
            *final(self) == (Desk { cards: final(self).cards, ..*old(self) }),
            old(self).cards@[idx as int].docked == 0 || !old(self).cards@[idx as int].revealed
                ==> final(self).cards@ == old(self).cards@,
            final(self).cards@ != old(self).cards@ ==> !final(self).cards@[idx as int].revealed && old(
                self,
            ).focused != Some(idx),
    {
        let c: Card = self.cards[idx];
        assert(self.cards@[idx as int].wf());
        if c.docked != 0 && c.revealed && !self.is_out(idx, p) {
            self.set_card(idx, poke_out(c, wa, false));
        }
    }

    /// The caret's phase changes.
    pub fn blink(&mut self)
        ensures
            *final(self) == (Desk { caret_on: !old(self).caret_on, ..*old(self) }),
            final(self).caret_on != old(self).caret_on,
            final(self).cards == old(self).cards && final(self).contents == old(self).contents,
    {
        self.caret_on = !self.caret_on;
    }

    /// The user has finished resizing a note: its height is one that it never
    /// falls below by itself.
    pub fn resized(&mut self, idx: usize)
        requires
            old(self).wf(),
            idx < old(self).cards@.len(),
        ensures
            final(self).wf(),
            ({
                let c = old(self).cards@[idx as int];
                final(self).cards@ == if c.note() {
                    old(self).cards@.update(
                        idx as int,
                        Card { manual_h: c.rect.h() as i32, ..c },
                    )
                } else {
                    old(self).cards@
                }
            }),
            *final(self) == (Desk { cards: final(self).cards, dirty: true, ..*old(self) }),
            final(self).dirty,
            old(self).cards@[idx as int].note() ==> final(self).cards@[idx as int].rect.top + final(self).cards@[idx as int].manual_h == final(self).cards@[idx as int].rect.bottom,
    {
        let mut c: Card = self.cards[idx];
        assert(self.cards@[idx as int].wf());
        if c.is_note() {
            c.manual_h = c.rect.height();
            self.set_card(idx, c);
        }
        self.dirty = true;
    }
}

/// Whatever the mouse and the keyboard do to a docked note that slides out, it
/// keeps its edge: it peeks out, comes out as a whole and goes back in its own row
/// beside it.
pub proof fn revealed_note_keeps_its_edge(c: Card, wa: Rect, peek: bool)
    requires
        c.wf(),
        c.docked != 0,
    ensures
        poked_card(c, wa, peek).docked == c.docked,
        poked_card(c, wa, peek).pos_to->Some_0.y == c.rect.top,
        drawn_out(c, wa).docked == c.docked,
        drawn_out(c, wa).pos_to->Some_0.y == c.rect.top,
        poked_card(c, wa, false).hidden(),
        !poked_card(c, wa, true).hidden(),
        poked_card(drawn_out(poked_card(c, wa, true), wa), wa, false) == poked_card(c, wa, false),
{
}

/// A flicked note comes back to where the hand grabbed it, and into the stack
/// where it was in it then; a closed one comes back to where it stood. Closing a
/// note that flies away, and hurling one that is closing, changes nothing in
/// that, nor in when it was deleted.
pub proof fn deletion_remembers_the_place(c: Card, from: Rect, free: bool, stamp: u64)
    ensures
        c.left is None ==> {
            let f = flung_card(c, from, free, stamp);
            let g = closing_card(c, stamp);
            &&& f.before_leaving().rect == from && f.before_leaving().free == free
            &&& g.before_leaving().rect == c.rect && g.before_leaving().free == c.free
            &&& f.stamp() == stamp && g.stamp() == stamp
        },
        c.left is Some ==> {
            let f = flung_card(c, from, free, stamp);
            let g = closing_card(c, stamp);
            f.left == c.left && g.left == c.left
        },
{
}

/// An undocked note glides to the nearest column that shows all of it with eight
/// pixels to spare on both sides, in the row where it is. Where there is no such
/// column, it glides to eight pixels from the left edge.
pub proof fn undocked_note_slides_just_on_screen(c: Card, wa: Rect, z: int)
    requires
        c.wf(),
        wa.wf(),
    ensures
        ({
            let u = undocked_card(c, wa);
            let w = c.rect.right - c.rect.left;
            &&& u.docked == 0 && !u.revealed
            &&& u.pos_to is Some
            &&& u.pos_to->Some_0.y == c.rect.top
            &&& wa.left + 8 <= wa.right - w - 8 ==> wa.left + 8 <= u.pos_to->Some_0.x
                && u.pos_to->Some_0.x + w + 8 <= wa.right
            &&& wa.left + 8 <= z <= wa.right - w - 8 ==> magnitude(
                u.pos_to->Some_0.x - c.rect.left,
            ) <= magnitude(z - c.rect.left)
            &&& wa.left + 8 > wa.right - w - 8 ==> u.pos_to->Some_0.x == wa.left + 8
            &&& u == (Card { docked: 0, revealed: false, pos_to: u.pos_to, ..c })
        }),
{
}

/// A docked note that is drawn out stands right at its edge, and all of it shows
/// where the work area is as wide as it is.
pub proof fn drawn_out_note_shows_whole(c: Card, wa: Rect)
    requires
        c.wf(),
        wa.wf(),
        c.docked != 0,
    ensures
        ({
            let d = drawn_out(c, wa);
            let w = c.rect.right - c.rect.left;
            &&& d.pos_to is Some
            &&& c.docked < 0 ==> d.pos_to->Some_0.x == wa.left
            &&& c.docked > 0 ==> d.pos_to->Some_0.x + w == wa.right
            &&& w <= wa.right - wa.left ==> wa.left <= d.pos_to->Some_0.x && d.pos_to->Some_0.x + w
                <= wa.right
            &&& d.pos_to->Some_0.y == c.rect.top
            &&& d == (Card { pos_to: d.pos_to, ..c })
        }),
{
}

/// The hand has left the spot once the two ways that it went along the axes add up
/// to more than four pixels, in whatever direction.
pub proof fn a_drag_starts_beyond_four_pixels(d: Drag, p: Point)
    ensures
        !travelled(d, p) <==> {
            let dx = p.x - d.last.x;
            let dy = p.y - d.last.y;
            dx + dy <= 4 && dx - dy <= 4 && dy - dx <= 4 && -dx - dy <= 4
        },
{
}

/// A note that slid out stays out while the mouse is on any pixel of it, or while it
/// has the keyboard; a note that is in stays in.
pub proof fn a_note_stays_out_while_it_is_used(d: Desk, idx: usize, p: Point)
    requires
        idx < d.cards@.len(),
    ensures
        !d.cards@[idx as int].revealed ==> !stays_out(d, idx, p),
        d.cards@[idx as int].revealed && d.focused == Some(idx) ==> stays_out(d, idx, p),
        d.cards@[idx as int].revealed && d.focused != Some(idx) ==> {
            let r = d.cards@[idx as int].rect;
            stays_out(d, idx, p) <==> r.left <= p.x < r.right && r.top <= p.y < r.bottom
        },
{
}

/// The others stay what they are once a note is out of the stack.
proof fn lemma_left_stack(cards: Seq<Card>, i: int, gap: int)
    requires
        crate::card::cards_ok(cards),
        0 <= i < cards.len(),
        modest(gap),
    ensures
        only_sent(cards.update(i, Card { free: true, ..cards[i] }), left_stack(cards, i, gap)),
        cards[i].free ==> left_stack(cards, i, gap) == cards,
{
    let freed = cards.update(i, Card { free: true, ..cards[i] });
    assert(cards[i].wf());
    crate::card::lemma_update(cards, i, Card { free: true, ..cards[i] });
    crate::stack::lemma_sent_only(freed, gap);
    if cards[i].free {
        assert(freed =~= cards);
        assert forall|k: int| 0 <= k < freed.len() implies crate::stack::moved_only(
            #[trigger] freed[k],
            cards[k],
        ) by {
            reveal(crate::stack::moved_only);
        }
    }
}

/// The note under the hand is out of the stack once the drag has started, stands
/// where it is, and keeps all else; the others only glide elsewhere, and not even that where
/// it was out of the stack before.
pub proof fn a_dragged_note_leaves_the_stack(cards: Seq<Card>, i: int, gap: int, k: int)
    requires
        crate::card::cards_ok(cards),
        0 <= i < cards.len(),
        0 <= k < cards.len(),
        modest(gap),
    ensures
        detached(cards, i, gap).len() == cards.len(),
        crate::stack::moved_only(Card { free: true, ..cards[i] }, detached(cards, i, gap)[i]),
        detached(cards, i, gap)[i].pos_to is None,
        k != i ==> crate::stack::moved_only(cards[k], detached(cards, i, gap)[k]),
        k != i && cards[i].free ==> detached(cards, i, gap)[k] == cards[k],
{
    lemma_left_stack(cards, i, gap);
    let freed = cards.update(i, Card { free: true, ..cards[i] });
    let s = left_stack(cards, i, gap);
    assert(crate::stack::moved_only(freed[i], s[i]));
    assert(crate::stack::moved_only(freed[k], s[k]));
    crate::stack::lemma_moved_stopped(freed[i], s[i]);
}

/// A docked note shows a tenth of its width on its edge, or a fifth while the mouse
/// is on it, and is out just then.
pub proof fn a_docked_note_shows_a_tenth(c: Card, wa: Rect)
    requires
        c.wf(),
        wa.wf(),
        c.docked != 0,
        c.rect.w() >= 0,
    ensures
        ({
            let w = c.rect.right - c.rect.left;
            let s = poked_card(c, wa, false).pos_to->Some_0.x;
            let p = poked_card(c, wa, true).pos_to->Some_0.x;
            let a = if c.docked < 0 {
                s + w - wa.left
            } else {
                wa.right - s
            };
            let b = if c.docked < 0 {
                p + w - wa.left
            } else {
                wa.right - p
            };
            &&& 10 * a <= w <= 10 * a + 10
            &&& 5 * b <= w <= 5 * b + 5
            &&& 2 * a <= b <= 2 * a + 1
            &&& poked_card(c, wa, true).revealed && poked_card(c, wa, true).tracking
            &&& !poked_card(c, wa, false).revealed && !poked_card(c, wa, false).tracking
        }),
{
    let w = c.rect.w() as nat;
    crate::geometry::a_tenth_shows(w);
    crate::geometry::lemma_poke(w, true);
    crate::geometry::lemma_poke(w, false);
}

/// When a note is taken out of the stack the others close over its gap: each glides
/// to its place in the column.
pub proof fn the_stack_closes_over_a_dragged_note(cards: Seq<Card>, i: int, gap: int, k: int)
    requires
        crate::card::cards_ok(cards),
        0 < i < cards.len(),
        0 <= k < cards.len(),
        k != i,
        modest(gap),
        cards[i].note(),
        !cards[i].free,
        cards[k].stacked(),
    ensures
        crate::stack::heads_for_column(detached(cards, i, gap)[k], cards[0].rect),
{
    let c = Card { free: true, ..cards[i] };
    let freed = cards.update(i, c);
    crate::card::lemma_update(cards, i, c);
    assert(freed[k] == cards[k] && freed[0] == cards[0]);
    crate::stack::stacked_notes_head_for_the_column(freed, gap, k);
}

} // verus!
