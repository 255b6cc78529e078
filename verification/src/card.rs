//! The windows on the desktop: the button, the notes and the pills of the
//! menu, and where each of them goes.

use vstd::prelude::*;
use crate::geometry::clamp_to;
use crate::geometry::clamped;
use crate::geometry::Point;
use crate::geometry::Rect;
use crate::geometry::REACH;
use crate::metrics::modest;

verus! {

/// What a window is.
#[derive(Clone, Copy, Debug, PartialEq, Eq, Structural)]
pub enum Role {
    Button,
    /// The pills of the menu.
    Quit,
    Startup,
    SlideOut,
    Opacity,
    Size,
    Note,
}

/// One window.
#[derive(Clone, Copy, Debug, PartialEq, Eq, Structural)]
pub struct Card {
    pub role: Role,
    /// Whether a toggle pill shows its toggle on.
    pub pill_on: bool,
    /// The identity of a note on disk.
    pub id: u64,
    /// Floating, in place of stacked.
    pub free: bool,
    /// 0 for none, negative for the left edge, positive for the right one.
    pub docked: i8,
    /// The mouse leaving this docked note will be noticed.
    pub tracking: bool,
    /// The docked note has slid out of its edge.
    pub revealed: bool,
    /// Palette index.
    pub color: u8,
    /// The least height that the user chose; 0 for none.
    pub manual_h: i32,
    /// Where the window is.
    pub rect: Rect,
    /// The window fades towards being shown.
    pub shown: bool,
    /// How long a newcomer still stays hidden, in microseconds.
    pub hold_us: u32,
    /// The rim fades towards glowing.
    pub glow: bool,
    /// The fill fades towards being firm.
    pub active: bool,
    /// Where the window glides to.
    pub pos_to: Option<Point>,
    /// The note was hurled away.
    pub flung: bool,
    /// The window drifts away and fades.
    pub closing: bool,
    /// The window is to be destroyed.
    pub dying: bool,
    /// The colour scheme is the light one.
    pub light: bool,
    /// The scheme that the background asks for, and for how long it has, in
    /// milliseconds.
    pub wanted: bool,
    pub wanted_ms: u32,
    /// The scheme was settled once.
    pub sampled: bool,
    /// The deletion of the note has begun.
    pub left: Option<Leaving>,
}

/// How the deletion of a note began.
#[derive(Clone, Copy, Debug, PartialEq, Eq, Structural)]
pub struct Leaving {
    /// Where the note was.
    pub from: Rect,
    /// The note was out of the stack.
    pub free: bool,
    /// The number of the deletion; those that begin later have greater ones.
    pub stamp: u64,
}

/// How many windows there may be.
pub const MAX_CARDS: usize = 5000;

impl Card {
    /// The window is a note.
    pub open spec fn note(self) -> bool {
        self.role == Role::Note
    }

    /// The window is a pill of the menu.
    pub open spec fn pill(self) -> bool {
        self.role != Role::Note && self.role != Role::Button
    }

    /// The window is a note in the stack.
    pub open spec fn stacked(self) -> bool {
        self.note() && !self.free && self.docked == 0
    }

    /// The window is a docked note of which only a sliver shows.
    pub open spec fn hidden(self) -> bool {
        self.docked != 0 && !self.revealed
    }

    /// The number of the deletion that has begun; 0 for none.
    pub open spec fn stamp(self) -> u64 {
        match self.left {
            Some(l) => l.stamp,
            None => 0,
        }
    }

    /// The window as it was before its deletion began.
    pub open spec fn before_leaving(self) -> Card {
        match self.left {
            Some(l) => Card { rect: l.from, free: l.free, ..self },
            None => self,
        }
    }

    /// The window has a size that windows have, and glides to a place that can
    /// be reached.
    pub open spec fn wf(self) -> bool {
        &&& window_rect(self.rect)
        &&& self.left matches Some(l) ==> window_rect(l.from)
        &&& self.pos_to matches Some(p) ==> reachable(p)
        &&& self.wanted_ms <= 200
        &&& self.wanted != self.light ==> self.wanted_ms < 100
    }

    /// The window as it was before its deletion began, and the number of that.
    pub fn at_leaving(&self) -> (r: (Card, u64))
        requires
            self.wf(),
        ensures
            r.0 == self.before_leaving(),
            r.0.wf(),
            r.1 == self.stamp(),
    {
        match self.left {
            Some(l) => {
                let mut c: Card = *self;
                c.rect = l.from;
                c.free = l.free;
                (c, l.stamp)
            },
            None => (*self, 0),
        }
    }

    /// Whether the window is a note.
    pub fn is_note(&self) -> (r: bool)
        ensures
            r == self.note(),
    {
        matches!(self.role, Role::Note)
    }

    /// Whether the window is a pill of the menu.
    pub fn is_pill(&self) -> (r: bool)
        ensures
            r == self.pill(),
    {
        !matches!(self.role, Role::Note) && !matches!(self.role, Role::Button)
    }

    /// Whether the window is a note in the stack.
    pub fn is_stacked(&self) -> (r: bool)
        ensures
            r == self.stacked(),
    {
        self.is_note() && !self.free && self.docked == 0
    }

    /// Whether the window is a docked note of which only a sliver shows.
    pub fn is_hidden(&self) -> (r: bool)
        ensures
            r == self.hidden(),
    {
        self.docked != 0 && !self.revealed
    }

    /// A window that stands still and shows.
    pub fn new(role: Role, id: u64, rect: Rect) -> (c: Card)
        ensures
            c == fresh_card(role, id, rect),
    {
        Card {
            role,
            pill_on: false,
            id,
            free: true,
            docked: 0,
            tracking: false,
            revealed: false,
            color: 0,
            manual_h: 0,
            rect,
            shown: true,
            hold_us: 0,
            glow: false,
            active: false,
            pos_to: None,
            flung: false,
            closing: false,
            dying: false,
            light: false,
            wanted: false,
            wanted_ms: 0,
            sampled: false,
            left: None,
        }
    }
}

/// A rectangle that a window may take.
pub open spec fn window_rect(r: Rect) -> bool {
    r.wf() && modest(r.w()) && modest(r.h())
}

/// Whether a window may take a rectangle.
pub fn is_window_rect(r: Rect) -> (ok: bool)
    ensures
        ok == window_rect(r),
{
    let near = -REACH <= r.left && r.left <= REACH && -REACH <= r.top && r.top <= REACH && -REACH
        <= r.right && r.right <= REACH && -REACH <= r.bottom && r.bottom <= REACH;
    near && r.left <= r.right && r.right - r.left <= 0x20000 && r.top <= r.bottom && r.bottom
        - r.top <= 0x20000
}

/// The rectangle itself where a window may take it, and otherwise one of no more
/// than the greatest size, at the nearest place within reach.
pub fn within_reach(r: Rect) -> (n: Rect)
    ensures
        window_rect(n),
        window_rect(r) ==> n == r,
        !window_rect(r) ==> {
            &&& n.left == clamped(r.left as int, -REACH, REACH - 0x20000)
            &&& n.top == clamped(r.top as int, -REACH, REACH - 0x20000)
            &&& n.w() == clamped(r.w(), 0, 0x20000)
            &&& n.h() == clamped(r.h(), 0, 0x20000)
        },
{
    if is_window_rect(r) {
        return r;
    }
    let left: i32 = clamp_to(r.left, -REACH, REACH - 0x20000);
    let top: i32 = clamp_to(r.top, -REACH, REACH - 0x20000);
    let w: i64 = r.right as i64 - r.left as i64;
    let h: i64 = r.bottom as i64 - r.top as i64;
    let w: i32 = if w < 0 {
        0
    } else if w > 0x20000 {
        0x20000
    } else {
        w as i32
    };
    let h: i32 = if h < 0 {
        0
    } else if h > 0x20000 {
        0x20000
    } else {
        h as i32
    };
    Rect { left, top, right: left + w, bottom: top + h }
}

/// A place that a window can glide to.
pub open spec fn reachable(p: Point) -> bool {
    -0x6000_0000 <= p.x <= 0x6000_0000 && -0x6000_0000 <= p.y <= 0x6000_0000
}

/// A window that stands still and shows.
pub open spec fn fresh_card(role: Role, id: u64, rect: Rect) -> Card {
    Card {
        role,
        pill_on: false,
        id,
        free: true,
        docked: 0,
        tracking: false,
        revealed: false,
        color: 0,
        manual_h: 0,
        rect,
        shown: true,
        hold_us: 0,
        glow: false,
        active: false,
        pos_to: None,
        flung: false,
        closing: false,
        dying: false,
        light: false,
        wanted: false,
        wanted_ms: 0,
        sampled: false,
        left: None,
    }
}

/// The windows: the button first, and notes and pills behind it.
pub open spec fn cards_ok(cards: Seq<Card>) -> bool {
    &&& 0 < cards.len() <= MAX_CARDS
    &&& cards[0].role == Role::Button
    &&& forall|i: int| 0 < i < cards.len() ==> (#[trigger] cards[i]).role != Role::Button
    &&& forall|i: int| 0 <= i < cards.len() ==> (#[trigger] cards[i]).wf()
}

/// A window may change as long as it stays what it is.
pub proof fn lemma_update(cards: Seq<Card>, i: int, c: Card)
    requires
        cards_ok(cards),
        0 <= i < cards.len(),
        c.wf(),
        c.role == cards[i].role,
    ensures
        cards_ok(cards.update(i, c)),
{
}

/// A new window shows, stands still on its own, and nothing is pending for it.
pub proof fn a_new_window_stands_still(role: Role, id: u64, rect: Rect)
    ensures
        fresh_card(role, id, rect).rect == rect,
        fresh_card(role, id, rect).id == id,
        fresh_card(role, id, rect).role == role,
        fresh_card(role, id, rect).shown,
        fresh_card(role, id, rect).free,
        fresh_card(role, id, rect).docked == 0,
        fresh_card(role, id, rect).pos_to is None,
        fresh_card(role, id, rect).hold_us == 0,
        !fresh_card(role, id, rect).stacked(),
        !fresh_card(role, id, rect).closing && !fresh_card(role, id, rect).dying,
        !fresh_card(role, id, rect).active && !fresh_card(role, id, rect).revealed,
        fresh_card(role, id, rect).left is None,
{
}

/// A window is a note, a pill or the button, and only a note that is not free and
/// not docked is in the stack.
pub proof fn the_stack_holds_notes_alone(c: Card)
    ensures
        !(c.note() && c.pill()),
        c.stacked() ==> c.note() && !c.free && c.docked == 0,
        c.note() && !c.stacked() ==> c.free || c.docked != 0,
{
}

} // verus!
