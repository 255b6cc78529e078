//! Spawning, closing and hurling notes, the menu, and dragging.

use vstd::prelude::*;
use crate::card::cards_ok;
use crate::card::fresh_card;
use crate::card::lemma_update;
use crate::card::window_rect;
use crate::card::Card;
use crate::card::Leaving;
use crate::card::Role;
use crate::card::MAX_CARDS;
use crate::desk::content_of;
use crate::desk::lemma_still;
use crate::desk::reads;
use crate::desk::Desk;
use crate::desk::Drag;
use crate::dock::dock_note;
use crate::dock::docked_card;
use crate::geometry::Point;
use crate::geometry::Rect;
use crate::metrics::modest;
use crate::metrics::Metrics;
use crate::stack::all_sent;
use crate::stack::only_sent;
use crate::stack::over_stack;
use crate::stack::relayout_stack;
use crate::stack::snaps_in;
use crate::stack::stack_targets;

verus! {

/// How long a newcomer stays hidden while the others rise, in microseconds.
pub const SPAWN_HOLD_US: u32 = 120_000;

/// Where a fresh note is born: at the foot of the stack, a gap above the button.
pub open spec fn spawn_place(button: Rect, m: Metrics) -> Rect {
    Rect {
        left: (button.right - m.note_w) as i32,
        top: (button.top - m.gap - m.note_h) as i32,
        right: button.right,
        bottom: (button.top - m.gap) as i32,
    }
}

/// A fresh note: stacked, and hidden for a moment.
pub open spec fn spawned_card(id: u64, r: Rect) -> Card {
    Card { free: false, shown: false, hold_us: SPAWN_HOLD_US, ..fresh_card(Role::Note, id, r) }
}

impl Desk {
    /// Changes one window.
    pub(crate) fn set_card(&mut self, i: usize, c: Card)
        requires
            old(self).wf(),
            i < old(self).cards@.len(),
            c.wf(),
            c.role == old(self).cards@[i as int].role,
            c.stamp() <= old(self).deletions,
        ensures
            final(self).wf(),
            final(self).cards@ == old(self).cards@.update(i as int, c),
            *final(self) == (Desk { cards: final(self).cards, ..*old(self) }),
    {
        proof {
            lemma_update(self.cards@, i as int, c);
        }
        self.cards.set(i, c);
    }

    /// Sends the stack's notes to their slots; those that do not glide are
    /// named with where to put them.
    pub fn relayout(&mut self, gap: i32, glide: bool) -> (moves: Vec<(usize, Point)>)
        requires
            old(self).wf(),
            modest(gap as int),
        ensures
            final(self).wf(),
            final(self).cards@ == all_sent(
                old(self).cards@,
                stack_targets(old(self).cards@, gap as int),
                glide,
            ),
            only_sent(old(self).cards@, final(self).cards@),
            *final(self) == (Desk { cards: final(self).cards, ..*old(self) }),
            moves@ == if glide {
                Seq::empty()
            } else {
                stack_targets(old(self).cards@, gap as int)
            },
    {
        let ghost before = self.cards@;
        let moves = relayout_stack(&mut self.cards, gap, glide);
        proof {
            lemma_still(before, self.cards@, self.focused, self.drag);
        }
        moves
    }

    /// Where a fresh note is born.
    pub fn spawn_rect(&self, m: Metrics) -> (r: Rect)
        requires
            self.wf(),
            m.wf(),
        ensures
            r == spawn_place(self.cards@[0].rect, m),
    {
        assert(self.cards@[0].wf());
        let b = self.cards[0].rect;
        Rect {
            left: b.right - m.note_w,
            top: b.top - m.gap - m.note_h,
            right: b.right,
            bottom: b.top - m.gap,
        }
    }

    /// A fresh note joins the stack at its foot and the others rise, where a
    /// window for it was created. Its number is used up either way.
    pub fn spawn_note(&mut self, m: Metrics, font_size: String, created: bool)
        requires
            old(self).wf(),
            m.wf(),
            old(self).cards@.len() < MAX_CARDS,
            old(self).next_id < u64::MAX,
            window_rect(spawn_place(old(self).cards@[0].rect, m)),
        ensures
            final(self).wf(),
            created ==> ({
                let added = old(self).cards@.push(
                    spawned_card(old(self).next_id, spawn_place(old(self).cards@[0].rect, m)),
                );
                &&& final(self).cards@ == all_sent(
                    added,
                    stack_targets(added, m.gap as int),
                    true,
                )
                &&& final(self).contents@.len() == old(self).contents@.len() + 1
                &&& final(self).contents@.drop_last() == old(self).contents@
                &&& reads(final(self).contents@.last(), ""@, font_size@)
            }),
            !created ==> final(self).cards@ == old(self).cards@ && final(self).contents@ == old(
                self,
            ).contents@,
            *final(self) == (Desk {
                cards: final(self).cards,
                contents: final(self).contents,
                next_id: (old(self).next_id + 1) as u64,
                dirty: true,
                ..*old(self)
            }),
            final(self).next_id == old(self).next_id + 1 && final(self).dirty,
            created ==> final(self).cards@.len() == old(self).cards@.len() + 1,
    {
        let id: u64 = self.next_id;
        let r = self.spawn_rect(m);
        self.next_id = id + 1;
        if created {
            let mut c: Card = Card::new(Role::Note, id, r);
            c.free = false;
            c.shown = false;
            c.hold_us = SPAWN_HOLD_US;
            let x = content_of("", font_size);
            let ghost x0 = self.contents@;
            self.push_window(c, x);
            assert(self.contents@.drop_last() =~= x0);
            self.relayout(m.gap, true);
        }
        self.dirty = true;
    }

    /// Starts the close of a note: it drifts up and fades. False where the
    /// window is no note or is on its way out already.
    pub fn close_note(&mut self, idx: usize) -> (r: bool)
        requires
            old(self).wf(),
            old(self).deletions < u64::MAX,
        ensures
            final(self).wf(),
            r == (idx < old(self).cards@.len() && old(self).cards@[idx as int].note() && !old(
                self,
            ).cards@[idx as int].closing && !old(self).cards@[idx as int].dying),
            final(self).cards@ == if r {
                old(self).cards@.update(
                    idx as int,
                    closing_card(old(self).cards@[idx as int], (old(self).deletions + 1) as u64),
                )
            } else {
                old(self).cards@
            },
            *final(self) == (Desk {
                cards: final(self).cards,
                deletions: if r {
                    (old(self).deletions + 1) as u64
                } else {
                    old(self).deletions
                },
                ..*old(self)
            }),
            r ==> final(self).cards@[idx as int].closing && !final(self).cards@[idx as int].shown,
            r ==> final(self).deletions == old(self).deletions + 1 && final(self).cards@[idx as int].stamp()
                >= old(self).cards@[idx as int].stamp(),
            !r ==> final(self).cards@ == old(self).cards@ && final(self).deletions == old(self).deletions,
            final(self).cards@.len() == old(self).cards@.len(),
            forall|j: int|
                0 <= j < old(self).cards@.len() && j != idx ==> #[trigger] final(self).cards@[j] == old(
                    self,
                ).cards@[j],
    {
        if idx >= self.cards.len() {
            return false;
        }
        let c: Card = self.cards[idx];
        assert(self.cards@[idx as int].wf());
        if !c.is_note() || c.closing || c.dying {
            return false;
        }
        self.deletions = self.deletions + 1;
        self.set_card(idx, start_closing(c, self.deletions));
        true
    }
}

/// How the deletion of a note began: this way, unless it has begun before.
pub open spec fn leaving(c: Card, from: Rect, free: bool, stamp: u64) -> Leaving {
    match c.left {
        Some(l) => l,
        None => Leaving { from, free, stamp },
    }
}

/// A note that drifts up and fades: the deletion of this number, unless one has
/// begun before.
pub open spec fn closing_card(c: Card, stamp: u64) -> Card {
    Card {
        closing: true,
        shown: false,
        pos_to: Some(Point { x: c.rect.left, y: (c.rect.top - 34) as i32 }),
        left: Some(leaving(c, c.rect, c.free, stamp)),
        ..c
    }
}

/// A note that was hurled away: the deletion of this number, unless one has
/// begun before.
pub open spec fn flung_card(c: Card, from: Rect, free: bool, stamp: u64) -> Card {
    Card {
        flung: true,
        shown: false,
        glow: false,
        left: Some(leaving(c, from, free, stamp)),
        ..c
    }
}

/// How the deletion of a note began.
fn leave(c: &Card, from: Rect, free: bool, stamp: u64) -> (r: Leaving)
    ensures
        r == leaving(*c, from, free, stamp),
{
    match c.left {
        Some(l) => l,
        None => Leaving { from, free, stamp },
    }
}

fn start_closing(c: Card, stamp: u64) -> (r: Card)
    requires
        c.wf(),
        c.stamp() <= stamp,
    ensures
        r == closing_card(c, stamp),
        r.wf(),
        r.stamp() <= stamp,
{
    let mut d: Card = c;
    d.closing = true;
    d.shown = false;
    d.pos_to = Some(Point { x: c.rect.left, y: c.rect.top - 34 });
    d.left = Some(leave(&c, c.rect, c.free, stamp));
    d
}

fn start_flight(c: Card, from: Rect, free: bool, stamp: u64) -> (r: Card)
    requires
        c.wf(),
        window_rect(from),
        c.stamp() <= stamp,
    ensures
        r == flung_card(c, from, free, stamp),
        r.wf(),
        r.stamp() <= stamp,
{
    let mut d: Card = c;
    d.flung = true;
    d.shown = false;
    d.glow = false;
    d.left = Some(leave(&c, from, free, stamp));
    d
}

/// What letting a dragged note go does.
#[derive(Clone, Copy, Debug, PartialEq, Eq, Structural)]
pub enum Dropped {
    /// Nothing was dragged, or the hand never left the spot.
    Nothing,
    /// The note is hurled away.
    Flung,
    /// The note joins the stack; it is put there first.
    Stacked(Point),
    /// The note docks.
    Docked,
    /// The note stays where it is, clear of others.
    Loose,
}

/// A rectangle moved so that its top is at `y`.
pub open spec fn at_row(r: Rect, y: int) -> Rect {
    Rect { top: y as i32, bottom: (y + r.h()) as i32, ..r }
}

/// The note under the hand where it is let go over the stack.
pub open spec fn joining_card(c: Card, y: int) -> Card {
    Card {
        free: false,
        docked: 0,
        revealed: false,
        glow: false,
        rect: at_row(c.rect, y),
        ..c
    }
}

/// The note under the hand where it is let go elsewhere.
pub open spec fn loose_card(c: Card) -> Card {
    Card { docked: 0, revealed: false, glow: false, ..c }
}

fn let_go(c: Card, loose: bool) -> (r: Card)
    requires
        c.wf(),
    ensures
        r == if loose {
            loose_card(c)
        } else {
            Card { glow: false, ..c }
        },
        r.wf(),
{
    let mut d: Card = c;
    d.glow = false;
    if loose {
        d.docked = 0;
        d.revealed = false;
    }
    d
}

/// The note under the hand where it is let go over the stack.
fn join(c: Card, y: i32) -> (r: Card)
    requires
        c.wf(),
        -0x800_0000 <= y <= 0x800_0000,
    ensures
        r == joining_card(c, y as int),
        r.wf(),
        r.role == c.role,
{
    let mut d: Card = c;
    let h: i32 = c.rect.height();
    d.free = false;
    d.docked = 0;
    d.revealed = false;
    d.glow = false;
    d.rect = Rect { left: c.rect.left, top: y, right: c.rect.right, bottom: y + h };
    d
}

/// What letting the note go does.
pub open spec fn dropped(
    cards: Seq<Card>,
    d: Drag,
    p: Point,
    fast: bool,
    wa: Rect,
    m: Metrics,
) -> Dropped {
    if fast {
        Dropped::Flung
    } else if !d.moved || !cards[d.idx as int].free {
        Dropped::Nothing
    } else if snaps_in(cards, d.idx as int, m.gap as int) {
        Dropped::Stacked(Point { x: cards[d.idx as int].rect.left, y: p.y })
    } else if p.x <= wa.left + m.dock_trigger || p.x >= wa.right - m.dock_trigger {
        Dropped::Docked
    } else {
        Dropped::Loose
    }
}

/// The windows after the note was let go; hurling it away is the deletion number
/// `stamp`.
pub open spec fn after_drop(
    cards: Seq<Card>,
    d: Drag,
    p: Point,
    fast: bool,
    wa: Rect,
    m: Metrics,
    stamp: u64,
) -> Seq<Card> {
    let i = d.idx as int;
    let c = cards[i];
    match dropped(cards, d, p, fast, wa, m) {
        Dropped::Flung => cards.update(i, flung_card(c, d.from, d.free, stamp)),
        Dropped::Stacked(_) => {
            let joined = cards.update(i, joining_card(c, p.y as int));
            all_sent(joined, stack_targets(joined, m.gap as int), true)
        },
        Dropped::Docked => {
            let side: i8 = if p.x <= wa.left + m.dock_trigger {
                -1i8
            } else {
                1i8
            };
            cards.update(
                i,
                Card { glow: false, ..docked_card(cards, i, side, wa, m.dock_gap as int) },
            )
        },
        Dropped::Loose => cards.update(i, loose_card(c)),
        Dropped::Nothing => cards.update(i, Card { glow: false, ..c }),
    }
}

impl Desk {
    /// The hand grabs a note.
    pub fn grab(&mut self, idx: usize, p: Point)
        requires
            old(self).wf(),
            p.wf(),
            idx < old(self).cards@.len(),
            old(self).cards@[idx as int].note(),
        ensures
            final(self).wf(),
            *final(self) == (Desk {
                drag: Some(
                    Drag {
                        idx,
                        grab: Point {
                            x: (p.x - old(self).cards@[idx as int].rect.left) as i32,
                            y: (p.y - old(self).cards@[idx as int].rect.top) as i32,
                        },
                        moved: false,
                        last: p,
                        from: old(self).cards@[idx as int].rect,
                        free: old(self).cards@[idx as int].free,
                    },
                ),
                ..*old(self)
            }),
            final(self).drag is Some && final(self).drag->Some_0.idx == idx && !final(self).drag->Some_0.moved,
            final(self).drag->Some_0.grab.x + old(self).cards@[idx as int].rect.left == p.x,
            final(self).drag->Some_0.grab.y + old(self).cards@[idx as int].rect.top == p.y,
            final(self).drag->Some_0.from == old(self).cards@[idx as int].rect,
            final(self).cards@ == old(self).cards@,
    {
        assert(self.cards@[idx as int].wf());
        let r = self.cards[idx].rect;
        self.drag = Some(
            Drag {
                idx,
                grab: Point { x: p.x - r.left, y: p.y - r.top },
                moved: false,
                last: p,
                from: r,
                free: self.cards[idx].free,
            },
        );
    }

    /// Whether the note was hurled: the drag ends and the note flies off.
    fn drop_flung(&mut self, d: Drag)
        requires
            old(self).wf(),
            d.idx < old(self).cards@.len(),
            window_rect(d.from),
            old(self).deletions < u64::MAX,
        ensures
            final(self).wf(),
            final(self).cards@ == old(self).cards@.update(
                d.idx as int,
                flung_card(
                    old(self).cards@[d.idx as int],
                    d.from,
                    d.free,
                    (old(self).deletions + 1) as u64,
                ),
            ),
            *final(self) == (Desk {
                cards: final(self).cards,
                deletions: (old(self).deletions + 1) as u64,
                ..*old(self)
            }),
    {
        let c: Card = self.cards[d.idx];
        assert(self.cards@[d.idx as int].wf());
        self.deletions = self.deletions + 1;
        self.set_card(d.idx, start_flight(c, d.from, d.free, self.deletions));
    }

    fn drop_stacked(&mut self, idx: usize, p: Point, gap: i32)
        requires
            old(self).wf(),
            idx < old(self).cards@.len(),
            p.wf(),
            modest(gap as int),
        ensures
            final(self).wf(),
            ({
                let joined = old(self).cards@.update(
                    idx as int,
                    joining_card(old(self).cards@[idx as int], p.y as int),
                );
                final(self).cards@ == all_sent(joined, stack_targets(joined, gap as int), true)
            }),
            *final(self) == (Desk { cards: final(self).cards, ..*old(self) }),
    {
        assert(self.cards@[idx as int].wf());
        let c: Card = join(self.cards[idx], p.y);
        self.set_card(idx, c);
        self.relayout(gap, true);
    }

    fn drop_docked(&mut self, idx: usize, side: i8, wa: Rect, gap: i32)
        requires
            old(self).wf(),
            idx < old(self).cards@.len(),
            old(self).cards@[idx as int].note(),
            side != 0,
            wa.wf(),
            modest(gap as int),
        ensures
            final(self).wf(),
            final(self).cards@ == old(self).cards@.update(
                idx as int,
                Card {
                    glow: false,
                    ..docked_card(old(self).cards@, idx as int, side, wa, gap as int)
                },
            ),
            *final(self) == (Desk { cards: final(self).cards, ..*old(self) }),
    {
        let ghost c0 = self.cards@;
        dock_note(&mut self.cards, idx, side, wa, gap);
        let mut c: Card = self.cards[idx];
        assert(self.cards@[idx as int].wf());
        c.glow = false;
        self.set_card(idx, c);
        assert(self.cards@ =~= c0.update(
            idx as int,
            Card { glow: false, ..docked_card(c0, idx as int, side, wa, gap as int) },
        ));
    }

    fn drop_still(&mut self, idx: usize, loose: bool)
        requires
            old(self).wf(),
            idx < old(self).cards@.len(),
        ensures
            final(self).wf(),
            final(self).cards@ == old(self).cards@.update(
                idx as int,
                if loose {
                    loose_card(old(self).cards@[idx as int])
                } else {
                    Card { glow: false, ..old(self).cards@[idx as int] }
                },
            ),
            *final(self) == (Desk { cards: final(self).cards, ..*old(self) }),
    {
        assert(self.cards@[idx as int].wf());
        let c: Card = let_go(self.cards[idx], loose);
        self.set_card(idx, c);
    }

    /// The hand lets a note go, `fast` where it was flicked: it is hurled away,
    /// joins the stack, docks on an edge, or stays. None where nothing was
    /// dragged. A note that is hurled away is not saved as gone before it is
    /// gone.
    pub fn release(&mut self, p: Point, fast: bool, wa: Rect, m: Metrics) -> (r: Option<Dropped>)
        requires
            old(self).wf(),
            p.wf(),
            wa.wf(),
            m.wf(),
            old(self).deletions < u64::MAX,
        ensures
            final(self).wf(),
            match old(self).drag {
                None => r is None && *final(self) == *old(self),
                Some(d) => {
                    &&& r == Some(dropped(old(self).cards@, d, p, fast, wa, m))
                    &&& final(self).cards@ == after_drop(
                        old(self).cards@,
                        d,
                        p,
                        fast,
                        wa,
                        m,
                        (old(self).deletions + 1) as u64,
                    )
                    &&& *final(self) == (Desk {
                        cards: final(self).cards,
                        drag: None,
                        dirty: old(self).dirty || !fast,
                        deletions: if fast {
                            (old(self).deletions + 1) as u64
                        } else {
                            old(self).deletions
                        },
                        ..*old(self)
                    })
                },
            },
            final(self).drag is None,
            old(self).drag is Some ==> r is Some && (fast <==> r->Some_0 == Dropped::Flung),
            old(self).drag is Some && fast ==> final(self).deletions == old(self).deletions + 1,
            old(self).drag is Some && !fast ==> final(self).dirty && final(self).deletions == old(self).deletions,
    {
        match self.drag {
            None => None,
            Some(d) => {
                self.drag = None;
                if fast {
                    self.drop_flung(d);
                    Some(Dropped::Flung)
                } else {
                    let r = self.drop_slow(d, p, wa, m);
                    self.dirty = true;
                    Some(r)
                }
            },
        }
    }

    /// A note that was not flicked.
    fn drop_slow(&mut self, d: Drag, p: Point, wa: Rect, m: Metrics) -> (r: Dropped)
        requires
            old(self).wf(),
            d.idx < old(self).cards@.len(),
            old(self).cards@[d.idx as int].note(),
            p.wf(),
            wa.wf(),
            m.wf(),
        ensures
            final(self).wf(),
            r == dropped(old(self).cards@, d, p, false, wa, m),
            forall|stamp: u64|
                final(self).cards@ == #[trigger] after_drop(
                    old(self).cards@,
                    d,
                    p,
                    false,
                    wa,
                    m,
                    stamp,
                ),
            *final(self) == (Desk { cards: final(self).cards, ..*old(self) }),
    {
        let r = self.drop_choice(d, p, wa, m);
        match r {
            Dropped::Stacked(_) => self.drop_stacked(d.idx, p, m.gap),
            Dropped::Docked => {
                let side: i8 = if p.x <= wa.left + m.dock_trigger {
                    -1
                } else {
                    1
                };
                self.drop_docked(d.idx, side, wa, m.dock_gap)
            },
            Dropped::Loose => self.drop_still(d.idx, true),
            Dropped::Nothing => self.drop_still(d.idx, false),
            Dropped::Flung => {},
        }
        r
    }

    /// What letting a note go does that was not flicked.
    fn drop_choice(&self, d: Drag, p: Point, wa: Rect, m: Metrics) -> (r: Dropped)
        requires
            self.wf(),
            d.idx < self.cards@.len(),
            p.wf(),
            wa.wf(),
            m.wf(),
        ensures
            r == dropped(self.cards@, d, p, false, wa, m),
            r != Dropped::Flung,
    {
        if !d.moved || !self.cards[d.idx].free {
            Dropped::Nothing
        } else if over_stack(&self.cards, d.idx, m.gap) {
            Dropped::Stacked(Point { x: self.cards[d.idx].rect.left, y: p.y })
        } else if p.x <= wa.left + m.dock_trigger || p.x >= wa.right - m.dock_trigger {
            Dropped::Docked
        } else {
            Dropped::Loose
        }
    }
}

/// A fresh note is born as large as a note is, a gap above the button, with its right edge
/// in line with the button's. It is in the stack, and hidden for 120 milliseconds.
pub proof fn fresh_notes_are_born_above_the_button(button: Rect, m: Metrics, id: u64)
    requires
        button.wf(),
        m.wf(),
    ensures
        ({
            let r = spawn_place(button, m);
            let c = spawned_card(id, r);
            &&& r.right == button.right
            &&& r.right - r.left == m.note_w && r.bottom - r.top == m.note_h
            &&& r.bottom + m.gap == button.top
            &&& c.rect == r && c.id == id && c.role == Role::Note
            &&& c.stacked() && !c.shown && c.hold_us == 120_000
            &&& !c.closing && !c.dying && !c.flung && c.left is None && c.pos_to is None
        }),
{
}

/// A note that closes fades while it drifts up by 34 pixels. It, and one that is hurled
/// away, keep what they are until they are gone.
pub proof fn a_closing_note_drifts_up(c: Card, from: Rect, free: bool, stamp: u64)
    requires
        c.wf(),
    ensures
        ({
            let d = closing_card(c, stamp);
            &&& d.closing && !d.shown
            &&& d.pos_to is Some
            &&& d.pos_to->Some_0.x == c.rect.left
            &&& c.rect.top - d.pos_to->Some_0.y == 34
            &&& d.rect == c.rect && d.id == c.id && d.role == c.role && d.color == c.color
            &&& d.docked == c.docked && d.free == c.free && d.dying == c.dying
        }),
        ({
            let f = flung_card(c, from, free, stamp);
            &&& f.flung && !f.shown && !f.glow
            &&& f.rect == c.rect && f.id == c.id && f.role == c.role && f.color == c.color
            &&& f.docked == c.docked && f.free == c.free && f.dying == c.dying && f.closing
                == c.closing && f.pos_to == c.pos_to
        }),
{
}

/// What letting a note go does: it flies where it was flicked, and otherwise nothing happens
/// to a note that was not moved or is still in the stack. Over the stack it joins it; within
/// reach of the left or the right edge of the work area it docks; and anywhere else it stays.
pub proof fn a_note_lands_where_it_is_let_go(
    cards: Seq<Card>,
    d: Drag,
    p: Point,
    wa: Rect,
    m: Metrics,
)
    ensures
        dropped(cards, d, p, true, wa, m) == Dropped::Flung,
        dropped(cards, d, p, false, wa, m) != Dropped::Flung,
        !d.moved || !cards[d.idx as int].free <==> dropped(cards, d, p, false, wa, m)
            == Dropped::Nothing,
        d.moved && cards[d.idx as int].free && snaps_in(cards, d.idx as int, m.gap as int)
            ==> dropped(cards, d, p, false, wa, m) is Stacked,
        d.moved && cards[d.idx as int].free && !snaps_in(cards, d.idx as int, m.gap as int) ==> {
            let near = p.x - wa.left <= m.dock_trigger || wa.right - p.x <= m.dock_trigger;
            dropped(cards, d, p, false, wa, m) == if near {
                Dropped::Docked
            } else {
                Dropped::Loose
            }
        },
{
}

/// The note that docks does so on the edge that it was let go near, the left one where both
/// are near; one that joins the stack is in it and stands at the cursor's height, with its
/// size; one that stays is docked no more. None of them glows.
pub proof fn a_note_let_go_belongs_where_it_landed(
    cards: Seq<Card>,
    d: Drag,
    p: Point,
    wa: Rect,
    m: Metrics,
    stamp: u64,
)
    requires
        0 <= d.idx < cards.len(),
        p.wf(),
        cards[d.idx as int].wf(),
    ensures
        ({
            let i = d.idx as int;
            let c = cards[i];
            let r = dropped(cards, d, p, false, wa, m);
            let a = after_drop(cards, d, p, false, wa, m, stamp);
            &&& r == Dropped::Docked ==> !a[i].glow && (p.x - wa.left <= m.dock_trigger ==> a[i].docked
                < 0) && (p.x - wa.left > m.dock_trigger ==> a[i].docked > 0 && wa.right - p.x
                <= m.dock_trigger) && a[i].pos_to is Some && a[i].pos_to->Some_0.y
                == crate::dock::dock_row(cards, i, a[i].docked, wa, m.dock_gap as int) as i32
            &&& r == Dropped::Loose ==> a[i].docked == 0 && !a[i].revealed && !a[i].glow && a[i].rect
                == c.rect && a[i].free == c.free && a[i].pos_to == c.pos_to
            &&& r == Dropped::Nothing ==> !a[i].glow && a[i].rect == c.rect && a[i].docked == c.docked
                && a[i].free == c.free && a[i].pos_to == c.pos_to
        }),
        ({
            let j = joining_card(cards[d.idx as int], p.y as int);
            let c = cards[d.idx as int];
            &&& !j.free && j.docked == 0 && !j.revealed && !j.glow
            &&& j.rect.top == p.y && j.rect.left == c.rect.left && j.rect.right == c.rect.right
            &&& j.rect.bottom - j.rect.top == c.rect.bottom - c.rect.top
            &&& j.id == c.id && j.role == c.role && j.color == c.color
        }),
{
}

/// A note that is let go over the stack joins it: it and every other note of the
/// stack glide to their places in the column.
pub proof fn a_note_let_go_over_the_stack_joins_it(
    cards: Seq<Card>,
    d: Drag,
    p: Point,
    wa: Rect,
    m: Metrics,
    stamp: u64,
    k: int,
)
    requires
        cards_ok(cards),
        0 < d.idx < cards.len(),
        cards[d.idx as int].note(),
        joining_card(cards[d.idx as int], p.y as int).wf(),
        modest(m.gap as int),
        0 <= k < cards.len(),
        dropped(cards, d, p, false, wa, m) is Stacked,
    ensures
        ({
            let a = after_drop(cards, d, p, false, wa, m, stamp);
            &&& a.len() == cards.len()
            &&& a[d.idx as int].stacked()
            &&& k == d.idx || cards[k].stacked() ==> crate::stack::heads_for_column(a[k], cards[0].rect)
            &&& k != d.idx && !cards[k].stacked() ==> a[k].pos_to == cards[k].pos_to
        }),
{
    let i = d.idx as int;
    let c = joining_card(cards[i], p.y as int);
    let joined = cards.update(i, c);
    crate::card::lemma_update(cards, i, c);
    assert(joined[0] == cards[0]);
    assert(joined[i].stacked());
    crate::stack::stacked_notes_head_for_the_column(joined, m.gap as int, k);
    crate::stack::stacked_notes_head_for_the_column(joined, m.gap as int, i);
    crate::stack::lemma_moved_only(
        joined[i],
        all_sent(joined, stack_targets(joined, m.gap as int), true)[i],
    );
}

/// A new note takes its place in the column, at once with the notes that are there.
pub proof fn a_new_note_joins_the_stack(cards: Seq<Card>, id: u64, r: Rect, gap: int, k: int)
    requires
        cards_ok(cards),
        cards.len() < MAX_CARDS,
        window_rect(r),
        modest(gap),
        0 <= k <= cards.len(),
    ensures
        ({
            let added = cards.push(spawned_card(id, r));
            let a = all_sent(added, stack_targets(added, gap), true);
            &&& k == cards.len() || cards[k].stacked() ==> crate::stack::heads_for_column(
                a[k],
                cards[0].rect,
            )
            &&& k < cards.len() && !cards[k].stacked() ==> a[k].pos_to == cards[k].pos_to
        }),
{
    let added = cards.push(spawned_card(id, r));
    assert(cards_ok(added));
    assert(added[0] == cards[0]);
    crate::stack::stacked_notes_head_for_the_column(added, gap, k);
}

} // verus!
