//! The menu of pills that fans out beside the button, where the button stands,
//! the shadows behind windows, and notes that come back from disk.

use vstd::prelude::*;
use crate::card::fresh_card;
use crate::card::window_rect;
use crate::card::Card;
use crate::card::Role;
use crate::card::MAX_CARDS;
use crate::desk::content_of;
use crate::desk::reads;
use crate::desk::Desk;
use crate::dock::inside_row;
use crate::geometry::clamp_to;
use crate::geometry::clamp_to_desktop;
use crate::geometry::dock_x;
use crate::geometry::docked_left;
use crate::geometry::greater;
use crate::geometry::max_of;
use crate::geometry::pulled_in;
use crate::geometry::shows;
use crate::geometry::Point;
use crate::geometry::Rect;
use crate::metrics::Metrics;
use crate::store::NoteData;
use crate::store::NoteValue;

verus! {

/// How long the pills stay hidden while the cluster makes room, and how much
/// longer each than the one below it, in microseconds.
pub const SLIDE_HOLD_US: u32 = 260_000;

pub const STAGGER_US: u32 = 50_000;

/// The pills from the bottom up.
pub open spec fn pill_role(k: int) -> Role {
    if k == 0 {
        Role::Quit
    } else if k == 1 {
        Role::Startup
    } else if k == 2 {
        Role::SlideOut
    } else if k == 3 {
        Role::Opacity
    } else {
        Role::Size
    }
}

/// Where the `k`th pill from the bottom stands: a column up from the foot of
/// the button, with its right edge in line with the button's.
pub open spec fn pill_place(button: Rect, m: Metrics, k: int) -> Rect {
    let bottom = button.bottom - k * (m.note_h + m.gap);
    Rect {
        left: (button.right - m.note_w) as i32,
        top: (bottom - m.note_h) as i32,
        right: button.right,
        bottom: bottom as i32,
    }
}

/// A pill, hidden until the cluster has made room. The toggles show what is on.
pub open spec fn pill_card(r: Rect, k: int, startup_on: bool, slide_out: bool) -> Card {
    Card {
        pill_on: k == 1 && startup_on || k == 2 && slide_out,
        shown: false,
        hold_us: (SLIDE_HOLD_US + k * STAGGER_US) as u32,
        ..fresh_card(pill_role(k), 0, r)
    }
}

/// A pill that folds back to the button's home.
pub open spec fn folded(c: Card, home: Point) -> Card {
    if c.pill() && !c.dying {
        Card { hold_us: 0, shown: false, pos_to: Some(home), closing: true, ..c }
    } else {
        c
    }
}

/// The slot at the foot of the button's home.
pub open spec fn fold_place(wa: Rect, m: Metrics) -> Point {
    Point {
        x: (wa.right - m.inset - m.note_w) as i32,
        y: (wa.bottom - m.inset - m.note_h) as i32,
    }
}

fn fold(c: Card, home: Point) -> (r: Card)
    requires
        c.wf(),
        crate::card::reachable(home),
    ensures
        r == folded(c, home),
        r.wf(),
        r.role == c.role,
{
    let mut d: Card = c;
    if c.is_pill() && !c.dying {
        d.hold_us = 0;
        d.shown = false;
        d.pos_to = Some(home);
        d.closing = true;
    }
    d
}

impl Desk {
    /// Where the `k`th pill from the bottom stands.
    pub fn pill_rect(&self, m: Metrics, k: u8) -> (r: Rect)
        requires
            self.wf(),
            m.wf(),
            k < 5,
        ensures
            r == pill_place(self.cards@[0].rect, m, k as int),
    {
        assert(self.cards@[0].wf());
        let b = self.cards[0].rect;
        let step: i32 = m.note_h + m.gap;
        assert(0 <= k * step <= 5 * 0x40000) by (nonlinear_arith)
            requires
                k < 5,
                0 <= step <= 0x40000,
        ;
        let bottom: i32 = b.bottom - k as i32 * step;
        Rect { left: b.right - m.note_w, top: bottom - m.note_h, right: b.right, bottom }
    }

    /// A window for the `k`th pill was created.
    pub fn add_pill(&mut self, m: Metrics, k: u8, startup_on: bool)
        requires
            old(self).wf(),
            m.wf(),
            k < 5,
            old(self).cards@.len() < MAX_CARDS,
            window_rect(pill_place(old(self).cards@[0].rect, m, k as int)),
        ensures
            final(self).wf(),
            final(self).cards@ == old(self).cards@.push(
                pill_card(
                    pill_place(old(self).cards@[0].rect, m, k as int),
                    k as int,
                    startup_on,
                    old(self).slide_out,
                ),
            ),
            final(self).contents@.len() == old(self).contents@.len() + 1,
            final(self).contents@.drop_last() == old(self).contents@,
            *final(self) == (Desk {
                cards: final(self).cards,
                contents: final(self).contents,
                ..*old(self)
            }),
    {
        let r = self.pill_rect(m, k);
        let role = if k == 0 {
            Role::Quit
        } else if k == 1 {
            Role::Startup
        } else if k == 2 {
            Role::SlideOut
        } else if k == 3 {
            Role::Opacity
        } else {
            Role::Size
        };
        let mut c: Card = Card::new(role, 0, r);
        c.pill_on = (k == 1 && startup_on) || (k == 2 && self.slide_out);
        c.shown = false;
        c.hold_us = SLIDE_HOLD_US + k as u32 * STAGGER_US;
        let x = content_of("", "16.0".to_owned());
        let ghost x0 = self.contents@;
        self.push_window(c, x);
        assert(self.contents@.drop_last() =~= x0);
    }

    /// The menu is open: the cluster slides to make room for it.
    pub fn menu_opened(&mut self)
        requires
            old(self).wf(),
        ensures
            final(self).wf(),
            *final(self) == (Desk { menu_open: true, slid: true, ..*old(self) }),
            final(self).menu_open && final(self).slid && final(self).cards == old(self).cards,
    {
        self.menu_open = true;
        self.slid = true;
    }

    /// Closes the menu: every pill fades and folds back, and the cluster slides
    /// home.
    pub fn close_pill_menu(&mut self, wa: Rect, m: Metrics)
        requires
            old(self).wf(),
            wa.wf(),
            m.wf(),
        ensures
            final(self).wf(),
            final(self).cards@.len() == old(self).cards@.len(),
            forall|i: int|
                0 <= i < old(self).cards@.len() ==> #[trigger] final(self).cards@[i] == folded(
                    old(self).cards@[i],
                    fold_place(wa, m),
                ),
            *final(self) == (Desk {
                cards: final(self).cards,
                menu_open: false,
                slid: false,
                ..*old(self)
            }),
            !final(self).menu_open && !final(self).slid,
    {
        let home = Point { x: wa.right - m.inset - m.note_w, y: wa.bottom - m.inset - m.note_h };
        let n: usize = self.cards.len();
        let mut i: usize = 0;
        while i < n
            invariant
                i <= n,
                n == self.cards@.len(),
                n == old(self).cards@.len(),
                self.wf(),
                crate::card::reachable(home),
                forall|k: int|
                    0 <= k < n ==> #[trigger] self.cards@[k] == if k < i {
                        folded(old(self).cards@[k], home)
                    } else {
                        old(self).cards@[k]
                    },
                *self == (Desk { cards: self.cards, ..*old(self) }),
            decreases n - i,
        {
            assert(self.cards@[i as int].wf());
            let c = fold(self.cards[i], home);
            self.set_card(i, c);
            i = i + 1;
        }
        self.menu_open = false;
        self.slid = false;
    }

    /// The startup pill was clicked.
    pub fn toggle_startup(&mut self, idx: usize) -> (on: bool)
        requires
            old(self).wf(),
            idx < old(self).cards@.len(),
        ensures
            final(self).wf(),
            on == !old(self).cards@[idx as int].pill_on,
            final(self).cards@ == old(self).cards@.update(
                idx as int,
                Card { pill_on: on, ..old(self).cards@[idx as int] },
            ),
            *final(self) == (Desk { cards: final(self).cards, ..*old(self) }),
            final(self).cards@[idx as int].pill_on == on,
            on != old(self).cards@[idx as int].pill_on,
            final(self).slide_out == old(self).slide_out,
    {
        let mut c: Card = self.cards[idx];
        assert(self.cards@[idx as int].wf());
        c.pill_on = !c.pill_on;
        self.set_card(idx, c);
        c.pill_on
    }

    /// The pill was clicked that lets docked notes slide out.
    pub fn toggle_slide_out(&mut self, idx: usize) -> (on: bool)
        requires
            old(self).wf(),
            idx < old(self).cards@.len(),
        ensures
            final(self).wf(),
            on == !old(self).slide_out,
            final(self).cards@ == old(self).cards@.update(
                idx as int,
                Card { pill_on: on, ..old(self).cards@[idx as int] },
            ),
            *final(self) == (Desk { cards: final(self).cards, slide_out: on, ..*old(self) }),
            final(self).slide_out == on && on != old(self).slide_out,
            final(self).cards@[idx as int].pill_on == on,
    {
        let mut c: Card = self.cards[idx];
        assert(self.cards@[idx as int].wf());
        self.slide_out = !self.slide_out;
        c.pill_on = self.slide_out;
        self.set_card(idx, c);
        self.slide_out
    }
}

/// Where the button stands: in the corner of the work area, slid to the right
/// by `tuck_px` and to the left by `slide_px`.
pub fn button_place(wa: Rect, m: Metrics, tuck_px: i32, slide_px: i32) -> (p: Point)
    requires
        wa.wf(),
        m.wf(),
        0 <= tuck_px <= m.tuck_dx,
        0 <= slide_px <= m.menu_dx,
    ensures
        p.x == wa.right - m.button - m.inset + tuck_px - slide_px,
        p.y == wa.bottom - m.button - m.inset,
        p.y + m.button + m.inset == wa.bottom,
        tuck_px == 0 && slide_px == 0 ==> p.x + m.button + m.inset == wa.right,
        tuck_px > 0 && slide_px == 0 ==> p.x + m.button + m.inset > wa.right,
        tuck_px == 0 && slide_px > 0 ==> p.x + m.button + m.inset < wa.right,
{
    Point {
        x: wa.right - m.button - m.inset + (tuck_px - slide_px),
        y: wa.bottom - m.button - m.inset,
    }
}

/// The window casts a shadow.
pub open spec fn casts(c: Card) -> bool {
    c.docked == 0 && !c.flung && !c.closing && !c.dying && c.shown
}

/// Where the shadow of a window lies, where it casts one: a margin beyond it on
/// every side.
pub fn shadow_rect(c: Card, margin: i32) -> (r: Option<Rect>)
    requires
        c.wf(),
        crate::metrics::modest(margin as int),
    ensures
        r == if casts(c) {
            Some(
                Rect {
                    left: (c.rect.left - margin) as i32,
                    top: (c.rect.top - margin) as i32,
                    right: (c.rect.left - margin + greater(c.rect.w() + 2 * margin, 8)) as i32,
                    bottom: (c.rect.top - margin + greater(c.rect.h() + 2 * margin, 8)) as i32,
                },
            )
        } else {
            None
        },
        r is Some ==> c.rect.left - r->Some_0.left == margin && c.rect.top - r->Some_0.top == margin,
        r is Some && c.rect.w() + margin + margin >= 8 ==> r->Some_0.right - c.rect.right == margin,
        r is Some && c.rect.h() + margin + margin >= 8 ==> r->Some_0.bottom - c.rect.bottom == margin,
        r is Some ==> r->Some_0.right - r->Some_0.left >= 8 && r->Some_0.bottom - r->Some_0.top >= 8,
        c.closing || c.dying || c.flung || !c.shown || c.docked != 0 ==> r is None,
{
    if !(c.docked == 0 && !c.flung && !c.closing && !c.dying && c.shown) {
        return None;
    }
    let left: i32 = c.rect.left - margin;
    let top: i32 = c.rect.top - margin;
    let w: i32 = max_of(c.rect.width() + 2 * margin, 8);
    let h: i32 = max_of(c.rect.height() + 2 * margin, 8);
    Some(Rect { left, top, right: left + w, bottom: top + h })
}

/// Where a saved note comes back: on the edge it was docked on, as a sliver in a
/// row of the work area, or on the desktop `v` where it can be seen.
pub open spec fn loaded_at(n: NoteValue, v: Rect, wa: Rect) -> (int, int) {
    if n.docked != 0 {
        (
            docked_left(n.docked as int, n.w as int, false, wa),
            inside_row(n.y as int, n.h as int, wa),
        )
    } else if shows(n.x as int, n.y as int, n.w as int, n.h as int, v) {
        (n.x as int, n.y as int)
    } else {
        (
            pulled_in(n.x as int, n.w as int, v.left as int, v.w()),
            pulled_in(n.y as int, n.h as int, v.top as int, v.h()),
        )
    }
}

/// A saved note has a size that windows have.
pub open spec fn loadable(n: NoteValue) -> bool {
    0 < n.w <= 0x20000 && 0 < n.h <= 0x20000
}

/// Where a saved note comes back.
pub fn load_place(n: &NoteData, v: Rect, wa: Rect) -> (p: (i32, i32))
    requires
        loadable(n@),
        v.wf(),
        wa.wf(),
    ensures
        p.0 == loaded_at(n@, v, wa).0,
        p.1 == loaded_at(n@, v, wa).1,
{
    if n.docked != 0 {
        let foot: i32 = wa.bottom - n.h;
        let y: i32 = clamp_to(n.y, wa.top, max_of(foot, wa.top));
        (dock_x(n.docked, n.w, false, wa), y)
    } else {
        clamp_to_desktop(n.x, n.y, n.w, n.h, v)
    }
}

impl Desk {
    /// A window for a saved note was created at `r`.
    pub fn load_note(&mut self, n: NoteData, r: Rect)
        requires
            old(self).wf(),
            old(self).cards@.len() < MAX_CARDS,
            window_rect(r),
        ensures
            final(self).wf(),
            final(self).cards@ == old(self).cards@.push(
                Card {
                    free: n.free,
                    docked: n.docked,
                    color: n.color,
                    ..fresh_card(Role::Note, n.id, r)
                },
            ),
            final(self).contents@.len() == old(self).contents@.len() + 1,
            final(self).contents@.drop_last() == old(self).contents@,
            reads(final(self).contents@.last(), n.text@, n.font_size@),
            *final(self) == (Desk {
                cards: final(self).cards,
                contents: final(self).contents,
                ..*old(self)
            }),
            final(self).cards@.last().rect == r && final(self).cards@.last().id == n.id,
            final(self).cards@.last().free == n.free && final(self).cards@.last().docked == n.docked,
            final(self).cards@.last().note() && final(self).cards@.last().color == n.color,
    {
        let mut c: Card = Card::new(Role::Note, n.id, r);
        c.free = n.free;
        c.docked = n.docked;
        c.color = n.color;
        let x = content_of(n.text.as_str(), n.font_size);
        let ghost x0 = self.contents@;
        self.push_window(c, x);
        assert(self.contents@.drop_last() =~= x0);
    }
}

/// The pills stand in a column: the lowest on the foot of the button, each a gap above the
/// one below it, all as wide and as tall as a fresh note, with their right edges in line
/// with the button's. So no two of them overlap.
pub proof fn pills_stand_in_a_column(button: Rect, m: Metrics, k: int)
    requires
        button.wf(),
        m.wf(),
        0 <= k < 5,
    ensures
        ({
            let p = pill_place(button, m, k);
            let q = pill_place(button, m, k + 1);
            &&& p.right == button.right
            &&& p.right - p.left == m.note_w
            &&& p.bottom - p.top == m.note_h
            &&& k == 0 ==> p.bottom == button.bottom
            &&& k < 4 ==> q.bottom + m.gap == p.top
        }),
{
    let s = m.note_h + m.gap;
    assert(0 <= k * s <= 5 * 0x40000 && 0 <= (k + 1) * s <= 6 * 0x40000) by (nonlinear_arith)
        requires
            0 <= k < 5,
            0 <= s <= 0x40000,
    ;
    assert((k + 1) * s == k * s + s) by (nonlinear_arith);
    assert(k == 0 ==> k * s == 0) by (nonlinear_arith);
}

/// There is one pill of each sort, and none is a note or the button; the lowest ends the
/// application.
pub proof fn there_is_a_pill_of_each_sort(j: int, k: int)
    requires
        0 <= j < 5,
        0 <= k < 5,
    ensures
        pill_role(j) == pill_role(k) ==> j == k,
        pill_role(k) != Role::Note && pill_role(k) != Role::Button,
        pill_role(0) == Role::Quit,
        exists|i: int| 0 <= i < 5 && #[trigger] pill_role(i) == Role::Startup,
        exists|i: int| 0 <= i < 5 && #[trigger] pill_role(i) == Role::SlideOut,
        exists|i: int| 0 <= i < 5 && #[trigger] pill_role(i) == Role::Opacity,
        exists|i: int| 0 <= i < 5 && #[trigger] pill_role(i) == Role::Size,
{
    assert(pill_role(1) == Role::Startup);
    assert(pill_role(2) == Role::SlideOut);
    assert(pill_role(3) == Role::Opacity);
    assert(pill_role(4) == Role::Size);
}

/// A fresh pill is hidden for 260 milliseconds and 50 more for each pill below it. The
/// toggle of a setting is on just where the setting is, and the other pills never are.
pub proof fn pills_fan_out_from_the_bottom(r: Rect, k: int, startup_on: bool, slide_out: bool)
    requires
        0 <= k < 5,
    ensures
        ({
            let c = pill_card(r, k, startup_on, slide_out);
            &&& c.hold_us == 260_000 + 50_000 * k
            &&& !c.shown && !c.closing && !c.dying
            &&& c.rect == r
            &&& c.role == Role::Startup ==> c.pill_on == startup_on
            &&& c.role == Role::SlideOut ==> c.pill_on == slide_out
            &&& c.role != Role::Startup && c.role != Role::SlideOut ==> !c.pill_on
            &&& k < 4 ==> pill_card(r, k + 1, startup_on, slide_out).hold_us == c.hold_us + 50_000
        }),
{
}

/// Closing the menu has every pill that is not gone yet fade and fold back; the button and
/// the notes stay as they are.
pub proof fn only_pills_fold(c: Card, home: Point)
    ensures
        c.role == Role::Note || c.role == Role::Button || c.dying ==> folded(c, home) == c,
        c.role != Role::Note && c.role != Role::Button && !c.dying ==> {
            let f = folded(c, home);
            &&& f.closing && !f.shown && f.hold_us == 0 && f.pos_to == Some(home)
            &&& f.rect == c.rect && f.role == c.role && f.pill_on == c.pill_on && !f.dying
        },
{
}

/// The pills fold to a slot as large as a pill whose right and bottom edges are as far from
/// those of the work area as the button's are.
pub proof fn pills_fold_into_the_corner(wa: Rect, m: Metrics)
    requires
        wa.wf(),
        m.wf(),
    ensures
        fold_place(wa, m).x + m.note_w + m.inset == wa.right,
        fold_place(wa, m).y + m.note_h + m.inset == wa.bottom,
{
}

/// A window that is out of sight, on its way out, or docked casts no shadow; every other one
/// does.
pub proof fn windows_in_sight_cast_shadows(c: Card)
    ensures
        casts(c) ==> c.shown && c.docked == 0 && !c.flung && !c.closing && !c.dying,
        !casts(c) ==> !c.shown || c.docked != 0 || c.flung || c.closing || c.dying,
{
}

/// A saved note comes back where it was if enough of it shows there. Otherwise all of it
/// shows, where it fits. A docked one comes back as a sliver on its edge, in a row within the
/// work area.
pub proof fn saved_notes_come_back_in_sight(n: NoteValue, v: Rect, wa: Rect)
    requires
        loadable(n),
        v.wf(),
        wa.wf(),
    ensures
        ({
            let (x, y) = loaded_at(n, v, wa);
            &&& n.docked == 0 && shows(n.x as int, n.y as int, n.w as int, n.h as int, v) ==> x
                == n.x && y == n.y
            &&& n.docked == 0 && !shows(n.x as int, n.y as int, n.w as int, n.h as int, v) && n.w
                <= v.right - v.left && n.h <= v.bottom - v.top ==> v.left <= x && x + n.w <= v.right
                && v.top <= y && y + n.h <= v.bottom
            &&& n.docked < 0 ==> 10 * (x + n.w - wa.left) <= n.w <= 10 * (x + n.w - wa.left) + 10
            &&& n.docked > 0 ==> 10 * (wa.right - x) <= n.w <= 10 * (wa.right - x) + 10
            &&& n.docked != 0 && n.h <= wa.bottom - wa.top ==> wa.top <= y && y + n.h <= wa.bottom
            &&& n.docked != 0 && wa.top <= n.y && n.y + n.h <= wa.bottom ==> y == n.y
        }),
{
    if n.docked != 0 {
        crate::geometry::docked_notes_stand_over_their_edge(
            n.docked as int,
            n.w as int,
            false,
            wa,
        );
    }
}

} // verus!
