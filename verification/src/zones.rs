//! What the parts of a window do under the mouse, and how tall a note is.

use vstd::prelude::*;
use crate::card::Card;
use crate::geometry::clamp_to;
use crate::geometry::clamped;
use crate::geometry::greater;
use crate::geometry::max_of;
use crate::geometry::Point;
use crate::geometry::Rect;
use crate::geometry::REACH;
use crate::metrics::modest;

verus! {

/// The part of a window that a point lies on.
#[derive(Clone, Copy, Debug, PartialEq, Eq, Structural)]
pub enum Zone {
    Transparent,
    Client,
    Left,
    Right,
    Top,
    Bottom,
    TopLeft,
    TopRight,
    BottomLeft,
    BottomRight,
}

/// How wide the border is that resizes a note.
pub const RESIZE_BORDER: i32 = 9;

/// How tall the strip at the top of a note is that drags it.
pub const DRAG_STRIP: i32 = 26;

/// How a window answers to the mouse.
#[derive(Clone, Copy, Debug, PartialEq, Eq, Structural)]
pub enum Surface {
    /// A shadow: clicks fall through.
    Shadow,
    /// The button, a pill or the sliver of a docked note: it can only be clicked.
    Plain,
    /// A note whose border resizes it.
    Resizable,
}

/// The zone of a point on a resizable note: a corner where it lies on two
/// borders, the left one before the right one and the top one before the
/// bottom one.
pub open spec fn border_zone(r: Rect, x: int, y: int) -> Zone {
    let left = x < r.left + RESIZE_BORDER;
    let right = x >= r.right - RESIZE_BORDER;
    let top = y < r.top + RESIZE_BORDER;
    let bottom = y >= r.bottom - RESIZE_BORDER;
    if left && top {
        Zone::TopLeft
    } else if right && top {
        Zone::TopRight
    } else if left && bottom {
        Zone::BottomLeft
    } else if right && bottom {
        Zone::BottomRight
    } else if left {
        Zone::Left
    } else if right {
        Zone::Right
    } else if top {
        Zone::Top
    } else if bottom {
        Zone::Bottom
    } else {
        Zone::Client
    }
}

/// The zone of a point on a window.
pub fn hit_zone(surface: Surface, r: Rect, p: Point) -> (z: Zone)
    requires
        r.wf(),
    ensures
        z == match surface {
            Surface::Shadow => Zone::Transparent,
            Surface::Plain => Zone::Client,
            Surface::Resizable => border_zone(r, p.x as int, p.y as int),
        },
{
    match surface {
        Surface::Shadow => Zone::Transparent,
        Surface::Plain => Zone::Client,
        Surface::Resizable => {
            let left = p.x < r.left + RESIZE_BORDER;
            let right = p.x >= r.right - RESIZE_BORDER;
            let top = p.y < r.top + RESIZE_BORDER;
            let bottom = p.y >= r.bottom - RESIZE_BORDER;
            if left && top {
                Zone::TopLeft
            } else if right && top {
                Zone::TopRight
            } else if left && bottom {
                Zone::BottomLeft
            } else if right && bottom {
                Zone::BottomRight
            } else if left {
                Zone::Left
            } else if right {
                Zone::Right
            } else if top {
                Zone::Top
            } else if bottom {
                Zone::Bottom
            } else {
                Zone::Client
            }
        },
    }
}

/// What pressing the mouse on a note starts.
#[derive(Clone, Copy, Debug, PartialEq, Eq, Structural)]
pub enum Press {
    /// The note slides back from the edge it is docked on.
    Undock,
    /// The note closes.
    Close,
    /// The note is dragged.
    Drag,
    /// The text is edited.
    Edit,
}

/// The closing box in the top right corner.
pub open spec fn on_close_box(r: Rect, p: Point) -> bool {
    r.right - 30 <= p.x <= r.right - 6 && r.top + 6 <= p.y <= r.top + 30
}

/// How a window answers to the mouse: the border of a note resizes it, unless
/// only a sliver of it shows.
pub fn surface_of(c: Card) -> (s: Surface)
    ensures
        s == if c.note() && !c.hidden() {
            Surface::Resizable
        } else {
            Surface::Plain
        },
        s == Surface::Resizable <==> c.note() && (c.docked == 0 || c.revealed),
        s != Surface::Shadow,
{
    if c.is_note() && !c.is_hidden() {
        Surface::Resizable
    } else {
        Surface::Plain
    }
}

/// What pressing the mouse on a note starts, `hidden` where only a sliver of it
/// shows.
pub fn press_on(hidden: bool, r: Rect, p: Point) -> (a: Press)
    requires
        r.wf(),
    ensures
        a == if hidden {
            Press::Undock
        } else if on_close_box(r, p) {
            Press::Close
        } else if p.y < r.top + DRAG_STRIP {
            Press::Drag
        } else {
            Press::Edit
        },
        a == Press::Undock <==> hidden,
        a == Press::Close ==> 6 <= r.right - p.x <= 30 && 6 <= p.y - r.top <= 30,
        a == Press::Drag ==> p.y < r.top + 26,
        a == Press::Edit ==> p.y >= r.top + 26,
        !hidden && p.y >= r.top + 26 && p.y > r.top + 30 ==> a == Press::Edit,
{
    if hidden {
        Press::Undock
    } else if r.right - 30 <= p.x && p.x <= r.right - 6 && r.top + 6 <= p.y && p.y <= r.top + 30 {
        Press::Close
    } else if p.y < r.top + DRAG_STRIP {
        Press::Drag
    } else {
        Press::Edit
    }
}

/// How often the mouse was pressed on one spot in a row: a press that comes soon
/// after the last and near it counts on, from three over to one, and any other
/// starts anew.
pub fn count_clicks(last: u32, soon: bool, near: bool) -> (n: u32)
    requires
        last <= 3,
    ensures
        n == if soon && near {
            last % 3 + 1
        } else {
            1
        },
        1 <= n <= 3,
        !soon || !near ==> n == 1,
        soon && near && last < 3 ==> n == last + 1,
        soon && near && last == 3 ==> n == 1,
{
    if soon && near {
        last % 3 + 1
    } else {
        1
    }
}

/// Where a docked note slides back to, eight pixels from the edge at least.
pub fn undock_x(r: Rect, wa: Rect) -> (x: i32)
    requires
        r.wf(),
        wa.wf(),
    ensures
        x == clamped(
            r.left as int,
            wa.left + 8,
            greater(wa.right - r.w() - 8, wa.left + 8),
        ),
        -0x4000_0000 <= x <= 0x4000_0000,
        wa.left + 8 <= wa.right - r.w() - 8 ==> wa.left + 8 <= x && x + r.w() + 8 <= wa.right,
        forall|z: int|
            wa.left + 8 <= z <= wa.right - r.w() - 8 ==> (#[trigger] greater(z, x as int) == z
                ==> x >= r.left || x == z) && (greater(z, x as int) == x ==> x <= r.left || x == z),
{
    let w: i32 = r.width();
    let hi: i32 = max_of(wa.right - w - 8, wa.left + 8);
    clamp_to(r.left, wa.left + 8, hi)
}

/// The height that a note needs for its text.
pub open spec fn needed(text_h: int, pad: int, min_h: int) -> int {
    greater(text_h + 2 * pad, min_h)
}

/// A rectangle that the user drags to a new size, made tall enough for the
/// text. It grows at the bottom unless the top edge is the one that is dragged
/// (edges 3, 4 and 5).
pub fn sized(rc: Rect, text_h: i32, pad: i32, min_h: i32, edge: u32) -> (r: Rect)
    requires
        rc.wf(),
        0 <= text_h <= REACH,
        modest(pad as int),
        modest(min_h as int),
    ensures
        ({
            let need = needed(text_h as int, pad as int, min_h as int);
            if rc.h() >= need {
                r == rc
            } else if 3 <= edge <= 5 {
                r == (Rect { top: (rc.bottom - need) as i32, ..rc })
            } else {
                r == (Rect { bottom: (rc.top + need) as i32, ..rc })
            }
        }),
        r.h() >= needed(text_h as int, pad as int, min_h as int),
        r.left == rc.left && r.right == rc.right,
        3 <= edge <= 5 ==> r.bottom == rc.bottom,
        !(3 <= edge <= 5) ==> r.top == rc.top,
        r.h() >= text_h + 2 * pad && r.h() >= min_h && r.h() >= rc.h(),
        r.h() == rc.h() || r.h() == text_h + 2 * pad || r.h() == min_h,
{
    let need: i32 = max_of(text_h + 2 * pad, min_h);
    if rc.bottom - rc.top < need {
        if 3 <= edge && edge <= 5 {
            Rect { left: rc.left, top: rc.bottom - need, right: rc.right, bottom: rc.bottom }
        } else {
            Rect { left: rc.left, top: rc.top, right: rc.right, bottom: rc.top + need }
        }
    } else {
        rc
    }
}

/// The new height of a note that fits its text, where it differs from the
/// present one by more than a pixel. It is never below what the user chose.
pub fn auto_height(cur: i32, text_h: i32, pad: i32, min_h: i32, manual_h: i32) -> (r: Option<i32>)
    requires
        -REACH <= cur <= 2 * REACH,
        0 <= text_h <= REACH,
        modest(pad as int),
        modest(min_h as int),
    ensures
        ({
            let want = greater(
                text_h + 2 * pad,
                greater(min_h as int, manual_h as int),
            );
            r == if want - cur > 1 || cur - want > 1 {
                Some(want as i32)
            } else {
                None
            }
        }),
        r matches Some(h) ==> h >= text_h + 2 * pad && h >= min_h && h >= manual_h && (h == text_h
            + 2 * pad || h == min_h || h == manual_h),
        r is None ==> cur + 1 >= text_h + 2 * pad && cur + 1 >= min_h && cur + 1 >= manual_h,
        r matches Some(h) ==> h > cur + 1 || h < cur - 1,
{
    let want: i32 = max_of(text_h + 2 * pad, max_of(min_h, manual_h));
    let diff: i64 = want as i64 - cur as i64;
    if diff > 1 || diff < -1 {
        Some(want)
    } else {
        None
    }
}

/// On a resizable note that is wider and taller than two borders, a point within nine
/// pixels of an edge resizes at that edge: at no other along its axis, and at none where
/// it is further inside.
pub proof fn borders_resize_their_edge(r: Rect, x: int, y: int)
    requires
        r.left <= x < r.right,
        r.top <= y < r.bottom,
        r.right - r.left >= 18,
        r.bottom - r.top >= 18,
    ensures
        ({
            let z = border_zone(r, x, y);
            &&& x - r.left < 9 <==> z == Zone::Left || z == Zone::TopLeft || z == Zone::BottomLeft
            &&& r.right - x <= 9 <==> z == Zone::Right || z == Zone::TopRight || z
                == Zone::BottomRight
            &&& y - r.top < 9 <==> z == Zone::Top || z == Zone::TopLeft || z == Zone::TopRight
            &&& r.bottom - y <= 9 <==> z == Zone::Bottom || z == Zone::BottomLeft || z
                == Zone::BottomRight
            &&& z != Zone::Transparent
        }),
{
}

/// Where the borders of a small note meet, the left and the top one come first.
pub proof fn the_left_and_the_top_come_first(r: Rect, x: int, y: int)
    ensures
        ({
            let z = border_zone(r, x, y);
            &&& x - r.left < 9 && y - r.top < 9 ==> z == Zone::TopLeft
            &&& x - r.left < 9 && y - r.top >= 9 && y < r.bottom - 9 ==> z == Zone::Left
            &&& x - r.left < 9 ==> z != Zone::Right && z != Zone::Top && z != Zone::Bottom
            &&& z == Zone::Client ==> r.left + 9 <= x < r.right - 9 && r.top + 9 <= y < r.bottom
                - 9
        }),
{
}

/// The closing box is 24 pixels wide and tall, six pixels from the top right corner,
/// and lies inside the note.
pub proof fn the_close_box_sits_in_the_corner(r: Rect, p: Point)
    ensures
        on_close_box(r, p) <==> 6 <= r.right - p.x <= 30 && 6 <= p.y - r.top <= 30,
        on_close_box(r, p) && r.right - r.left >= 30 && r.bottom - r.top > 30 ==> r.holds(
            p.x as int,
            p.y as int,
        ),
{
}

/// A note has room for its text and the padding above and below it, and is never
/// smaller than the least note; it is no taller than one of the two asks for.
pub proof fn a_note_has_room_for_its_text(text_h: int, pad: int, min_h: int)
    ensures
        needed(text_h, pad, min_h) - pad - pad >= text_h,
        needed(text_h, pad, min_h) >= min_h,
        needed(text_h, pad, min_h) == min_h || needed(text_h, pad, min_h) - pad - pad == text_h,
{
}

} // verus!
