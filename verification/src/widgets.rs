//! The pills: how their toggle and slider are laid out, and what clicking a
//! window does.

use vstd::prelude::*;
use crate::card::Role;
use crate::geometry::greater;
use crate::metrics::Metrics;
use crate::scale::apart;
use crate::scale::size_of_level;
use crate::scale::size_stop;

verus! {

/// The startup pill, in half pixels: a label on the left, and a track of 34 by
/// 18 pixels near the right edge with a knob at one of its ends.
#[derive(Clone, Copy, Debug, PartialEq, Eq, Structural)]
pub struct ToggleLayout {
    pub label_x: i64,
    pub label_w: i64,
    pub track_left: i64,
    pub track_top: i64,
    pub track_right: i64,
    pub track_bottom: i64,
    pub knob_x: i64,
    pub knob_y: i64,
    pub knob_r: i64,
    /// The inside of the track is filled.
    pub filled: bool,
}

/// The layout of the startup pill.
pub open spec fn toggle(w: int, h: int, on: bool) -> ToggleLayout {
    let right = 2 * (w - 16);
    let left = right - 68;
    ToggleLayout {
        label_x: 36,
        label_w: greater(left - 16 - 36, 2) as i64,
        track_left: left as i64,
        track_top: (h - 18) as i64,
        track_right: right as i64,
        track_bottom: (h + 18) as i64,
        knob_x: (if on {
            right - 18
        } else {
            left + 18
        }) as i64,
        knob_y: h as i64,
        knob_r: 14,
        filled: on,
    }
}

/// The layout of the startup pill.
pub fn toggle_layout(w: u32, h: u32, on: bool) -> (t: ToggleLayout)
    ensures
        t == toggle(w as int, h as int, on),
{
    let right: i64 = 2 * (w as i64 - 16);
    let left: i64 = right - 68;
    let room: i64 = left - 16 - 36;
    ToggleLayout {
        label_x: 36,
        label_w: if room > 2 {
            room
        } else {
            2
        },
        track_left: left,
        track_top: h as i64 - 18,
        track_right: right,
        track_bottom: h as i64 + 18,
        knob_x: if on {
            right - 18
        } else {
            left + 18
        },
        knob_y: h as i64,
        knob_r: 14,
        filled: on,
    }
}

/// Flipping the toggle moves the knob to the other end of its track and leaves
/// it inside.
pub proof fn knob_rides_the_track(w: int, h: int)
    requires
        0 <= w <= u32::MAX,
        0 <= h <= u32::MAX,
    ensures
        ({
            let a = toggle(w, h, false);
            let b = toggle(w, h, true);
            &&& a.track_left <= a.knob_x - a.knob_r && a.knob_x + a.knob_r < b.knob_x - b.knob_r
            &&& b.knob_x + b.knob_r <= b.track_right
            &&& a.track_left == b.track_left && a.track_right == b.track_right
        }),
{
}

/// A slider pill, in hundredths of a pixel: a label on the left, and a track
/// with five stops from 40 to 92 hundredths of the width.
#[derive(Clone, Copy, Debug, PartialEq, Eq, Structural)]
pub struct SliderLayout {
    pub label_x: i64,
    pub label_w: i64,
    pub track_left: i64,
    pub track_right: i64,
    pub track_y: i64,
    pub knob_x: i64,
    /// From one stop to the next.
    pub stop: i64,
}

/// The layout of a slider pill; a level beyond the last is the last.
pub open spec fn slider(w: int, h: int, level: int) -> SliderLayout {
    let k = if level < 4 {
        level
    } else {
        4
    };
    SliderLayout {
        label_x: 1800,
        label_w: greater(40 * w - 800 - 1800, 100) as i64,
        track_left: (40 * w) as i64,
        track_right: (92 * w) as i64,
        track_y: (50 * h) as i64,
        knob_x: (40 * w + k * (13 * w)) as i64,
        stop: (13 * w) as i64,
    }
}

/// The layout of a slider pill.
pub fn slider_layout(w: u32, h: u32, level: u8) -> (s: SliderLayout)
    ensures
        s == slider(w as int, h as int, level as int),
{
    let wl: i64 = w as i64;
    let k: i64 = if level < 4 {
        level as i64
    } else {
        4
    };
    let room: i64 = 40 * wl - 800 - 1800;
    assert(0 <= k * (13 * wl) <= 4 * (13 * 0x1_0000_0000)) by (nonlinear_arith)
        requires
            0 <= k <= 4,
            0 <= wl <= 0x1_0000_0000,
    ;
    SliderLayout {
        label_x: 1800,
        label_w: if room > 100 {
            room
        } else {
            100
        },
        track_left: 40 * wl,
        track_right: 92 * wl,
        track_y: 50 * (h as i64),
        knob_x: 40 * wl + k * (13 * wl),
        stop: 13 * wl,
    }
}

/// A click where the knob of a level is drawn picks that level, up to the pixel
/// that the knob stands on.
pub proof fn knob_and_click_agree(w: int, level: int, x: int)
    requires
        0 < w <= u32::MAX,
        0 <= level <= 4,
        100 * x <= slider(w, 0, level).knob_x < 100 * (x + 1),
        w >= 16,
    ensures
        crate::scale::slider_stop(x, w) == level,
{
    let k = slider(w, 0, level).knob_x as int;
    assert(0 <= level * (13 * w) <= 4 * (13 * 0x1_0000_0000)) by (nonlinear_arith)
        requires
            0 <= level <= 4,
            0 <= w <= 0x1_0000_0000,
    ;
    assert(k == 40 * w + level * (13 * w));
    let d = 26 * w;
    let n = 200 * x - 67 * w;
    assert(level * (13 * w) == level * 13 * w) by (nonlinear_arith);
    assert(2 * (level * 13 * w) == level * d) by (nonlinear_arith)
        requires
            d == 26 * w,
    ;
    let r = n - level * d;
    assert(0 <= r < d);
    assert(n == level * d + r);
    vstd::arithmetic::div_mod::lemma_fundamental_div_mod_converse(n, d, level, r);
}

/// What clicking a window does.
#[derive(Clone, Copy, Debug, PartialEq, Eq, Structural)]
pub enum Click {
    /// A fresh note; the menu closes first where it is open.
    Spawn,
    /// The menu closes and the application ends.
    Quit,
    ToggleStartup,
    ToggleSlideOut,
    PickOpacity,
    PickSize,
    Nothing,
}

/// What clicking a window does.
pub fn click_on(role: Role) -> (c: Click)
    ensures
        c == match role {
            Role::Button => Click::Spawn,
            Role::Quit => Click::Quit,
            Role::Startup => Click::ToggleStartup,
            Role::SlideOut => Click::ToggleSlideOut,
            Role::Opacity => Click::PickOpacity,
            Role::Size => Click::PickSize,
            Role::Note => Click::Nothing,
        },
        c == Click::Nothing <==> role == Role::Note,
        c == Click::Spawn <==> role == Role::Button,
        c == Click::Quit <==> role == Role::Quit,
        c == Click::ToggleStartup <==> role == Role::Startup,
        c == Click::ToggleSlideOut <==> role == Role::SlideOut,
        c == Click::PickOpacity <==> role == Role::Opacity,
        c == Click::PickSize <==> role == Role::Size,
{
    match role {
        Role::Button => Click::Spawn,
        Role::Quit => Click::Quit,
        Role::Startup => Click::ToggleStartup,
        Role::SlideOut => Click::ToggleSlideOut,
        Role::Opacity => Click::PickOpacity,
        Role::Size => Click::PickSize,
        Role::Note => Click::Nothing,
    }
}

/// The new multiplier of a stop of the size slider; none where it is the
/// present one, up to a ten-thousandth.
pub fn size_change(user: u32, level: u8) -> (r: Option<u32>)
    ensures
        r == if apart(size_stop(level as int), user) <= 1677 {
            None
        } else {
            Some(size_stop(level as int))
        },
        r is Some ==> r->Some_0 == size_stop(level as int) && r->Some_0 != user,
        user == size_stop(level as int) ==> r is None,
{
    let s: u32 = size_of_level(level);
    let d: u32 = if s < user {
        user - s
    } else {
        s - user
    };
    if d <= 1677 {
        None
    } else {
        Some(s)
    }
}

/// How small and how large the user may make a note: its width has both bounds,
/// its height only the lower one.
pub fn track_sizes(m: Metrics) -> (r: ((i32, i32), (i32, i32)))
    ensures
        r.0 == (m.min_w, m.min_h),
        r.1 == (m.max_w, 100_000i32),
{
    ((m.min_w, m.min_h), (m.max_w, 100_000))
}

/// The toggle's track is 34 pixels by 18, in the middle of the pill's height and 16
/// pixels from its right edge. The knob is as high as the middle and four half pixels
/// inside the track: at the right end where the toggle is on, which then is filled, and
/// else at the left end. The label begins 18 pixels from the left and ends eight before
/// the track.
pub proof fn the_toggle_is_laid_out(w: int, h: int, on: bool)
    requires
        0 <= w <= u32::MAX,
        0 <= h <= u32::MAX,
    ensures
        ({
            let t = toggle(w, h, on);
            &&& t.track_right - t.track_left == 2 * 34
            &&& t.track_bottom - t.track_top == 2 * 18
            &&& t.track_bottom + t.track_top == 2 * h
            &&& 2 * w - t.track_right == 2 * 16
            &&& t.knob_y == h
            &&& on ==> t.track_right - (t.knob_x + t.knob_r) == 4
            &&& !on ==> (t.knob_x - t.knob_r) - t.track_left == 4
            &&& t.knob_r == 14
            &&& t.filled == on
            &&& t.label_x == 2 * 18
            &&& w >= 100 ==> t.label_x + t.label_w + 2 * 8 == t.track_left
            &&& t.label_w >= 2
        }),
{
}

/// The slider's track runs from 40 to 92 hundredths of the width, at half the height.
/// The knob stands on the track: at its left end for the first level, at its right end for
/// the last, and one stop further for each level between. The label begins 18 pixels
/// from the left and ends eight before the track.
pub proof fn the_slider_is_laid_out(w: int, h: int, level: int)
    requires
        0 <= w <= u32::MAX,
        0 <= h <= u32::MAX,
        0 <= level <= 255,
    ensures
        ({
            let s = slider(w, h, level);
            &&& s.track_left == 40 * w && s.track_right == 92 * w
            &&& 2 * s.track_y == 100 * h
            &&& s.track_left <= s.knob_x <= s.track_right
            &&& level == 0 ==> s.knob_x == s.track_left
            &&& level >= 4 ==> s.knob_x == s.track_right
            &&& level < 4 ==> slider(w, h, level + 1).knob_x - s.knob_x == s.stop
            &&& 4 * s.stop == s.track_right - s.track_left
            &&& s.label_x == 100 * 18
            &&& w >= 100 ==> s.label_x + s.label_w + 100 * 8 == s.track_left
            &&& s.label_w >= 100
        }),
{
    let k = if level < 4 {
        level
    } else {
        4
    };
    let st = 13 * w;
    assert(0 <= k * st <= 4 * st) by (nonlinear_arith)
        requires
            0 <= k <= 4,
            0 <= st,
    ;
    assert((k + 1) * st == k * st + st) by (nonlinear_arith);
    assert(k == 4 ==> k * st == 4 * st) by (nonlinear_arith);
    assert(k == 0 ==> k * st == 0) by (nonlinear_arith);
    assert(k + 1 <= 4 ==> (k + 1) * st <= 4 * st) by (nonlinear_arith)
        requires
            0 <= st,
    ;
}

} // verus!
