//! The sizes of everything on screen, at a UI scale.

use vstd::prelude::*;
use crate::scale::sc;
use crate::scale::scaled;
use crate::scale::UiScale;

verus! {

/// The side of the button.
pub const BUTTON_SIZE: i32 = 64;

/// The size of a fresh note: one line of text.
pub const NOTE_W: i32 = 340;

pub const NOTE_H: i32 = 66;

pub const NOTE_MIN_W: i32 = 170;

pub const NOTE_MIN_H: i32 = 66;

pub const NOTE_MAX_W: i32 = 760;

/// The gap between stacked notes, and between notes that push each other away.
pub const STACK_GAP: i32 = 12;

/// How far the button stands from the corner of the work area.
pub const CORNER_INSET: i32 = 24;

/// The halo of a note's shadow, narrower than the gap between notes.
pub const SHADOW_MARGIN: i32 = 8;

/// How near to an edge a note is dropped that docks there.
pub const DOCK_TRIGGER: i32 = 14;

/// The gap between notes docked on one edge.
pub const DOCK_GAP: i32 = 6;

/// How far the idle cluster slides to the right: half the button stays in view.
pub const TUCK_DX: i32 = 56;

/// How far the cluster slides to the left while the menu is open.
pub const MENU_DX: i32 = 352;

/// The sizes at one scale.
#[derive(Clone, Copy, Debug, PartialEq, Eq, Structural)]
pub struct Metrics {
    pub button: i32,
    pub note_w: i32,
    pub note_h: i32,
    pub min_w: i32,
    pub min_h: i32,
    pub max_w: i32,
    pub gap: i32,
    pub inset: i32,
    pub shadow: i32,
    pub dock_trigger: i32,
    pub dock_gap: i32,
    pub tuck_dx: i32,
    pub menu_dx: i32,
}

/// A size that a window may have.
pub open spec fn modest(v: int) -> bool {
    0 <= v <= 0x20000
}

impl Metrics {
    /// Every size is one that a window may have.
    pub open spec fn wf(self) -> bool {
        &&& modest(self.button as int)
        &&& modest(self.note_w as int)
        &&& modest(self.note_h as int)
        &&& modest(self.min_w as int)
        &&& modest(self.min_h as int)
        &&& modest(self.max_w as int)
        &&& modest(self.gap as int)
        &&& modest(self.inset as int)
        &&& modest(self.shadow as int)
        &&& modest(self.dock_trigger as int)
        &&& modest(self.dock_gap as int)
        &&& modest(self.tuck_dx as int)
        &&& modest(self.menu_dx as int)
    }
}

/// A scaled size of up to 1000 pixels is one that a window may have.
proof fn lemma_modest(v: int, s: UiScale)
    requires
        0 <= v <= 1000,
        s.wf(),
    ensures
        modest(scaled(v, s)),
{
    let n = v as nat;
    crate::scale::lemma_single_le(n);
    let p = crate::scale::single(n) * s.units as nat;
    assert(p <= 2000 * 0x400_0000) by (nonlinear_arith)
        requires
            p == crate::scale::single(n) * s.units as nat,
            crate::scale::single(n) <= 2000,
            s.units <= 0x400_0000,
    ;
    crate::scale::lemma_single_le(p);
}

/// The sizes at a scale.
pub fn metrics(s: UiScale) -> (m: Metrics)
    requires
        s.wf(),
    ensures
        m.wf(),
        m.button == scaled(BUTTON_SIZE as int, s),
        m.note_w == scaled(NOTE_W as int, s),
        m.note_h == scaled(NOTE_H as int, s),
        m.min_w == scaled(NOTE_MIN_W as int, s),
        m.min_h == scaled(NOTE_MIN_H as int, s),
        m.max_w == scaled(NOTE_MAX_W as int, s),
        m.gap == scaled(STACK_GAP as int, s),
        m.inset == scaled(CORNER_INSET as int, s),
        m.shadow == scaled(SHADOW_MARGIN as int, s),
        m.dock_trigger == scaled(DOCK_TRIGGER as int, s),
        m.dock_gap == scaled(DOCK_GAP as int, s),
        m.tuck_dx == scaled(TUCK_DX as int, s),
        m.menu_dx == scaled(MENU_DX as int, s),
{
    proof {
        lemma_modest(BUTTON_SIZE as int, s);
        lemma_modest(NOTE_W as int, s);
        lemma_modest(NOTE_H as int, s);
        lemma_modest(NOTE_MIN_W as int, s);
        lemma_modest(NOTE_MAX_W as int, s);
        lemma_modest(STACK_GAP as int, s);
        lemma_modest(CORNER_INSET as int, s);
        lemma_modest(SHADOW_MARGIN as int, s);
        lemma_modest(DOCK_TRIGGER as int, s);
        lemma_modest(DOCK_GAP as int, s);
        lemma_modest(TUCK_DX as int, s);
        lemma_modest(MENU_DX as int, s);
    }
    Metrics {
        button: sc(BUTTON_SIZE, s),
        note_w: sc(NOTE_W, s),
        note_h: sc(NOTE_H, s),
        min_w: sc(NOTE_MIN_W, s),
        min_h: sc(NOTE_MIN_H, s),
        max_w: sc(NOTE_MAX_W, s),
        gap: sc(STACK_GAP, s),
        inset: sc(CORNER_INSET, s),
        shadow: sc(SHADOW_MARGIN, s),
        dock_trigger: sc(DOCK_TRIGGER, s),
        dock_gap: sc(DOCK_GAP, s),
        tuck_dx: sc(TUCK_DX, s),
        menu_dx: sc(MENU_DX, s),
    }
}

/// Rounding to 24 bits is off by no more than the last of them.
proof fn lemma_single_near(n: nat)
    requires
        n < 0x8000_0000,
    ensures
        n - 128 <= crate::scale::single(n) <= n + 128,
{
    let e = crate::scale::excess(n);
    let q = crate::double::p2(e);
    assert(crate::double::p2(31) == 0x8000_0000 && crate::double::p2(7) == 128) by {
        reveal_with_fuel(crate::double::p2, 32);
    }
    crate::scale::lemma_excess_bound(n, 7);
    crate::double::lemma_p2_mono(e, 7);
    crate::double::lemma_p2_pos(e);
    vstd::arithmetic::div_mod::lemma_fundamental_div_mod(n as int, q as int);
    let f = n / q;
    let h = crate::double::half_even(n, q);
    let r = n % q;
    assert(f * q <= h * q <= f * q + q) by (nonlinear_arith)
        requires
            f <= h <= f + 1,
    ;
    assert(f * q == q * f) by (nonlinear_arith);
}

/// At every scale the halo of a shadow is narrower than the gap between stacked
/// notes, so that it never reaches a neighbour.
pub proof fn shadow_stays_in_the_gap(s: UiScale)
    requires
        s.wf(),
    ensures
        scaled(SHADOW_MARGIN as int, s) < scaled(STACK_GAP as int, s),
{
    let u = s.units as nat;
    lemma_single_near(8);
    lemma_single_near(12);
    crate::scale::lemma_single_small(8);
    crate::scale::lemma_single_small(12);
    lemma_single_near(8 * u);
    lemma_single_near(12 * u);
}

/// At a scale of one the sizes are those that the desk was drawn for.
pub proof fn sizes_at_a_scale_of_one()
    ensures
        ({
            let s = UiScale { units: 0x100_0000 };
            &&& scaled(BUTTON_SIZE as int, s) == 64
            &&& scaled(NOTE_W as int, s) == 340
            &&& scaled(NOTE_H as int, s) == 66
            &&& scaled(NOTE_MIN_W as int, s) == 170
            &&& scaled(NOTE_MIN_H as int, s) == 66
            &&& scaled(NOTE_MAX_W as int, s) == 760
            &&& scaled(STACK_GAP as int, s) == 12
            &&& scaled(CORNER_INSET as int, s) == 24
            &&& scaled(SHADOW_MARGIN as int, s) == 8
            &&& scaled(DOCK_TRIGGER as int, s) == 14
            &&& scaled(DOCK_GAP as int, s) == 6
            &&& scaled(TUCK_DX as int, s) == 56
            &&& scaled(MENU_DX as int, s) == 352
        }),
{
    crate::scale::unit_scale_changes_nothing(64);
    crate::scale::unit_scale_changes_nothing(340);
    crate::scale::unit_scale_changes_nothing(66);
    crate::scale::unit_scale_changes_nothing(170);
    crate::scale::unit_scale_changes_nothing(760);
    crate::scale::unit_scale_changes_nothing(12);
    crate::scale::unit_scale_changes_nothing(24);
    crate::scale::unit_scale_changes_nothing(8);
    crate::scale::unit_scale_changes_nothing(14);
    crate::scale::unit_scale_changes_nothing(6);
    crate::scale::unit_scale_changes_nothing(56);
    crate::scale::unit_scale_changes_nothing(352);
}

/// At every scale a note can be made no smaller than it may be and no larger than it may,
/// a fresh one lies between, and half the button stays in view where the cluster tucks.
pub proof fn sizes_keep_their_order(s: UiScale)
    requires
        s.wf(),
    ensures
        scaled(NOTE_MIN_W as int, s) <= scaled(NOTE_W as int, s) <= scaled(NOTE_MAX_W as int, s),
        scaled(NOTE_MIN_H as int, s) <= scaled(NOTE_H as int, s),
        scaled(DOCK_GAP as int, s) <= scaled(STACK_GAP as int, s),
{
    crate::scale::scaling_keeps_the_order(170, 340, s);
    crate::scale::scaling_keeps_the_order(340, 760, s);
    crate::scale::scaling_keeps_the_order(66, 66, s);
    crate::scale::scaling_keeps_the_order(6, 12, s);
}

} // verus!
