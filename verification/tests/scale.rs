use liquidnotes::geometry::{clamp_to_desktop, dock_x, Rect};
use liquidnotes::metrics::metrics;
use liquidnotes::scale::{
    opacity_of_level, sc, set_ui_scale, size_level_of, size_of_level, slider_level, UiScale,
    MAX_SCALE, MIN_SCALE, UNIT_SCALE,
};
use liquidnotes::widgets::{size_change, slider_layout, toggle_layout, track_sizes};

fn units(s: f32) -> u64 {
    (s as f64 * 16_777_216.0) as u64
}

#[test]
fn scaling_is_that_of_single_precision() {
    for s in [0.5f32, 0.8, 0.9, 1.0, 1.2, 1.25, 1.4, 1.5, 1.75, 2.1, 2.5, 3.3333, 4.0] {
        let u = set_ui_scale(units(s));
        for v in [
            0, 1, 2, 3, 5, 6, 8, 12, 14, 24, 26, 56, 64, 66, 170, 340, 352, 760, 12345, 1_234_567,
            16_777_215, 16_777_217, 33_554_435, 123_456_789, 1_999_999_999, i32::MAX,
        ] {
            assert_eq!(sc(v, u), (v as f32 * s).round() as i32, "{v} {s}");
            assert_eq!(sc(-v, u), (-v as f32 * s).round() as i32, "-{v} {s}");
        }
        assert_eq!(sc(i32::MIN, u), (i32::MIN as f32 * s).round() as i32);
    }
}

#[test]
fn scales_are_kept_in_range() {
    assert_eq!(set_ui_scale(0).units, MIN_SCALE);
    assert_eq!(set_ui_scale(u64::MAX).units, MAX_SCALE);
    assert_eq!(set_ui_scale(UNIT_SCALE as u64).units, UNIT_SCALE);
    let one = UiScale { units: UNIT_SCALE };
    for v in [-16_777_216, -77, 0, 340, 16_777_216] {
        assert_eq!(sc(v, one), v);
    }
}

#[test]
fn sizes_at_two_scales() {
    let m = metrics(set_ui_scale(units(1.0)));
    assert_eq!((m.button, m.note_w, m.note_h), (64, 340, 66));
    assert_eq!((m.min_w, m.min_h, m.max_w), (170, 66, 760));
    assert_eq!((m.gap, m.inset, m.shadow), (12, 24, 8));
    assert_eq!((m.dock_trigger, m.dock_gap), (14, 6));
    assert_eq!((m.tuck_dx, m.menu_dx), (56, 352));
    let m = metrics(set_ui_scale(units(1.5)));
    assert_eq!((m.button, m.note_w, m.note_h), (96, 510, 99));
    assert_eq!(track_sizes(m), ((255, 99), (1140, 100_000)));
    for k in 0..100u64 {
        let m = metrics(set_ui_scale(MIN_SCALE as u64 + k * 587_203));
        assert!(m.shadow < m.gap);
    }
}

#[test]
fn size_slider_stops() {
    for (k, s) in [0.8f32, 0.9, 1.0, 1.2, 1.4].iter().enumerate() {
        assert_eq!(size_of_level(k as u8) as u64, units(*s));
        assert_eq!(size_level_of(units(*s) as u32), k as u8);
    }
    assert_eq!(size_of_level(9), size_of_level(4));
    assert_eq!(size_level_of(0), 0);
    assert_eq!(size_level_of(units(1.05) as u32), 2);
    assert_eq!(size_level_of(units(1.11) as u32), 3);
    assert_eq!(size_level_of(u32::MAX), 4);
    assert_eq!(size_change(UNIT_SCALE, 2), None);
    assert_eq!(size_change(UNIT_SCALE + 1677, 2), None);
    assert_eq!(size_change(UNIT_SCALE, 3), Some(size_of_level(3)));
}

#[test]
fn slider_clicks() {
    for w in [170i32, 340, 408, 476, 680] {
        for x in -50..w + 50 {
            let wf = w as f64;
            let frac = ((x as f64 - 0.40 * wf) / (0.52 * wf)).clamp(0.0, 1.0);
            let want = (frac * 4.0 + 1e-12).round() as u8;
            assert_eq!(slider_level(x, w), want, "{x} {w}");
        }
    }
    assert_eq!(opacity_of_level(0), 0);
    assert_eq!(opacity_of_level(3), 75);
    assert_eq!(opacity_of_level(200), 100);
}

#[test]
fn pill_layouts() {
    let off = toggle_layout(340, 66, false);
    let on = toggle_layout(340, 66, true);
    assert_eq!((off.track_left, off.track_right), (580, 648));
    assert_eq!((off.track_top, off.track_bottom), (48, 84));
    assert_eq!((off.knob_x, on.knob_x), (598, 630));
    assert_eq!((off.knob_y, off.knob_r), (66, 14));
    assert_eq!((off.label_x, off.label_w), (36, 528));
    assert!(on.filled && !off.filled);
    assert_eq!(toggle_layout(10, 10, true).label_w, 2);
    let s = slider_layout(340, 66, 2);
    assert_eq!((s.track_left, s.track_right), (13_600, 31_280));
    assert_eq!((s.knob_x, s.stop, s.track_y), (22_440, 4_420, 3_300));
    assert_eq!((s.label_x, s.label_w), (1800, 11_000));
    assert_eq!(slider_layout(340, 66, 9).knob_x, s.track_right);
    for level in 0..5u8 {
        let k = slider_layout(340, 66, level).knob_x;
        assert_eq!(slider_level((k / 100) as i32, 340), level);
    }
}

#[test]
fn docked_notes_show_a_tenth() {
    let wa = Rect {
        left: -100,
        top: 0,
        right: 1820,
        bottom: 1040,
    };
    for w in [0, 1, 9, 10, 11, 99, 170, 340, 341, 760, 1234, 100_000, 131_072] {
        let tenth = (w as f32 * 0.10f32) as i32;
        let fifth = (w as f32 * 0.20f32) as i32;
        assert_eq!(dock_x(-1, w, false, wa), -100 - w + tenth, "{w}");
        assert_eq!(dock_x(1, w, false, wa), 1820 - tenth, "{w}");
        assert_eq!(dock_x(-1, w, true, wa), -100 - w + fifth, "{w}");
        assert_eq!(dock_x(1, w, true, wa), 1820 - fifth, "{w}");
    }
}

#[test]
fn notes_come_back_on_screen() {
    let v = Rect {
        left: 0,
        top: 0,
        right: 1920,
        bottom: 1080,
    };
    assert_eq!(clamp_to_desktop(100, 100, 340, 66, v), (100, 100));
    assert_eq!(clamp_to_desktop(1835, 100, 340, 66, v), (1835, 100));
    assert_eq!(clamp_to_desktop(1836, 100, 340, 66, v), (1580, 100));
    assert_eq!(clamp_to_desktop(-5000, 5000, 340, 66, v), (0, 1014));
    assert_eq!(clamp_to_desktop(5000, 0, 4000, 66, v), (0, 0));
    assert_eq!(clamp_to_desktop(i32::MAX, i32::MIN, 340, 66, v), (1580, 0));
    assert_eq!(clamp_to_desktop(i32::MIN, i32::MAX, i32::MAX, i32::MAX, v), (0, 0));
}

#[test]
fn longer_stays_longer() {
    for units in [0x80_0000u64, 0x100_0000, 0x133_3333, 0x166_6666, 0x400_0000] {
        let s = set_ui_scale(units);
        assert_eq!(sc(0, s), 0);
        let mut last = sc(i32::MIN, s);
        for v in [
            -2_000_000_000, -16_777_217, -16_777_216, -341, -1, 0, 1, 2, 3, 12, 340, 16_777_215,
            16_777_216, 16_777_217, 16_777_218, 33_554_431, 33_554_433, 1_000_000_007, i32::MAX,
        ] {
            let n = sc(v, s);
            assert!(last <= n, "{v}");
            last = n;
        }
    }
}
