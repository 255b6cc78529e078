use liquidnotes::glass::{
    blur_property, frost_downsample, frost_margin, gaussian_taps, host_start,
    max_refraction_displacement, passes, pending_after, prefers_host_renderer,
    requires_host_renderer, surface_size, Composition, HostStart, HostState, Passes, Presented,
    DEFAULT_FROST_DOWNSAMPLE,
};
use liquidnotes::material::GlassMaterial;

#[test]
fn optional_frost_uses_full_resolution() {
    assert_eq!(DEFAULT_FROST_DOWNSAMPLE, 1);
}

#[test]
fn default_keeps_refraction_with_light_frost() {
    let material = GlassMaterial::default();
    assert!(material.refraction.parse::<f32>().unwrap() > 0.0);
    assert_eq!(material.frost.parse::<f32>().unwrap(), 1.0);
}

#[test]
fn exact_refraction_is_default_with_an_instant_opt_in() {
    assert!(!prefers_host_renderer(""));
    assert!(!prefers_host_renderer("capture"));
    assert!(!prefers_host_renderer("exact"));
    assert!(prefers_host_renderer("instant"));
    assert!(prefers_host_renderer("host"));
    assert!(!requires_host_renderer(""));
    assert!(requires_host_renderer("instant"));
    assert!(requires_host_renderer("host"));
}

#[test]
fn frost_margin_uses_the_shaders_real_displacement_cap() {
    let displacement = max_refraction_displacement(60_000, 700, 32_500);
    assert!((displacement as f64 / 1e6 - 14.625).abs() < 0.001);
    // 12 px Gaussian support + 15 px displacement + the glass pass's
    // 10 px extra rim taps + 2 px safety.
    assert_eq!(frost_margin(12, displacement), 39);
    // Without the cap it would be 116 px per side.
    assert!(frost_margin(12, displacement) < 116);
}

#[test]
fn displacement_has_its_floor_and_sign() {
    assert_eq!(max_refraction_displacement(0, 0, 0), 0);
    assert_eq!(max_refraction_displacement(-2_000, 0, 100_000), 2_000_000);
    assert_eq!(max_refraction_displacement(9_000, -5_000, 0), 1_000_000);
    assert_eq!(
        max_refraction_displacement(9_000, -5_000, 1_000_000),
        36_000_000
    );
}

#[test]
fn passes_of_a_window() {
    assert_eq!(passes(true, 100, 50, 3_900, 14_625_000, 2), Passes::Overlay);
    assert_eq!(passes(false, 100, 50, 250, 14_625_000, 1), Passes::Sharp);
    match passes(false, 341, 66, 3_900, 14_625_000, 2) {
        Passes::Frosted(p) => {
            assert_eq!((p.radius, p.margin), (12, 39));
            assert_eq!((p.region_w, p.region_h), (419, 144));
            assert_eq!((p.buffer_w, p.buffer_h), (210, 72));
            assert_eq!(p.blur_radius, 6);
        }
        other => panic!("{other:?}"),
    }
    match passes(false, 10, 10, 100_000, 0, 1) {
        Passes::Frosted(p) => assert_eq!(p.radius, 64),
        other => panic!("{other:?}"),
    }
}

#[test]
fn taps_come_in_pairs() {
    assert_eq!(gaussian_taps(6), vec![(1, 2), (3, 4), (5, 6)]);
    assert_eq!(gaussian_taps(3), vec![(1, 2), (3, 3)]);
    assert_eq!(gaussian_taps(0), vec![]);
    assert_eq!(gaussian_taps(1000).len(), 32);
}

#[test]
fn renderer_choices() {
    assert_eq!(host_start("", true), HostStart::Unused);
    assert_eq!(host_start("host", true), HostStart::Used);
    assert_eq!(host_start("instant", false), HostStart::Failed);
    let mut h = HostState::new(true, true);
    assert_eq!(h.compose(true), Composition::Host);
    assert!(h.uses_host_backdrop() && !h.needs_capture_frames());
    assert_eq!(h.compose(false), Composition::Failed);
    assert!(h.uses_host_backdrop());
    let mut h = HostState::new(true, false);
    assert_eq!(h.compose(false), Composition::Capture);
    assert!(!h.uses_host_backdrop() && h.needs_capture_frames());
    assert_eq!(h.compose(true), Composition::Host);
    assert!(h.needs_capture_frames());
    let mut h = HostState::new(false, true);
    assert_eq!(h.compose(false), Composition::Capture);
    assert!(h.needs_capture_frames());
    assert_eq!(frost_downsample(None), 1);
    assert_eq!(frost_downsample(Some(2)), 2);
    assert_eq!(frost_downsample(Some(3)), 1);
    assert_eq!(surface_size(3, 70), (8, 70));
    assert!(!pending_after(true, Presented::Done));
    assert!(pending_after(false, Presented::Busy));
    assert!(pending_after(true, Presented::Failed));
    assert_eq!(blur_property("BlurAmount"), Some(0));
    assert_eq!(blur_property("Optimization"), Some(1));
    assert_eq!(blur_property("BorderMode"), Some(2));
    assert_eq!(blur_property("blurAmount"), None);
}
