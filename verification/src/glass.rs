//! How a window's glass is drawn: which renderer, which passes, and how large
//! the textures are. Quantities that are not whole pixels are in thousandths.

use vstd::prelude::*;
use crate::geometry::greater;
use crate::geometry::lesser;
use crate::strings::is_text;

verus! {

/// Frost is blurred at full resolution unless asked otherwise.
pub const DEFAULT_FROST_DOWNSAMPLE: u32 = 1;

/// The taps of the glass pass beyond the blur, along the rim.
pub const EXTRA_RIM_BLUR_RADIUS: u32 = 10;

/// How many pairs of taps a blur pass takes at most.
pub const MAX_GAUSSIAN_PAIRS: u32 = 32;

/// The names of the renderer that leaves the backdrop to the compositor.
pub open spec fn names_host(preference: Seq<char>) -> bool {
    preference == "instant"@ || preference == "host"@
}

/// Whether the compositor's backdrop is asked for. It cannot bend what lies
/// behind the glass, so the exact renderer is the default.
pub fn prefers_host_renderer(preference: &str) -> (r: bool)
    ensures
        r == names_host(preference@),
{
    is_text(preference, "instant") || is_text(preference, "host")
}

/// Whether nothing but the compositor's backdrop will do.
pub fn requires_host_renderer(preference: &str) -> (r: bool)
    ensures
        r == names_host(preference@),
{
    is_text(preference, "instant") || is_text(preference, "host")
}

/// What becomes of the compositor at the start.
#[derive(Clone, Copy, Debug, PartialEq, Eq, Structural)]
pub enum HostStart {
    /// It draws the backdrop.
    Used,
    /// The exact renderer draws the backdrop.
    Unused,
    /// There is nothing to draw with.
    Failed,
}

/// What becomes of the compositor, of which `created` says whether it could be
/// had.
pub fn host_start(preference: &str, created: bool) -> (h: HostStart)
    ensures
        h == if !names_host(preference@) {
            HostStart::Unused
        } else if created {
            HostStart::Used
        } else {
            HostStart::Failed
        },
        h == HostStart::Unused <==> preference@ != "instant"@ && preference@ != "host"@,
        h == HostStart::Used ==> created,
        h == HostStart::Failed ==> !created,
{
    if !prefers_host_renderer(preference) {
        HostStart::Unused
    } else if created {
        HostStart::Used
    } else if requires_host_renderer(preference) {
        HostStart::Failed
    } else {
        HostStart::Unused
    }
}

/// How a surface is put on screen.
#[derive(Clone, Copy, Debug, PartialEq, Eq, Structural)]
pub enum Composition {
    Host,
    Capture,
    Failed,
}

/// The compositor in the course of the program.
#[derive(Clone, Copy, Debug, PartialEq, Eq, Structural)]
pub struct HostState {
    /// There is one.
    pub present: bool,
    /// Nothing else will do.
    pub required: bool,
    /// It has taken every surface so far.
    pub usable: bool,
}

impl HostState {
    /// The compositor at the start.
    pub fn new(present: bool, required: bool) -> (h: HostState)
        ensures
            h == (HostState { present, required, usable: present }),
    {
        HostState { present, required, usable: present }
    }

    /// Whether the compositor owns the visible backdrop.
    pub fn uses_host_backdrop(&self) -> (r: bool)
        ensures
            r == (self.present && self.usable),
    {
        self.present && self.usable
    }

    /// Whether every captured frame is needed for the picture.
    pub fn needs_capture_frames(&self) -> (r: bool)
        ensures
            r == !(self.present && self.usable),
    {
        !self.uses_host_backdrop()
    }

    /// How a surface is put on screen: by the compositor where there is one and
    /// it takes the surface, and by the exact renderer otherwise, unless
    /// nothing but the compositor will do. After a refusal the captured frames
    /// are needed.
    pub fn compose(&mut self, taken: bool) -> (c: Composition)
        ensures
            c == if old(self).present && taken {
                Composition::Host
            } else if old(self).present && old(self).required {
                Composition::Failed
            } else {
                Composition::Capture
            },
            *final(self) == (HostState {
                usable: old(self).usable && !(old(self).present && !taken && !old(self).required),
                ..*old(self)
            }),
            c == Composition::Host ==> taken && old(self).present && final(self).usable == old(self).usable,
            c == Composition::Failed ==> !taken && old(self).required && *final(self) == *old(self),
            c == Composition::Capture && old(self).present ==> !final(self).usable && !old(self).required,
            !old(self).usable ==> !final(self).usable,
            final(self).present == old(self).present && final(self).required == old(self).required,
    {
        if self.present {
            if taken {
                Composition::Host
            } else if self.required {
                Composition::Failed
            } else {
                self.usable = false;
                Composition::Capture
            }
        } else {
            Composition::Capture
        }
    }
}

/// The scale of the frost buffer: 2 where that is asked for.
pub fn frost_downsample(asked: Option<u32>) -> (r: u32)
    ensures
        r == if asked == Some(2u32) {
            2
        } else {
            DEFAULT_FROST_DOWNSAMPLE
        },
        r == 1 || r == 2,
        r == 2 <==> asked == Some(2u32),
{
    match asked {
        Some(v) => if v == 2 {
            2
        } else {
            DEFAULT_FROST_DOWNSAMPLE
        },
        None => DEFAULT_FROST_DOWNSAMPLE,
    }
}

/// The absolute value.
pub open spec fn size_of(v: int) -> int {
    if v < 0 {
        -v
    } else {
        v
    }
}

/// How far the glass displaces what lies behind it, in millionths of a pixel:
/// by its refraction, more at the rim, but no more than 45 hundredths of the
/// curved band or one pixel.
pub open spec fn displacement(refraction: int, rim: int, band: int) -> int {
    lesser(
        size_of(refraction) * greater(1000, size_of(1000 + rim)),
        greater(450 * band, 1_000_000),
    )
}

/// How far the glass displaces what lies behind it, in millionths of a pixel.
pub fn max_refraction_displacement(refraction: i32, rim: i32, band: i32) -> (r: u64)
    requires
        -1_000_000_000 <= refraction <= 1_000_000_000,
        -1_000_000_000 <= rim <= 1_000_000_000,
    ensures
        r == displacement(refraction as int, rim as int, band as int),
{
    let a: i64 = if refraction < 0 {
        -(refraction as i64)
    } else {
        refraction as i64
    };
    let f: i64 = 1000 + rim as i64;
    let g: i64 = if f < 0 {
        -f
    } else {
        f
    };
    let k: i64 = if g > 1000 {
        g
    } else {
        1000
    };
    assert(0 <= a * k <= 1_000_000_000 * 1_000_001_000) by (nonlinear_arith)
        requires
            0 <= a <= 1_000_000_000,
            0 <= k <= 1_000_001_000,
    ;
    let raw: i64 = a * k;
    let band_cap: i64 = 450 * (band as i64);
    let cap: i64 = if band_cap > 1_000_000 {
        band_cap
    } else {
        1_000_000
    };
    if raw <= cap {
        raw as u64
    } else {
        cap as u64
    }
}

/// The least whole number of `d` parts that `n` takes.
pub open spec fn parts(n: int, d: int) -> int {
    (n + d - 1) / d
}

/// The margin of background that the frost needs round a window: the reach of
/// the blur, of the displacement and of the rim, and two pixels.
pub open spec fn margin(radius: int, displaced: int) -> int {
    radius + parts(displaced, 1_000_000) + EXTRA_RIM_BLUR_RADIUS + 2
}

/// The margin of background that the frost needs round a window.
pub fn frost_margin(radius: u32, displaced: u64) -> (m: u32)
    requires
        radius <= 0x10000,
        displaced <= 0x1_0000_0000_0000,
    ensures
        m == margin(radius as int, displaced as int),
{
    let d: u64 = (displaced + 999_999) / 1_000_000;
    radius + d as u32 + EXTRA_RIM_BLUR_RADIUS + 2
}

/// How the frost of one window is blurred.
#[derive(Clone, Copy, Debug, PartialEq, Eq, Structural)]
pub struct FrostPlan {
    pub radius: u32,
    pub margin: u32,
    /// The window with its margin.
    pub region_w: u32,
    pub region_h: u32,
    /// The buffers that are blurred.
    pub buffer_w: u32,
    pub buffer_h: u32,
    pub blur_radius: u32,
}

/// The reach of a blur: three times its sigma, but 64 pixels at most.
pub open spec fn blur_reach(sigma: int) -> int {
    lesser(parts(3 * sigma, 1000), 64)
}

/// How the frost of a window is blurred.
pub open spec fn frosted(w: int, h: int, sigma: int, displaced: int, scale: int) -> FrostPlan {
    let radius = blur_reach(sigma);
    let m = margin(radius, displaced);
    FrostPlan {
        radius: radius as u32,
        margin: m as u32,
        region_w: (w + 2 * m) as u32,
        region_h: (h + 2 * m) as u32,
        buffer_w: parts(w + 2 * m, scale) as u32,
        buffer_h: parts(h + 2 * m, scale) as u32,
        blur_radius: parts(radius, scale) as u32,
    }
}

/// The passes that draw a window.
#[derive(Clone, Copy, Debug, PartialEq, Eq, Structural)]
pub enum Passes {
    /// The overlay over the compositor's backdrop.
    Overlay,
    /// Two blur passes, then the glass.
    Frosted(FrostPlan),
    /// The glass alone, over the sharp background.
    Sharp,
}

/// The passes that draw a window of this size. Frost of a quarter pixel or less
/// is left out.
pub fn passes(host: bool, w: u32, h: u32, sigma: u32, displaced: u64, scale: u32) -> (p: Passes)
    requires
        w <= 0x20000,
        h <= 0x20000,
        sigma <= 1_000_000,
        displaced <= 0x1_0000_0000_0000,
        scale == 1 || scale == 2,
    ensures
        p == if host {
            Passes::Overlay
        } else if sigma > 250 {
            Passes::Frosted(frosted(w as int, h as int, sigma as int, displaced as int, scale as int))
        } else {
            Passes::Sharp
        },
        p is Overlay <==> host,
        p is Sharp <==> !host && sigma <= 250,
{
    if host {
        return Passes::Overlay;
    }
    if sigma <= 250 {
        return Passes::Sharp;
    }
    let reach: u32 = (3 * sigma + 999) / 1000;
    let radius: u32 = if reach < 64 {
        reach
    } else {
        64
    };
    let m: u32 = frost_margin(radius, displaced);
    let region_w: u32 = w + 2 * m;
    let region_h: u32 = h + 2 * m;
    Passes::Frosted(
        FrostPlan {
            radius,
            margin: m,
            region_w,
            region_h,
            buffer_w: (region_w + (scale - 1)) / scale,
            buffer_h: (region_h + (scale - 1)) / scale,
            blur_radius: (radius + (scale - 1)) / scale,
        },
    )
}

/// The pairs of taps of a blur from the centre out: the first and the second,
/// the third and the fourth, and so on; the last stands alone where their
/// number is odd.
pub open spec fn tap_pairs(radius: int, k: int) -> Seq<(int, int)>
    decreases radius + 2 - k,
{
    if k > radius {
        Seq::empty()
    } else {
        seq![(k, lesser(k + 1, radius))] + tap_pairs(radius, k + 2)
    }
}

/// The views of taps.
pub open spec fn tap_views(v: Seq<(u32, u32)>) -> Seq<(int, int)> {
    v.map_values(|t: (u32, u32)| (t.0 as int, t.1 as int))
}

/// The pairs of taps of a blur from the centre out.
pub fn gaussian_taps(radius: u32) -> (out: Vec<(u32, u32)>)
    ensures
        tap_views(out@) == tap_pairs(lesser(radius as int, 64), 1),
{
    let r: u32 = if radius < 2 * MAX_GAUSSIAN_PAIRS {
        radius
    } else {
        2 * MAX_GAUSSIAN_PAIRS
    };
    let mut out: Vec<(u32, u32)> = Vec::new();
    let mut k: u32 = 1;
    assert(tap_views(out@) + tap_pairs(r as int, 1) =~= tap_pairs(r as int, 1));
    while k <= r
        invariant
            r <= 64,
            1 <= k <= r + 2,
            tap_views(out@) + tap_pairs(r as int, k as int) == tap_pairs(r as int, 1),
        decreases r + 2 - k,
    {
        let ghost before = tap_views(out@);
        let k1: u32 = if k + 1 < r {
            k + 1
        } else {
            r
        };
        out.push((k, k1));
        proof {
            let t = (k as int, k1 as int);
            let rest = tap_pairs(r as int, k + 2);
            assert(tap_views(out@) =~= before.push(t));
            assert(before + (seq![t] + rest) =~= before.push(t) + rest);
        }
        k = k + 2;
    }
    assert(tap_views(out@) + tap_pairs(r as int, k as int) =~= tap_views(out@));
    out
}

/// Every tap of a blur is in one of its pairs, and there are no more pairs than
/// a pass takes.
pub proof fn taps_are_all_there(radius: int, k: int, t: int)
    requires
        1 <= k <= radius + 2,
        radius <= 64,
        k % 2 == 1,
    ensures
        2 * tap_pairs(radius, k).len() <= radius + 2 - k,
        k <= t <= radius ==> exists|i: int|
            0 <= i < tap_pairs(radius, k).len() && ((#[trigger] tap_pairs(radius, k)[i]).0 == t
                || tap_pairs(radius, k)[i].1 == t),
    decreases radius + 2 - k,
{
    if k <= radius {
        taps_are_all_there(radius, k + 2, t);
        let p = tap_pairs(radius, k);
        let q = tap_pairs(radius, k + 2);
        if k <= t <= radius {
            if t <= k + 1 {
                assert(p[0].0 == t || p[0].1 == t);
            } else {
                let i = choose|i: int|
                    0 <= i < q.len() && ((#[trigger] q[i]).0 == t || q[i].1 == t);
                assert(p[i + 1] == q[i]);
            }
        }
    }
}

/// A surface is eight pixels wide and high at least.
pub fn surface_size(w: u32, h: u32) -> (r: (u32, u32))
    ensures
        r.0 == greater(w as int, 8),
        r.1 == greater(h as int, 8),
        r.0 >= w && r.1 >= h && r.0 >= 8 && r.1 >= 8,
        (r.0 == w || r.0 == 8) && (r.1 == h || r.1 == 8),
{
    (
        if w > 8 {
            w
        } else {
            8
        },
        if h > 8 {
            h
        } else {
            8
        },
    )
}

/// What to do about the answer to a frame that was handed over.
#[derive(Clone, Copy, Debug, PartialEq, Eq, Structural)]
pub enum Presented {
    Done,
    /// The queue was busy: the frame is handed over again later.
    Busy,
    Failed,
}

/// Whether a frame is to be handed over again, after what came of it.
pub fn pending_after(pending: bool, p: Presented) -> (r: bool)
    ensures
        r == match p {
            Presented::Done => false,
            Presented::Busy => true,
            Presented::Failed => pending,
        },
        p == Presented::Done ==> !r,
        p == Presented::Busy ==> r,
        p == Presented::Failed ==> r == pending,
{
    match p {
        Presented::Done => false,
        Presented::Busy => true,
        Presented::Failed => pending,
    }
}

/// The number of a property of the blur effect.
pub fn blur_property(name: &str) -> (r: Option<u32>)
    ensures
        r == if name@ == "BlurAmount"@ {
            Some(0u32)
        } else if name@ == "Optimization"@ {
            Some(1u32)
        } else if name@ == "BorderMode"@ {
            Some(2u32)
        } else {
            None
        },
{
    if is_text(name, "BlurAmount") {
        Some(0)
    } else if is_text(name, "Optimization") {
        Some(1)
    } else if is_text(name, "BorderMode") {
        Some(2)
    } else {
        None
    }
}

/// A number of parts is the least that suffices.
pub proof fn parts_just_suffice(n: int, d: int)
    requires
        n >= 0,
        d > 0,
    ensures
        parts(n, d) * d >= n,
        parts(n, d) * d < n + d,
        parts(n, d) >= 0,
{
    vstd::arithmetic::div_mod::lemma_fundamental_div_mod(n + d - 1, d);
    let p = parts(n, d);
    assert(p * d == d * p) by (nonlinear_arith);
    assert(p >= 0) by (nonlinear_arith)
        requires
            d * p > -d,
            d > 0,
    ;
}

/// What lies behind the glass is displaced by the refraction in full, or at the rim by that
/// and the rim's own part of it, whichever is more; but by no more than 45 hundredths of the
/// band, or a pixel where that is less. Stronger glass displaces no less, and the sign of the
/// refraction does not matter.
pub proof fn displacement_is_bounded(refraction: int, rim: int, band: int)
    ensures
        ({
            let r = displacement(refraction, rim, band);
            let a = if refraction < 0 {
                -refraction
            } else {
                refraction
            };
            let k = if 1000 + rim > 1000 {
                1000 + rim
            } else if -1000 - rim > 1000 {
                -1000 - rim
            } else {
                1000
            };
            &&& r <= a * k
            &&& r <= 450 * band || r <= 1_000_000
            &&& a * k <= 1_000_000 ==> r == a * k
            &&& a * k <= 450 * band ==> r == a * k
            &&& a * k > 450 * band && a * k > 1_000_000 ==> r >= 1_000_000 && r >= 450 * band
        }),
        displacement(-refraction, rim, band) == displacement(refraction, rim, band),
{
}

/// The margin of the frost is twelve pixels, the reach of the blur and the displacement,
/// rounded up to a pixel.
pub proof fn the_margin_covers_what_is_sampled(radius: int, displaced: int)
    requires
        radius >= 0,
        displaced >= 0,
    ensures
        (margin(radius, displaced) - radius - 12) * 1_000_000 >= displaced,
        (margin(radius, displaced) - radius - 12) * 1_000_000 < displaced + 1_000_000,
{
    parts_just_suffice(displaced, 1_000_000);
}

/// A blur reaches three times its sigma, rounded up to a pixel, but no further than 64.
pub proof fn a_blur_reaches_three_sigma(sigma: int)
    requires
        sigma >= 0,
    ensures
        blur_reach(sigma) <= 64,
        blur_reach(sigma) < 64 ==> blur_reach(sigma) * 1000 >= 3 * sigma,
        blur_reach(sigma) * 1000 < 3 * sigma + 1000,
        3 * sigma > 63_000 ==> blur_reach(sigma) == 64,
{
    parts_just_suffice(3 * sigma, 1000);
}

/// The region of the frost is the window with its margin on all sides. The buffers cover
/// it, at the scale of the frost, with less than a pixel of theirs to spare, and are blurred
/// as far.
pub proof fn frost_covers_the_window_and_its_margin(
    w: int,
    h: int,
    sigma: int,
    displaced: int,
    scale: int,
)
    requires
        0 <= w <= 0x20000,
        0 <= h <= 0x20000,
        0 <= sigma <= 1_000_000,
        0 <= displaced <= 0x1_0000_0000_0000,
        scale == 1 || scale == 2,
    ensures
        ({
            let f = frosted(w, h, sigma, displaced, scale);
            &&& f.region_w == w + f.margin + f.margin
            &&& f.region_h == h + f.margin + f.margin
            &&& f.region_w <= f.buffer_w * scale < f.region_w + scale
            &&& f.region_h <= f.buffer_h * scale < f.region_h + scale
            &&& f.radius <= f.blur_radius * scale < f.radius + scale
            &&& f.radius == blur_reach(sigma)
            &&& f.margin == margin(blur_reach(sigma), displaced)
            &&& f.margin >= f.radius + 12
        }),
{
    let radius = blur_reach(sigma);
    parts_just_suffice(3 * sigma, 1000);
    parts_just_suffice(displaced, 1_000_000);
    let m = margin(radius, displaced);
    parts_just_suffice(w + 2 * m, scale);
    parts_just_suffice(h + 2 * m, scale);
    parts_just_suffice(radius, scale);
}

/// The pairs of taps follow one another from the centre out: each tap is the next one, and
/// only the last may stand alone.
pub proof fn taps_follow_one_another(radius: int, k: int, i: int)
    requires
        1 <= k,
        0 <= i < tap_pairs(radius, k).len(),
    ensures
        tap_pairs(radius, k)[i].0 == k + 2 * i,
        k + 2 * i < radius ==> tap_pairs(radius, k)[i].1 == k + 2 * i + 1,
        k + 2 * i == radius ==> tap_pairs(radius, k)[i].1 == radius,
        k + 2 * i <= radius,
    decreases i,
{
    if i > 0 {
        assert(tap_pairs(radius, k)[i] == tap_pairs(radius, k + 2)[i - 1]);
        taps_follow_one_another(radius, k + 2, i - 1);
    }
}

} // verus!
