//! The shared color ramp.
//!
//! Every visual colors itself through [`ramp`], keyed primarily on height and
//! only secondarily on frequency. Height selects the position along the ramp,
//! and therefore luminance and alpha together; frequency only tilts red against
//! blue by a fixed small fraction.

use crate::color::{hex_byte, in_gamut, law_hex_bytes, mix, mixed, rgba, srgb_hex};
use crate::number::{
    blend, clamp, clamped, law_blend, law_fixed_keeps_order, lemma_blend_between,
    lemma_blend_monotone, lerp, Sample, ONE,
};
use crate::srgb::linear;
use vstd::prelude::*;

verus! {

/// Positions of the ramp stops.
pub const STOP_POS: [i64; 6] = [
    0,
    220_000_000,
    450_000_000,
    680_000_000,
    880_000_000,
    1_000_000_000,
];

/// Alpha at each stop: dim base, near-opaque tip.
pub const STOP_ALPHA: [i64; 6] = [
    350_000_000,
    500_000_000,
    680_000_000,
    820_000_000,
    950_000_000,
    980_000_000,
];

/// Deep violet through electric blue and teal to a warm white.
///
/// The top stop of every palette is an off-white, not a saturated hue: a
/// saturated accent would be darker than the stop below it and put a dark band
/// at the very top of the ramp.
pub const PALETTE_AURORA: [u32; 6] = [0x2A1258, 0x5E35B1, 0x2979FF, 0x1DE9B6, 0xDCF3FF, 0xFFF0E6];

/// Plum through ember and amber to a warm white.
pub const PALETTE_SUNSET: [u32; 6] = [0x3A1232, 0x8E2A5B, 0xE0533C, 0xFFA24A, 0xFFE6CC, 0xFFF3E8];

/// Deep water through ice blue to a warm white.
pub const PALETTE_GLACIAL: [u32; 6] = [0x0E2240, 0x1F5C94, 0x2F9BD6, 0x7FD8EE, 0xDDF4FF, 0xFFF4EC];

/// The selectable palettes.
#[derive(Clone, Copy, PartialEq, Eq, Structural, Debug)]
pub enum Palette {
    Aurora,
    Sunset,
    Glacial,
}

impl Palette {
    /// Hex colors of the palette's stops.
    pub open spec fn hexes(self) -> Seq<u32> {
        match self {
            Palette::Aurora => PALETTE_AURORA@,
            Palette::Sunset => PALETTE_SUNSET@,
            Palette::Glacial => PALETTE_GLACIAL@,
        }
    }

    /// The palette after this one.
    pub open spec fn succ(self) -> Palette {
        match self {
            Palette::Aurora => Palette::Sunset,
            Palette::Sunset => Palette::Glacial,
            Palette::Glacial => Palette::Aurora,
        }
    }

    /// The next palette in cycle order.
    pub fn next(self) -> (r: Palette)
        ensures
            r == self.succ(),
    {
        match self {
            Palette::Aurora => Palette::Sunset,
            Palette::Sunset => Palette::Glacial,
            Palette::Glacial => Palette::Aurora,
        }
    }

    /// Name shown in the HUD.
    pub open spec fn label(self) -> &'static str {
        match self {
            Palette::Aurora => "AURORA",
            Palette::Sunset => "SUNSET",
            Palette::Glacial => "GLACIAL",
        }
    }

    /// Name shown in the HUD.
    pub fn name(self) -> (r: &'static str)
        ensures
            r@ == self.label()@,
    {
        match self {
            Palette::Aurora => "AURORA",
            Palette::Sunset => "SUNSET",
            Palette::Glacial => "GLACIAL",
        }
    }
}

/// Cycling visits all three palettes and comes back to the first.
pub proof fn law_palette_cycle(p: Palette)
    ensures
        p.succ().succ().succ() == p,
        p.succ() != p,
        p.succ().succ() != p,
{
}

/// One ramp stop, decoded to linear light.
#[derive(Clone, Copy, PartialEq, Eq, Debug)]
pub struct Stop {
    pub pos: i64,
    pub rgb: [i64; 3],
    pub alpha: i64,
}

/// Stops a ramp can be sampled from: positions strictly rising from 0 to `ONE`,
/// colors and alphas in range.
pub open spec fn valid_stops(stops: Seq<Stop>) -> bool {
    &&& stops.len() >= 2
    &&& stops[0].pos == 0
    &&& stops.last().pos == ONE
    &&& forall|i: int, j: int| 0 <= i < j < stops.len() ==> stops[i].pos < stops[j].pos
    &&& forall|i: int|
        0 <= i < stops.len() ==> in_gamut((#[trigger] stops[i]).rgb@) && 0 <= stops[i].alpha <= ONE
}

/// The decoded stops of a palette.
pub open spec fn stops_of(palette: Palette, stops: Seq<Stop>) -> bool {
    &&& stops.len() == 6
    &&& forall|i: int|
        0 <= i < 6 ==> (#[trigger] stops[i]).pos == STOP_POS[i] && stops[i].alpha == STOP_ALPHA[i]
    &&& forall|i: int, k: int|
        0 <= i < 6 && 0 <= k < 3 ==> #[trigger] stops[i].rgb[k] == linear(
            hex_byte(palette.hexes()[i], k),
        )
}

/// Decode a palette's stops to linear light.
pub fn ramp_stops(palette: Palette) -> (stops: Vec<Stop>)
    ensures
        stops_of(palette, stops@),
        valid_stops(stops@),
{
    let mut stops: Vec<Stop> = Vec::with_capacity(6);
    let mut i: usize = 0;
    while i < 6
        invariant
            i <= 6,
            stops@.len() == i,
            forall|j: int|
                0 <= j < i ==> (#[trigger] stops@[j]).pos == STOP_POS[j] && stops@[j].alpha
                    == STOP_ALPHA[j] && in_gamut(stops@[j].rgb@),
            forall|j: int, k: int|
                0 <= j < i && 0 <= k < 3 ==> #[trigger] stops@[j].rgb[k] == linear(
                    hex_byte(palette.hexes()[j], k),
                ),
        decreases 6 - i,
    {
        let hex: u32 = match palette {
            Palette::Aurora => PALETTE_AURORA[i],
            Palette::Sunset => PALETTE_SUNSET[i],
            Palette::Glacial => PALETTE_GLACIAL[i],
        };
        stops.push(Stop { pos: STOP_POS[i], rgb: srgb_hex(hex), alpha: STOP_ALPHA[i] });
        i = i + 1;
    }
    stops
}

/// Height read from a float: limited to `0..=ONE`, zero when not finite.
pub open spec fn height_of(s: Sample) -> int {
    if s.finite() {
        clamped(s.fixed(), 0, ONE as int)
    } else {
        0
    }
}

/// Frequency read from a float: limited to `0..=ONE`, the middle when not finite.
pub open spec fn freq_of(s: Sample) -> int {
    if s.finite() {
        clamped(s.fixed(), 0, ONE as int)
    } else {
        500_000_000
    }
}

/// First segment from `i` on whose upper stop reaches `h`.
pub open spec fn segment_from(stops: Seq<Stop>, h: int, i: int) -> int
    decreases stops.len() - i,
{
    if i >= stops.len() - 2 || h <= stops[i + 1].pos {
        i
    } else {
        segment_from(stops, h, i + 1)
    }
}

/// The segment `h` falls in.
pub open spec fn segment(stops: Seq<Stop>, h: int) -> int {
    segment_from(stops, h, 0)
}

/// How far along its segment `h` lies, in `0..=ONE`.
pub open spec fn along(stops: Seq<Stop>, h: int) -> int {
    let i = segment(stops, h);
    let width = stops[i + 1].pos - stops[i].pos;
    clamped((h - stops[i].pos) * ONE / (if width < 1000 {
        1000
    } else {
        width
    }), 0, ONE as int)
}

/// Channel `k` at height `h`, before the tilt.
pub open spec fn base_channel(stops: Seq<Stop>, h: int, k: int) -> int {
    let i = segment(stops, h);
    mixed(stops[i].rgb, stops[i + 1].rgb, along(stops, h), k)
}

/// Alpha at height `h`.
pub open spec fn ramp_alpha(stops: Seq<Stop>, h: int) -> int {
    let i = segment(stops, h);
    blend(stops[i].alpha as int, stops[i + 1].alpha as int, along(stops, h))
}

/// Gain on channel `k` at frequency `f`, over `28 * ONE`: 25/28 in the middle,
/// red up to 28/28 at the top of the spectrum and down to 22/28 at the bottom,
/// blue the other way round.
pub open spec fn tilt(f: int, k: int) -> int {
    if k == 0 {
        25 * ONE + 3 * (2 * f - ONE)
    } else if k == 1 {
        25 * ONE as int
    } else {
        25 * ONE - 3 * (2 * f - ONE)
    }
}

/// Channel `k` of the ramp at height `h` and frequency `f`.
pub open spec fn ramp_channel(stops: Seq<Stop>, h: int, f: int, k: int) -> int {
    base_channel(stops, h, k) * tilt(f, k) / (28 * ONE)
}

/// The ramp at height `h` and frequency `f`.
pub open spec fn ramp_color(stops: Seq<Stop>, h: int, f: int) -> [i64; 4] {
    [
        ramp_channel(stops, h, f, 0) as i64,
        ramp_channel(stops, h, f, 1) as i64,
        ramp_channel(stops, h, f, 2) as i64,
        ramp_alpha(stops, h) as i64,
    ]
}

fn tilted(c: i64, gain: i64) -> (r: i64)
    requires
        0 <= c <= ONE,
        0 <= gain <= 28 * ONE,
    ensures
        r == c * gain / (28 * ONE),
        0 <= r <= c,
{
    proof {
        lemma_tilted(c as int, gain as int);
        assert(0 <= c * gain <= 1_000_000_000 * 28_000_000_000) by (nonlinear_arith)
            requires
                0 <= c <= 1_000_000_000,
                0 <= gain <= 28_000_000_000,
        ;
    }
    ((c as i128) * (gain as i128) / 28_000_000_000) as i64
}

proof fn lemma_tilted(c: int, gain: int)
    requires
        0 <= c,
        0 <= gain <= 28 * ONE,
    ensures
        0 <= c * gain / (28 * ONE) <= c,
{
    let d = 28_000_000_000int;
    assert(0 <= c * gain <= c * d) by (nonlinear_arith)
        requires
            0 <= c,
            0 <= gain <= d,
    ;
    vstd::arithmetic::div_mod::lemma_div_is_ordered(0, c * gain, d);
    vstd::arithmetic::div_mod::lemma_div_is_ordered(c * gain, c * d, d);
    vstd::arithmetic::div_mod::lemma_div_by_multiple(c, d);
}

proof fn lemma_segment_from(stops: Seq<Stop>, h: int, i: int)
    requires
        valid_stops(stops),
        0 <= i <= stops.len() - 2,
        0 <= h <= ONE,
        i == 0 || h > stops[i].pos,
    ensures
        i <= segment_from(stops, h, i) <= stops.len() - 2,
        stops[segment_from(stops, h, i)].pos <= h <= stops[segment_from(stops, h, i) + 1].pos,
    decreases stops.len() - i,
{
    if !(i >= stops.len() - 2 || h <= stops[i + 1].pos) {
        lemma_segment_from(stops, h, i + 1);
    }
}

/// Shared color for every visual.
///
/// `height_t` is 0 at rest and `ONE` at the tallest thing on screen; `freq_t` is
/// 0 at the lowest band and `ONE` at the highest. Both are limited, and
/// non-finite inputs fall back to the base and the middle, so the result is
/// always a color. The tilt is normalized so it only ever attenuates a channel.
pub fn ramp(stops: &[Stop], height_t: Sample, freq_t: Sample) -> (c: [i64; 4])
    requires
        valid_stops(stops@),
    ensures
        forall|k: int|
            0 <= k < 3 ==> #[trigger] c[k] == ramp_channel(
                stops@,
                height_of(height_t),
                freq_of(freq_t),
                k,
            ),
        c[3] == ramp_alpha(stops@, height_of(height_t)),
        c == ramp_color(stops@, height_of(height_t), freq_of(freq_t)),
        in_gamut(c@),
        forall|k: int|
            0 <= k < 3 ==> #[trigger] c[k] <= base_channel(stops@, height_of(height_t), k),
{
    let h: i64 = if height_t.is_finite() {
        clamp(height_t.to_fixed(), 0, ONE)
    } else {
        0
    };
    let f: i64 = if freq_t.is_finite() {
        clamp(freq_t.to_fixed(), 0, ONE)
    } else {
        500_000_000
    };
    ramp_at(stops, h, f)
}

/// [`ramp`] for a height and a frequency already in `0..=ONE`.
pub fn ramp_at(stops: &[Stop], h: i64, f: i64) -> (c: [i64; 4])
    requires
        valid_stops(stops@),
        0 <= h <= ONE,
        0 <= f <= ONE,
    ensures
        c == ramp_color(stops@, h as int, f as int),
        forall|k: int|
            0 <= k < 3 ==> #[trigger] c[k] == ramp_channel(stops@, h as int, f as int, k),
        c[3] == ramp_alpha(stops@, h as int),
        in_gamut(c@),
        forall|k: int| 0 <= k < 3 ==> #[trigger] c[k] <= base_channel(stops@, h as int, k),
{
    let n: usize = stops.len();
    let mut i: usize = 0;
    while i < n - 2 && h > stops[i + 1].pos
        invariant
            valid_stops(stops@),
            n == stops@.len() >= 2,
            i <= n - 2,
            segment(stops@, h as int) == segment_from(stops@, h as int, i as int),
            0 <= h <= ONE,
        decreases n - i,
    {
        i = i + 1;
    }
    proof {
        lemma_segment_from(stops@, h as int, 0);
        assert(segment(stops@, h as int) == i);
        assert(in_gamut(stops@[i as int].rgb@));
        assert(in_gamut(stops@[i + 1].rgb@));
        assert(stops@[i as int].pos >= 0) by {
            if i > 0 {
                assert(stops@[0].pos < stops@[i as int].pos);
            }
        }
        assert(stops@[i + 1].pos <= ONE) by {
            if i + 1 < n - 1 {
                assert(stops@[i + 1].pos < stops@[n - 1].pos);
            }
        }
    }
    let (s0, s1): (Stop, Stop) = (stops[i], stops[i + 1]);
    let width: i64 = s1.pos - s0.pos;
    let span: i64 = if width < 1000 {
        1000
    } else {
        width
    };
    let t: i64 = clamp((h - s0.pos) * ONE / span, 0, ONE);
    let rgb: [i64; 3] = mix(s0.rgb, s1.rgb, t);
    assert(in_gamut(rgb@));
    assert(0 <= rgb[0] <= ONE && 0 <= rgb[1] <= ONE && 0 <= rgb[2] <= ONE);
    let alpha: i64 = lerp(s0.alpha, s1.alpha, t);
    let warm: i64 = 3 * (2 * f - ONE);
    let out: [i64; 3] = [
        tilted(rgb[0], 25 * ONE + warm),
        tilted(rgb[1], 25 * ONE),
        tilted(rgb[2], 25 * ONE - warm),
    ];
    let c: [i64; 4] = rgba(out, alpha);
    assert(c@ =~= ramp_color(stops@, h as int, f as int)@);
    c
}

/// Alphas that never fall from one stop to the next.
pub open spec fn alpha_rising(stops: Seq<Stop>) -> bool {
    forall|i: int, j: int| 0 <= i <= j < stops.len() ==> stops[i].alpha <= stops[j].alpha
}

/// Every palette's alpha rises with height.
pub proof fn law_alpha_rising(palette: Palette, stops: Seq<Stop>)
    requires
        stops_of(palette, stops),
    ensures
        alpha_rising(stops),
{
}

proof fn lemma_segment_order(stops: Seq<Stop>, g: int, h: int)
    requires
        valid_stops(stops),
        0 <= g <= h <= ONE,
    ensures
        0 <= segment(stops, g) <= segment(stops, h) <= stops.len() - 2,
        stops[segment(stops, g)].pos <= g <= stops[segment(stops, g) + 1].pos,
        stops[segment(stops, h)].pos <= h <= stops[segment(stops, h) + 1].pos,
{
    lemma_segment_from(stops, g, 0);
    lemma_segment_from(stops, h, 0);
    lemma_segment_step(stops, g, h, 0);
}

proof fn lemma_segment_step(stops: Seq<Stop>, g: int, h: int, i: int)
    requires
        g <= h,
        0 <= i,
    ensures
        segment_from(stops, g, i) <= segment_from(stops, h, i),
        segment_from(stops, h, i) >= i,
    decreases stops.len() - i,
{
    if !(i >= stops.len() - 2 || g <= stops[i + 1].pos) {
        lemma_segment_step(stops, g, h, i + 1);
    } else if !(i >= stops.len() - 2 || h <= stops[i + 1].pos) {
        lemma_segment_step(stops, h, h, i + 1);
    }
}

/// Within one segment the position along it grows with height.
proof fn lemma_along(stops: Seq<Stop>, g: int, h: int)
    requires
        valid_stops(stops),
        0 <= g <= h <= ONE,
        segment(stops, g) == segment(stops, h),
    ensures
        0 <= along(stops, g) <= along(stops, h) <= ONE,
{
    lemma_segment_order(stops, g, h);
    let i = segment(stops, g);
    let width = stops[i + 1].pos - stops[i].pos;
    let span = if width < 1000 {
        1000
    } else {
        width
    };
    vstd::arithmetic::div_mod::lemma_div_is_ordered(
        (g - stops[i].pos) * ONE,
        (h - stops[i].pos) * ONE,
        span,
    );
}

/// Alpha is carried by height: a taller thing is never more transparent.
pub proof fn law_alpha_monotone(stops: Seq<Stop>, g: int, h: int)
    requires
        valid_stops(stops),
        alpha_rising(stops),
        0 <= g <= h <= ONE,
    ensures
        ramp_alpha(stops, g) <= ramp_alpha(stops, h),
{
    lemma_segment_order(stops, g, h);
    lemma_along(stops, g, g);
    lemma_along(stops, h, h);
    let i = segment(stops, g);
    let j = segment(stops, h);
    let (a, b) = (stops[i].alpha as int, stops[i + 1].alpha as int);
    let (c, d) = (stops[j].alpha as int, stops[j + 1].alpha as int);
    lemma_blend_between(a, b, along(stops, g));
    lemma_blend_between(c, d, along(stops, h));
    if i == j {
        lemma_along(stops, g, h);
        lemma_blend_monotone(a, b, along(stops, g), along(stops, h));
    }
}

/// Relative luminance of a linear color, in ten-thousandths.
pub open spec fn luminance(r: int, g: int, b: int) -> int {
    2126 * r + 7152 * g + 722 * b
}

/// Luminance of a stop after the tilt at frequency `f`, scaled by `28 * ONE`.
pub open spec fn stop_luminance(s: Stop, f: int) -> int {
    luminance(s.rgb[0] * tilt(f, 0), s.rgb[1] * tilt(f, 1), s.rgb[2] * tilt(f, 2))
}

/// Stops that never darken from one to the next, at frequency `f`.
pub open spec fn brightening(stops: Seq<Stop>, f: int) -> bool {
    forall|i: int, j: int|
        0 <= i <= j < stops.len() ==> stop_luminance(stops[i], f) <= stop_luminance(stops[j], f)
}

/// Luminance of the ramp.
pub open spec fn ramp_luminance(stops: Seq<Stop>, h: int, f: int) -> int {
    luminance(
        ramp_channel(stops, h, f, 0),
        ramp_channel(stops, h, f, 1),
        ramp_channel(stops, h, f, 2),
    )
}

/// Luminance of the exact mix at `t`, scaled by `28 * ONE * ONE`.
spec fn exact_luminance(s0: Stop, s1: Stop, t: int, f: int) -> int {
    stop_luminance(s0, f) * (ONE - t) + stop_luminance(s1, f) * t
}

/// One channel: the two roundings lose less than two units.
proof fn lemma_channel_loss(a: int, b: int, t: int, v: int)
    requires
        0 <= a <= ONE,
        0 <= b <= ONE,
        0 <= t <= ONE,
        0 <= v <= 28 * ONE,
    ensures
        ({
            let y = blend(a, b, t) * v / (28 * ONE);
            let exact = (a * v) * (ONE - t) + (b * v) * t;
            28_000_000_000_000_000_000 * y <= exact <= 28_000_000_000_000_000_000 * (y + 2)
        }),
{
    let n = a * (ONE - t) + b * t;
    let x = n / (ONE as int);
    let p = x * v;
    let y = p / (28 * ONE);
    let one = 1_000_000_000int;
    assert(one * x <= n <= one * x + one - 1);
    let d = 28_000_000_000int;
    vstd::arithmetic::div_mod::lemma_fundamental_div_mod(p, d);
    vstd::arithmetic::div_mod::lemma_mod_bound(p, d);
    let q = n * v;
    assert(q == (a * v) * (one - t) + (b * v) * t) by (nonlinear_arith)
        requires
            q == n * v,
            n == a * (one - t) + b * t,
    ;
    assert(one * p <= q <= one * p + (one - 1) * v) by (nonlinear_arith)
        requires
            q == n * v,
            p == x * v,
            one * x <= n <= one * x + one - 1,
            0 <= v,
    ;
}

proof fn lemma_exact(s0: Stop, s1: Stop, t: int, f: int)
    ensures
        exact_luminance(s0, s1, t, f) == luminance(
            (s0.rgb[0] * tilt(f, 0)) * (ONE - t) + (s1.rgb[0] * tilt(f, 0)) * t,
            (s0.rgb[1] * tilt(f, 1)) * (ONE - t) + (s1.rgb[1] * tilt(f, 1)) * t,
            (s0.rgb[2] * tilt(f, 2)) * (ONE - t) + (s1.rgb[2] * tilt(f, 2)) * t,
        ),
{
    let (a, b, c) = (s0.rgb[0] * tilt(f, 0), s0.rgb[1] * tilt(f, 1), s0.rgb[2] * tilt(f, 2));
    let (x, y, z) = (s1.rgb[0] * tilt(f, 0), s1.rgb[1] * tilt(f, 1), s1.rgb[2] * tilt(f, 2));
    let u = ONE - t;
    assert((2126 * a + 7152 * b + 722 * c) * u + (2126 * x + 7152 * y + 722 * z) * t == 2126 * (a
        * u + x * t) + 7152 * (b * u + y * t) + 722 * (c * u + z * t)) by (nonlinear_arith);
}

/// The computed luminance lies within 20 000 ten-thousandths of a billionth
/// below the exact one.
proof fn lemma_luminance_loss(stops: Seq<Stop>, h: int, f: int)
    requires
        valid_stops(stops),
        0 <= h <= ONE,
        0 <= f <= ONE,
    ensures
        ({
            let i = segment(stops, h);
            let exact = exact_luminance(stops[i], stops[i + 1], along(stops, h), f);
            let seen = ramp_luminance(stops, h, f);
            28_000_000_000_000_000_000 * seen <= exact <= 28_000_000_000_000_000_000 * (seen
                + 20_000)
        }),
{
    lemma_segment_from(stops, h, 0);
    lemma_along(stops, h, h);
    let i = segment(stops, h);
    let t = along(stops, h);
    let (s0, s1) = (stops[i], stops[i + 1]);
    assert(in_gamut(s0.rgb@) && in_gamut(s1.rgb@));
    assert(0 <= s0.rgb@[0] <= ONE && 0 <= s0.rgb@[1] <= ONE && 0 <= s0.rgb@[2] <= ONE);
    assert(0 <= s1.rgb@[0] <= ONE && 0 <= s1.rgb@[1] <= ONE && 0 <= s1.rgb@[2] <= ONE);
    lemma_channel_loss(s0.rgb[0] as int, s1.rgb[0] as int, t, tilt(f, 0));
    lemma_channel_loss(s0.rgb[1] as int, s1.rgb[1] as int, t, tilt(f, 1));
    lemma_channel_loss(s0.rgb[2] as int, s1.rgb[2] as int, t, tilt(f, 2));
    lemma_exact(s0, s1, t, f);
}

/// Luminance is carried by height: where the stops themselves brighten, a
/// taller thing is never darker, to within two billionths of rounding.
pub proof fn law_luminance_monotone(stops: Seq<Stop>, g: int, h: int, f: int)
    requires
        valid_stops(stops),
        brightening(stops, f),
        0 <= g <= h <= ONE,
        0 <= f <= ONE,
    ensures
        ramp_luminance(stops, g, f) <= ramp_luminance(stops, h, f) + 20_000,
{
    lemma_segment_order(stops, g, h);
    lemma_luminance_loss(stops, g, f);
    lemma_luminance_loss(stops, h, f);
    lemma_along(stops, g, g);
    lemma_along(stops, h, h);
    let (i, j) = (segment(stops, g), segment(stops, h));
    let (s, t) = (along(stops, g), along(stops, h));
    let (a, b) = (stop_luminance(stops[i], f), stop_luminance(stops[i + 1], f));
    let (c, d) = (stop_luminance(stops[j], f), stop_luminance(stops[j + 1], f));
    let one = 1_000_000_000int;
    if i == j {
        lemma_along(stops, g, h);
        assert(a * (one - s) + b * s <= a * (one - t) + b * t) by (nonlinear_arith)
            requires
                a <= b,
                s <= t,
        ;
    } else {
        assert(b <= c);
        assert(a * (one - s) + b * s <= b * one) by (nonlinear_arith)
            requires
                a <= b,
                s <= one,
        ;
        assert(c * one <= c * (one - t) + d * t) by (nonlinear_arith)
            requires
                c <= d,
                0 <= t,
        ;
    }
}

/// The whole color is brighter at the top of the ramp than at its base only by
/// height: the tilt changes no channel by more than 6/28 of it.
pub proof fn law_frequency_only_modulates(stops: Seq<Stop>, h: int, e: int, f: int, k: int)
    requires
        valid_stops(stops),
        0 <= h <= ONE,
        0 <= e <= ONE,
        0 <= f <= ONE,
        0 <= k < 3,
    ensures
        28 * (ramp_channel(stops, h, e, k) - ramp_channel(stops, h, f, k)) <= 6 * base_channel(
            stops,
            h,
            k,
        ) + 28,
        k == 1 ==> ramp_channel(stops, h, e, k) == ramp_channel(stops, h, f, k),
{
    lemma_segment_from(stops, h, 0);
    lemma_along(stops, h, h);
    let i = segment(stops, h);
    assert(in_gamut(stops[i].rgb@) && in_gamut(stops[i + 1].rgb@));
    assert(0 <= stops[i].rgb@[k] <= ONE && 0 <= stops[i + 1].rgb@[k] <= ONE);
    lemma_blend_between(stops[i].rgb[k] as int, stops[i + 1].rgb[k] as int, along(stops, h));
    let c = base_channel(stops, h, k);
    let (p, q) = (c * tilt(e, k), c * tilt(f, k));
    let d = 28_000_000_000int;
    vstd::arithmetic::div_mod::lemma_fundamental_div_mod(p, d);
    vstd::arithmetic::div_mod::lemma_mod_bound(p, d);
    vstd::arithmetic::div_mod::lemma_fundamental_div_mod(q, d);
    vstd::arithmetic::div_mod::lemma_mod_bound(q, d);
    assert(p - q <= 6_000_000_000 * c) by (nonlinear_arith)
        requires
            p == c * tilt(e, k),
            q == c * tilt(f, k),
            tilt(e, k) - tilt(f, k) <= 6_000_000_000,
            0 <= c,
    ;
}

/// The light of a stop's three channels.
spec fn has_rgb(s: Stop, r: int, g: int, b: int) -> bool {
    s.rgb[0] == r && s.rgb[1] == g && s.rgb[2] == b
}

/// Luminance of a stop, as a linear function of frequency.
proof fn lemma_stop_luminance(s: Stop, f: int, r: int, g: int, b: int)
    requires
        has_rgb(s, r, g, b),
    ensures
        stop_luminance(s, f) == 2126 * (22_000_000_000 * r + 6 * (r * f)) + 7152 * (25_000_000_000
            * g) + 722 * (28_000_000_000 * b - 6 * (b * f)),
{
    assert(r * (25_000_000_000 + 3 * (2 * f - 1_000_000_000)) == 22_000_000_000 * r + 6 * (r * f))
        by (nonlinear_arith);
    assert(g * 25_000_000_000 == 25_000_000_000 * g) by (nonlinear_arith);
    assert(tilt(f, 0) == 25_000_000_000 + 3 * (2 * f - 1_000_000_000));
    assert(tilt(f, 1) == 25_000_000_000);
    assert(tilt(f, 2) == 25_000_000_000 - 3 * (2 * f - 1_000_000_000));
    assert(b * (25_000_000_000 - 3 * (2 * f - 1_000_000_000)) == 28_000_000_000 * b - 6 * (b * f))
        by (nonlinear_arith);
}

/// Stop `i` of a palette decodes to the given light, and its luminance is a
/// linear function of frequency.
proof fn lemma_stop(
    palette: Palette,
    stops: Seq<Stop>,
    i: int,
    hex: u32,
    f: int,
    r: int,
    g: int,
    b: int,
)
    requires
        stops_of(palette, stops),
        0 <= i < 6,
        palette.hexes()[i] == hex,
        linear(hex_byte(hex, 0)) == r,
        linear(hex_byte(hex, 1)) == g,
        linear(hex_byte(hex, 2)) == b,
    ensures
        has_rgb(stops[i], r, g, b),
        stop_luminance(stops[i], f) == 2126 * (22_000_000_000 * r + 6 * (r * f)) + 7152 * (
        25_000_000_000 * g) + 722 * (28_000_000_000 * b - 6 * (b * f)),
{
    assert(stops[i].rgb[0] == r && stops[i].rgb[1] == g && stops[i].rgb[2] == b);
    lemma_stop_luminance(stops[i], f, r, g, b);
}

proof fn lemma_aurora(stops: Seq<Stop>, f: int)
    requires
        stops_of(Palette::Aurora, stops),
        0 <= f <= ONE,
    ensures
        has_rgb(stops[0], 23_153_366, 6_048_833, 97_587_347),
        has_rgb(stops[5], 1_000_000_000, 871_367_119, 791_297_940),
        forall|i: int|
            0 <= i < 5 ==> stop_luminance(#[trigger] stops[i], f) <= stop_luminance(
                stops[i + 1],
                f,
            ),
{
    let p = Palette::Aurora;
    lemma_stop(p, stops, 0, 0x2a1258, f, 23_153_366, 6_048_833, 97_587_347);
    lemma_stop(p, stops, 1, 0x5e35b1, f, 111_932_427, 35_601_314, 439_657_173);
    lemma_stop(p, stops, 2, 0x2979ff, f, 22_173_884, 191_201_682, 1_000_000_000);
    lemma_stop(p, stops, 3, 0x1de9b6, f, 12_286_488, 814_846_572, 467_783_796);
    lemma_stop(p, stops, 4, 0xdcf3ff, f, 715_693_500, 896_269_353, 1_000_000_000);
    lemma_stop(p, stops, 5, 0xfff0e6, f, 1_000_000_000, 871_367_119, 791_297_940);
}

proof fn lemma_sunset(stops: Seq<Stop>, f: int)
    requires
        stops_of(Palette::Sunset, stops),
        0 <= f <= ONE,
    ensures
        has_rgb(stops[0], 42_311_410, 6_048_833, 31_896_033),
        has_rgb(stops[5], 1_000_000_000, 896_269_353, 806_952_257),
        forall|i: int|
            0 <= i < 5 ==> stop_luminance(#[trigger] stops[i], f) <= stop_luminance(
                stops[i + 1],
                f,
            ),
{
    let p = Palette::Sunset;
    lemma_stop(p, stops, 0, 0x3a1232, f, 42_311_410, 6_048_833, 31_896_033);
    lemma_stop(p, stops, 1, 0x8e2a5b, f, 270_497_791, 23_153_366, 104_616_484);
    lemma_stop(p, stops, 2, 0xe0533c, f, 745_404_209, 86_500_462, 45_186_204);
    lemma_stop(p, stops, 3, 0xffa24a, f, 1_000_000_000, 361_306_779, 68_478_169);
    lemma_stop(p, stops, 4, 0xffe6cc, f, 1_000_000_000, 791_297_940, 603_827_338);
    lemma_stop(p, stops, 5, 0xfff3e8, f, 1_000_000_000, 896_269_353, 806_952_257);
}

proof fn lemma_glacial(stops: Seq<Stop>, f: int)
    requires
        stops_of(Palette::Glacial, stops),
        0 <= f <= ONE,
    ensures
        has_rgb(stops[0], 4_391_442, 15_996_293, 51_269_458),
        has_rgb(stops[5], 1_000_000_000, 904_661_174, 838_799_011),
        forall|i: int|
            0 <= i < 5 ==> stop_luminance(#[trigger] stops[i], f) <= stop_luminance(
                stops[i + 1],
                f,
            ),
{
    let p = Palette::Glacial;
    lemma_stop(p, stops, 0, 0x0e2240, f, 4_391_442, 15_996_293, 51_269_458);
    lemma_stop(p, stops, 1, 0x1f5c94, f, 13_702_083, 107_023_102, 296_138_270);
    lemma_stop(p, stops, 2, 0x2f9bd6, f, 28_426_039, 327_778_098, 672_443_156);
    lemma_stop(p, stops, 3, 0x7fd8ee, f, 212_230_757, 686_685_312, 854_992_608);
    lemma_stop(p, stops, 4, 0xddf4ff, f, 723_055_128, 904_661_174, 1_000_000_000);
    lemma_stop(p, stops, 5, 0xfff4ec, f, 1_000_000_000, 904_661_174, 838_799_011);
}

/// No palette has a dark band: every stop is at least as bright as the one
/// below it, at every frequency.
pub proof fn law_palettes_brighten(palette: Palette, stops: Seq<Stop>, f: int)
    requires
        stops_of(palette, stops),
        0 <= f <= ONE,
    ensures
        brightening(stops, f),
{
    match palette {
        Palette::Aurora => lemma_aurora(stops, f),
        Palette::Sunset => lemma_sunset(stops, f),
        Palette::Glacial => lemma_glacial(stops, f),
    }
    assert forall|i: int, j: int| 0 <= i <= j < stops.len() implies stop_luminance(stops[i], f)
        <= stop_luminance(stops[j], f) by {
        lemma_chain(stops, f, i, j);
    }
}

/// Frequency only modulates: between the ends of the spectrum the luminance of
/// the ramp changes by at most three tenths of what it is in the middle, at any
/// height, up to a thousandth of a percent of rounding.
pub proof fn law_luminance_modulated(stops: Seq<Stop>, h: int)
    requires
        valid_stops(stops),
        0 <= h <= ONE,
    ensures
        ({
            let change = ramp_luminance(stops, h, ONE as int) - ramp_luminance(stops, h, 0);
            let middle = ramp_luminance(stops, h, 500_000_000);
            -(3 * middle + 100_000) <= 10 * change <= 3 * middle + 100_000
        }),
{
    lemma_segment_from(stops, h, 0);
    lemma_along(stops, h, h);
    let i = segment(stops, h);
    let t = along(stops, h);
    assert(in_gamut(stops[i].rgb@) && in_gamut(stops[i + 1].rgb@));
    assert forall|k: int| 0 <= k < 3 implies 0 <= #[trigger] base_channel(stops, h, k) by {
        assert(0 <= stops[i].rgb@[k] <= ONE && 0 <= stops[i + 1].rgb@[k] <= ONE);
        lemma_blend_between(stops[i].rgb[k] as int, stops[i + 1].rgb[k] as int, t);
    }
    lemma_tilt_ends(base_channel(stops, h, 0));
    lemma_tilt_ends(base_channel(stops, h, 1));
    lemma_tilt_ends(base_channel(stops, h, 2));
    assert(tilt(ONE as int, 0) == 28_000_000_000 && tilt(0, 0) == 22_000_000_000);
    assert(tilt(ONE as int, 2) == 22_000_000_000 && tilt(0, 2) == 28_000_000_000);
    assert(tilt(500_000_000, 0) == 25_000_000_000 && tilt(500_000_000, 2) == 25_000_000_000);
}

/// The tilts at the ends and in the middle, on one channel.
proof fn lemma_tilt_ends(c: int)
    requires
        0 <= c,
    ensures
        c * 28_000_000_000 / (28 * ONE) == c,
        22 * c - 28 <= 28 * (c * 22_000_000_000 / (28 * ONE)) <= 22 * c,
        25 * c - 28 <= 28 * (c * 25_000_000_000 / (28 * ONE)) <= 25 * c,
{
}

/// The tip of the ramp outshines its base: near-opaque over dim, and more than
/// twenty times as bright, in every palette.
pub proof fn law_tip_outshines_base(palette: Palette, stops: Seq<Stop>)
    requires
        stops_of(palette, stops),
        valid_stops(stops),
    ensures
        ramp_alpha(stops, 0) < 400_000_000,
        ramp_alpha(stops, ONE as int) > 900_000_000,
        ramp_luminance(stops, ONE as int, 500_000_000) > 20 * ramp_luminance(
            stops,
            0,
            500_000_000,
        ),
{
    match palette {
        Palette::Aurora => lemma_aurora(stops, 0),
        Palette::Sunset => lemma_sunset(stops, 0),
        Palette::Glacial => lemma_glacial(stops, 0),
    }
    let top = ONE as int;
    lemma_segment_from(stops, 0, 0);
    lemma_segment_from(stops, top, 0);
    let (i, j) = (segment(stops, 0), segment(stops, top));
    assert(stops[0].pos < stops[1].pos);
    assert(i == 0);
    if j < 4 {
        assert(stops[j + 1].pos < stops[5].pos);
    }
    assert(j == 4);
    let w = stops[5].pos - stops[4].pos;
    assert(stops[4].pos == STOP_POS[4] && stops[5].pos == STOP_POS[5]);
    assert(stops[0].pos == STOP_POS[0] && stops[1].pos == STOP_POS[1]);
    assert(along(stops, 0) == 0);
    assert(w >= 1000 && w * ONE / w == ONE) by (nonlinear_arith)
        requires
            w >= 1000,
    ;
    assert((top - stops[4].pos) * ONE / w == ONE);
    assert(along(stops, top) == ONE);
    assert(stops[0].alpha == STOP_ALPHA[0] && stops[5].alpha == STOP_ALPHA[5]);
    lemma_blend_between(stops[0].alpha as int, stops[1].alpha as int, 0);
    lemma_blend_between(stops[4].alpha as int, stops[5].alpha as int, top);
    assert forall|k: int| 0 <= k < 3 implies #[trigger] base_channel(stops, 0, k)
        == stops[0].rgb[k] by {
        lemma_blend_between(stops[0].rgb[k] as int, stops[1].rgb[k] as int, 0);
    }
    assert forall|k: int| 0 <= k < 3 implies #[trigger] base_channel(stops, top, k)
        == stops[5].rgb[k] by {
        lemma_blend_between(stops[4].rgb[k] as int, stops[5].rgb[k] as int, top);
    }
    lemma_tilt_ends(base_channel(stops, 0, 0));
    lemma_tilt_ends(base_channel(stops, 0, 1));
    lemma_tilt_ends(base_channel(stops, 0, 2));
    lemma_tilt_ends(base_channel(stops, top, 0));
    lemma_tilt_ends(base_channel(stops, top, 1));
    lemma_tilt_ends(base_channel(stops, top, 2));
    assert(tilt(500_000_000, 0) == 25_000_000_000 && tilt(500_000_000, 1) == 25_000_000_000
        && tilt(500_000_000, 2) == 25_000_000_000);
}

proof fn lemma_chain(stops: Seq<Stop>, f: int, i: int, j: int)
    requires
        stops.len() == 6,
        0 <= i <= j < 6,
        forall|i: int|
            0 <= i < 5 ==> stop_luminance(#[trigger] stops[i], f) <= stop_luminance(
                stops[i + 1],
                f,
            ),
    ensures
        stop_luminance(stops[i], f) <= stop_luminance(stops[j], f),
    decreases j - i,
{
    if i < j {
        lemma_chain(stops, f, i, j - 1);
        assert(stop_luminance(stops[j - 1], f) <= stop_luminance(stops[j - 1 + 1], f));
    }
}

/// Luminance of a color.
pub open spec fn color_luminance(c: [i64; 4]) -> int {
    luminance(c[0] as int, c[1] as int, c[2] as int)
}

/// What [`ramp`] returns.
pub open spec fn ramp_of(stops: Seq<Stop>, height_t: Sample, freq_t: Sample) -> [i64; 4] {
    ramp_color(stops, height_of(height_t), freq_of(freq_t))
}

proof fn lemma_ramp_color(stops: Seq<Stop>, h: int, f: int)
    requires
        valid_stops(stops),
        0 <= h <= ONE,
        0 <= f <= ONE,
    ensures
        color_luminance(ramp_color(stops, h, f)) == ramp_luminance(stops, h, f),
        ramp_color(stops, h, f)[3] == ramp_alpha(stops, h),
{
    lemma_segment_from(stops, h, 0);
    lemma_along(stops, h, h);
    let i = segment(stops, h);
    let t = along(stops, h);
    let (s0, s1) = (stops[i], stops[i + 1]);
    assert(in_gamut(s0.rgb@) && in_gamut(s1.rgb@));
    assert(0 <= s0.rgb@[0] <= ONE && 0 <= s0.rgb@[1] <= ONE && 0 <= s0.rgb@[2] <= ONE);
    assert(0 <= s1.rgb@[0] <= ONE && 0 <= s1.rgb@[1] <= ONE && 0 <= s1.rgb@[2] <= ONE);
    assert forall|k: int| 0 <= k < 3 implies 0 <= #[trigger] ramp_channel(stops, h, f, k)
        <= ONE by {
        lemma_blend_between(s0.rgb[k] as int, s1.rgb[k] as int, t);
        lemma_tilted(base_channel(stops, h, k), tilt(f, k));
    }
    assert(0 <= ramp_channel(stops, h, f, 0) <= ONE && 0 <= ramp_channel(stops, h, f, 1) <= ONE
        && 0 <= ramp_channel(stops, h, f, 2) <= ONE);
    lemma_blend_between(s0.alpha as int, s1.alpha as int, t);
}

/// No palette has a dark band anywhere: of two finite heights, in range or not,
/// the larger one is never drawn darker, to within two billionths, nor more
/// transparent, at any frequency.
pub proof fn law_ramp_rises(palette: Palette, stops: Seq<Stop>, g: Sample, h: Sample, f: Sample)
    requires
        stops_of(palette, stops),
        valid_stops(stops),
        g.finite(),
        h.finite(),
        g.rank() <= h.rank(),
    ensures
        color_luminance(ramp_of(stops, g, f)) <= color_luminance(ramp_of(stops, h, f)) + 20_000,
        ramp_of(stops, g, f)[3] <= ramp_of(stops, h, f)[3],
{
    law_fixed_keeps_order(g, h);
    let (a, b, c) = (height_of(g), height_of(h), freq_of(f));
    lemma_ramp_color(stops, a, c);
    lemma_ramp_color(stops, b, c);
    law_palettes_brighten(palette, stops, c);
    law_luminance_monotone(stops, a, b, c);
    law_alpha_rising(palette, stops);
    law_alpha_monotone(stops, a, b);
}

/// The ramp leads from a dim base to a bright tip, in the middle of the spectrum,
/// in every palette.
pub proof fn law_ramp_ends(
    palette: Palette,
    stops: Seq<Stop>,
    base: Sample,
    tip: Sample,
    middle: Sample,
)
    requires
        stops_of(palette, stops),
        valid_stops(stops),
        height_of(base) == 0,
        height_of(tip) == ONE,
        freq_of(middle) == 500_000_000,
    ensures
        ramp_of(stops, base, middle)[3] < 400_000_000,
        ramp_of(stops, tip, middle)[3] > 900_000_000,
        color_luminance(ramp_of(stops, tip, middle)) > 20 * color_luminance(
            ramp_of(stops, base, middle),
        ),
{
    lemma_ramp_color(stops, 0, 500_000_000);
    lemma_ramp_color(stops, ONE as int, 500_000_000);
    law_tip_outshines_base(palette, stops);
}

/// Frequency only modulates what the ramp returns: from the bottom of the spectrum
/// to its top the luminance changes by at most three tenths of what it is in the
/// middle, and a hundred-thousandth of rounding at most.
pub proof fn law_ramp_modulated(
    stops: Seq<Stop>,
    h: Sample,
    bottom: Sample,
    middle: Sample,
    top: Sample,
)
    requires
        valid_stops(stops),
        freq_of(bottom) == 0,
        freq_of(middle) == 500_000_000,
        freq_of(top) == ONE,
    ensures
        ({
            let change = color_luminance(ramp_of(stops, h, top)) - color_luminance(
                ramp_of(stops, h, bottom),
            );
            let bound = 3 * color_luminance(ramp_of(stops, h, middle)) + 100_000;
            -bound <= 10 * change <= bound
        }),
{
    let a = height_of(h);
    lemma_ramp_color(stops, a, 0);
    lemma_ramp_color(stops, a, 500_000_000);
    lemma_ramp_color(stops, a, ONE as int);
    law_luminance_modulated(stops, a);
}

// -- what a ramp looks like ---------------------------------------------------
/// Between two neighboring stops the ramp is their mixture, in proportion to the
/// height between them. Returns the lower of the stops and the share of the upper.
pub proof fn law_ramp_between_stops(stops: Seq<Stop>, h: int, k: int) -> (r: (int, int))
    requires
        valid_stops(stops),
        0 <= h <= 1_000_000_000,
        0 <= k < 3,
    ensures
        ({
            let (i, t) = r;
            let (low, high) = (stops[i], stops[i + 1]);
            let gap = high.pos - low.pos;
            let channel = base_channel(stops, h, k);
            let alpha = ramp_alpha(stops, h);
            &&& 0 <= i < stops.len() - 1
            &&& low.pos <= h <= high.pos
            &&& 0 <= t <= 1_000_000_000
            &&& gap >= 1000 ==> 0 <= 1_000_000_000 * (h - low.pos) - gap * t < gap
            &&& 0 <= low.rgb[k] * (1_000_000_000 - t) + high.rgb[k] * t - 1_000_000_000 * channel
                < 1_000_000_000
            &&& 0 <= low.alpha * (1_000_000_000 - t) + high.alpha * t - 1_000_000_000 * alpha
                < 1_000_000_000
            &&& t == 0 ==> channel == low.rgb[k] && alpha == low.alpha
            &&& t == 1_000_000_000 ==> channel == high.rgb[k] && alpha == high.alpha
        }),
{
    lemma_segment_from(stops, h, 0);
    lemma_along(stops, h, h);
    let i = segment(stops, h);
    let t = along(stops, h);
    let (low, high) = (stops[i], stops[i + 1]);
    law_blend(low.rgb[k] as int, high.rgb[k] as int, t);
    law_blend(low.alpha as int, high.alpha as int, t);
    let gap = high.pos - low.pos;
    if gap >= 1000 {
        let n = (h - low.pos) * 1_000_000_000;
        vstd::arithmetic::div_mod::lemma_fundamental_div_mod(n, gap);
        vstd::arithmetic::div_mod::lemma_mod_bound(n, gap);
        let q = n / gap;
        assert(0 <= q <= 1_000_000_000) by (nonlinear_arith)
            requires
                gap * q <= n < gap * q + gap,
                0 <= n <= gap * 1_000_000_000,
                gap >= 1000,
        ;
    }
    (i, t)
}

/// At each of its stops the ramp is that stop: its color and its alpha.
pub proof fn law_ramp_meets_stops(stops: Seq<Stop>, j: int, k: int)
    requires
        valid_stops(stops),
        0 <= j < stops.len(),
        0 <= k < 3,
        forall|i: int|
            0 <= i < stops.len() - 1 ==> (#[trigger] stops[i]).pos + 1000 <= stops[i + 1].pos,
    ensures
        base_channel(stops, stops[j].pos as int, k) == stops[j].rgb[k],
        ramp_alpha(stops, stops[j].pos as int) == stops[j].alpha,
{
    let h = stops[j].pos as int;
    assert(0 <= h <= 1_000_000_000) by {
        if j > 0 {
            assert(stops[0].pos < stops[j].pos);
        }
        if j < stops.len() - 1 {
            assert(stops[j].pos < stops[stops.len() - 1].pos);
        }
    }
    let (i, t) = law_ramp_between_stops(stops, h, k);
    assert(stops[i].pos + 1000 <= stops[i + 1].pos);
    let gap = stops[i + 1].pos - stops[i].pos;
    if j < i {
        assert(stops[j].pos < stops[i].pos);
    }
    if j > i + 1 {
        assert(stops[i + 1].pos < stops[j].pos);
    }
    if j == i {
        assert(t == 0) by (nonlinear_arith)
            requires
                0 <= 1_000_000_000 * 0 - gap * t,
                gap >= 1000,
                t >= 0,
        ;
    } else {
        assert(t == 1_000_000_000) by (nonlinear_arith)
            requires
                1_000_000_000 * gap - gap * t < gap,
                gap >= 1000,
                t <= 1_000_000_000,
        ;
    }
}

/// The color codes of a palette, from its foot to its top.
pub open spec fn color_codes(palette: Palette) -> Seq<u32> {
    match palette {
        Palette::Aurora => seq![
            0x2A1258u32,
            0x5E35B1u32,
            0x2979FFu32,
            0x1DE9B6u32,
            0xDCF3FFu32,
            0xFFF0E6u32,
        ],
        Palette::Sunset => seq![
            0x3A1232u32,
            0x8E2A5Bu32,
            0xE0533Cu32,
            0xFFA24Au32,
            0xFFE6CCu32,
            0xFFF3E8u32,
        ],
        Palette::Glacial => seq![
            0x0E2240u32,
            0x1F5C94u32,
            0x2F9BD6u32,
            0x7FD8EEu32,
            0xDDF4FFu32,
            0xFFF4ECu32,
        ],
    }
}

proof fn lemma_hexes(palette: Palette, i: int)
    requires
        0 <= i < 6,
    ensures
        palette.hexes()[i] == color_codes(palette)[i],
        palette.hexes()[i] < 16_777_216,
{
    match palette {
        Palette::Aurora => {
            assert(PALETTE_AURORA@ =~= color_codes(palette));
        },
        Palette::Sunset => {
            assert(PALETTE_SUNSET@ =~= color_codes(palette));
        },
        Palette::Glacial => {
            assert(PALETTE_GLACIAL@ =~= color_codes(palette));
        },
    }
}

/// The stops of the palettes: where they stand, how opaque they are, and the color
/// of each, whose three bytes are decoded to light.
pub proof fn law_stops(palette: Palette, stops: Seq<Stop>, i: int)
    requires
        stops_of(palette, stops),
        0 <= i < 6,
    ensures
        ({
            let places = seq![
                0i64,
                220_000_000i64,
                450_000_000i64,
                680_000_000i64,
                880_000_000i64,
                1_000_000_000i64,
            ];
            let alphas = seq![
                350_000_000i64,
                500_000_000i64,
                680_000_000i64,
                820_000_000i64,
                950_000_000i64,
                980_000_000i64,
            ];
            let hexes = color_codes(palette);
            let (r, g, b) = (
                hex_byte(hexes[i], 0),
                hex_byte(hexes[i], 1),
                hex_byte(hexes[i], 2),
            );
            &&& stops[i].pos == places[i]
            &&& stops[i].alpha == alphas[i]
            &&& 65_536 * r + 256 * g + b == hexes[i]
            &&& stops[i].rgb[0] == linear(r)
            &&& stops[i].rgb[1] == linear(g)
            &&& stops[i].rgb[2] == linear(b)
        }),
{
    assert(stops[i].pos == STOP_POS[i]);
    lemma_hexes(palette, i);
    law_hex_bytes(palette.hexes()[i]);
    assert(stops[i].rgb[0] == linear(hex_byte(palette.hexes()[i], 0)));
    assert(stops[i].rgb[1] == linear(hex_byte(palette.hexes()[i], 1)));
    assert(stops[i].rgb[2] == linear(hex_byte(palette.hexes()[i], 2)));
}

/// Frequency turns the ramp warmer: red grows with it from 22 to 28 of 28 parts and
/// blue shrinks as much, while green keeps its 25. Alpha does not change with it.
pub proof fn law_ramp_tilts(stops: Seq<Stop>, h: int, f: int)
    requires
        valid_stops(stops),
        0 <= h <= 1_000_000_000,
        0 <= f <= 1_000_000_000,
    ensures
        ({
            let c = ramp_color(stops, h, f);
            let (r, g, b) = (
                base_channel(stops, h, 0),
                base_channel(stops, h, 1),
                base_channel(stops, h, 2),
            );
            let whole = 28_000_000_000int;
            &&& 0 <= r * (22_000_000_000 + 6 * f) - whole * c[0] < whole
            &&& 0 <= 25 * g - 28 * c[1] < 28
            &&& 0 <= b * (28_000_000_000 - 6 * f) - whole * c[2] < whole
            &&& c[3] == ramp_alpha(stops, h)
        }),
{
    lemma_ramp_color(stops, h, f);
    lemma_ramp_channels(stops, h, f);
    let (u, v) = (22_000_000_000 + 6 * f, 28_000_000_000 - 6 * f);
    assert(tilt(f, 0) == u && tilt(f, 2) == v);
    let (m, n) = (base_channel(stops, h, 0) * u, base_channel(stops, h, 2) * v);
    assert(ramp_channel(stops, h, f, 0) == m / 28_000_000_000);
    assert(ramp_channel(stops, h, f, 2) == n / 28_000_000_000);
    let g = base_channel(stops, h, 1) * 25_000_000_000;
    assert(ramp_channel(stops, h, f, 1) == g / 28_000_000_000);
}

proof fn lemma_ramp_channels(stops: Seq<Stop>, h: int, f: int)
    requires
        valid_stops(stops),
        0 <= h <= ONE,
        0 <= f <= ONE,
    ensures
        ramp_color(stops, h, f)[0] == ramp_channel(stops, h, f, 0),
        ramp_color(stops, h, f)[1] == ramp_channel(stops, h, f, 1),
        ramp_color(stops, h, f)[2] == ramp_channel(stops, h, f, 2),
{
    lemma_segment_from(stops, h, 0);
    lemma_along(stops, h, h);
    let i = segment(stops, h);
    let t = along(stops, h);
    let (s0, s1) = (stops[i], stops[i + 1]);
    assert(in_gamut(s0.rgb@) && in_gamut(s1.rgb@));
    assert(0 <= s0.rgb@[0] <= ONE && 0 <= s0.rgb@[1] <= ONE && 0 <= s0.rgb@[2] <= ONE);
    assert(0 <= s1.rgb@[0] <= ONE && 0 <= s1.rgb@[1] <= ONE && 0 <= s1.rgb@[2] <= ONE);
    assert forall|k: int| 0 <= k < 3 implies 0 <= #[trigger] ramp_channel(stops, h, f, k)
        <= ONE by {
        lemma_blend_between(s0.rgb[k] as int, s1.rgb[k] as int, t);
        lemma_tilted(base_channel(stops, h, k), tilt(f, k));
    }
    assert(0 <= ramp_channel(stops, h, f, 0) <= ONE && 0 <= ramp_channel(stops, h, f, 1) <= ONE
        && 0 <= ramp_channel(stops, h, f, 2) <= ONE);
}

/// A height off the scale counts as its nearer end, and one that is no finite number
/// as the foot of the ramp; such a frequency as the middle.
pub proof fn law_ramp_arguments(s: Sample)
    ensures
        s.finite() && 0 <= s.fixed() <= 1_000_000_000 ==> height_of(s) == s.fixed() && freq_of(s)
            == s.fixed(),
        s.finite() && s.fixed() < 0 ==> height_of(s) == 0 && freq_of(s) == 0,
        s.finite() && s.fixed() > 1_000_000_000 ==> height_of(s) == 1_000_000_000 && freq_of(s)
            == 1_000_000_000,
        !s.finite() ==> height_of(s) == 0 && freq_of(s) == 500_000_000,
{
}

/// The palettes are called what they show, and come one after the other.
pub proof fn law_palette_names()
    ensures
        Palette::Aurora.label()@ == "AURORA"@,
        Palette::Sunset.label()@ == "SUNSET"@,
        Palette::Glacial.label()@ == "GLACIAL"@,
        Palette::Aurora.succ() == Palette::Sunset,
        Palette::Sunset.succ() == Palette::Glacial,
{
}

} // verus!
