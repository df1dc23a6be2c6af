//! Ridge Bed: stacked spectrum history, scrolling into a terrain.

use crate::color::in_gamut;
use crate::geometry::{
    fade, faded, join, lemma_join, near, pixel, point, stroke_normals, MAX_SIDE, MITER_LIMIT,
};
use crate::mesh::{
    clear_below, glow_width, half_width, law_fill_kept_below, law_glow_kept_below,
    law_stroke_kept_below, stroke_reach, uniform, uniform_of, MeshBuilder, TAU,
};
use crate::motion::{law_smooth_monotone, smooth, smoothstep, stretched, tick_of, AutoRange, Clock};
use crate::number::{clamp, clamped, lemma_trunc_monotone, mul_div, trunc, Sample, ONE};
use crate::palette::{ramp_at, ramp_color, valid_stops, Stop};
use crate::shape::{
    all_in_gamut, all_near, all_valid, lemma_marks_push, lemma_total_concat, marks, total_cost,
    total_facets, Curves, FrameData, Mark, Screen, Shape, Visualizer, NUM_BANDS,
};
use crate::spline::{
    copy_points, curve, drawable, law_curve_through, law_stays_within, lemma_curve,
    resample_monotone, steps, Point,
};
use std::collections::VecDeque;
use vstd::prelude::*;

verus! {

/// History rows shown.
pub const ROWS: usize = 30;

/// Baseline of the topmost, oldest row. Large amplitude and a high baseline are
/// mutually exclusive: a peak on this row must stay on screen.
pub const RIDGE_TOP: i64 = 320_000_000;

/// Distance between row baselines.
pub const ROW_SPACING: i64 = 40_000_000;

/// Full-scale ridge height.
pub const AMP: i64 = 620_000_000;

/// Floor on ridge height, so silence still shows a soft undulation.
pub const MIN_RIDGE: i64 = 12_000_000;

/// Hard ceiling on ridge height.
pub const MAX_RIDGE: i64 = 620_000_000;

/// Highest point a peak may reach.
pub const SAFE_TOP: i64 = 960_000_000;

/// Time between history rows.
pub const ROW_INTERVAL: u64 = 50_000_000;

/// How far below its own baseline a row's occluder extends, in row spacings.
/// Every row behind has a higher baseline, so a shallow fill hides it as well
/// as a full-height one.
pub const OCCLUDE_SPACINGS: i64 = 2;

/// Exponent of the response curve: below one, so low and mid levels are lifted.
pub const RESPONSE_EXP: i64 = 650_000_000;

/// Amplitude of the idle undulation.
pub const BREATH_LEVEL: i64 = 55_000_000;

/// Rates of the two undulations, in cycles per second. Incommensurate, so their
/// sum reads as noise rather than an obvious sine.
pub const BREATH_HZ_A: u64 = 70_000_000;

pub const BREATH_HZ_B: u64 = 110_000_000;

/// Phase between neighbouring bands, of each undulation.
pub const BREATH_PHASE_A: i64 = 190_000_000;

pub const BREATH_PHASE_B: i64 = 323_000_000;

// -- levels -----------------------------------------------------------------
/// Fractional gain on band `i`: 2.2 dB per octave over 9.97 octaves, on the
/// 90 dB scale. The bands are log-spaced, so the tilt is linear in the index.
pub open spec fn lift(i: int) -> int {
    i * 21_934_000_000 / 5670
}

/// Level `raw` of band `i` after the tilt. Multiplied, not added: an offset
/// would raise the noise floor along with the signal.
pub open spec fn tilted(raw: int, i: int) -> int {
    clamped(raw * (ONE + lift(i)) / (ONE as int), 0, ONE as int)
}

/// Band `i` as read from the input: missing and non-finite bands are silent.
pub open spec fn raw_level(bands: Seq<Sample>, i: int) -> int {
    if i < bands.len() && bands[i].finite() {
        clamped(bands[i].fixed(), 0, ONE as int)
    } else {
        0
    }
}

/// The tilted spectrum.
pub open spec fn tilted_row(bands: Seq<Sample>) -> Seq<int> {
    Seq::new(64, |i: int| tilted(raw_level(bands, i), i))
}

/// Largest of the first `n` entries, at least zero.
pub open spec fn row_peak(row: Seq<int>, n: int) -> int
    decreases n,
{
    if n <= 0 {
        0
    } else if row[n - 1] > row_peak(row, n - 1) {
        row[n - 1]
    } else {
        row_peak(row, n - 1)
    }
}

/// Angle of an undulation of band `i`, whole turns left out.
pub open spec fn breath_angle(i: int, time: int, hz: int, phase: int) -> int {
    (time * hz / (ONE as int)) % (ONE as int) * TAU / (ONE as int) + i * phase
}

/// Idle undulation, given the sines of its two angles: six parts of the first
/// and four of the second, raised above zero and scaled to [`BREATH_LEVEL`].
pub open spec fn breath_level(a: int, b: int) -> int {
    (6 * clamped(a, -ONE as int, ONE as int) + 4 * clamped(b, -ONE as int, ONE as int) + 10 * ONE)
        * 11 / 4000
}

/// `v` is the idle undulation of band `i` at `time`.
pub open spec fn breathed<W: Fn(i64) -> i64>(sine: W, i: int, time: u64, v: int) -> bool {
    exists|a: i64, b: i64|
        #![trigger call_ensures(
            sine,
            (breath_angle(i, time as int, BREATH_HZ_A as int, BREATH_PHASE_A as int) as i64,),
            a,
        ), call_ensures(
            sine,
            (breath_angle(i, time as int, BREATH_HZ_B as int, BREATH_PHASE_B as int) as i64,),
            b,
        )]
        call_ensures(
            sine,
            (breath_angle(i, time as int, BREATH_HZ_A as int, BREATH_PHASE_A as int) as i64,),
            a,
        ) && call_ensures(
            sine,
            (breath_angle(i, time as int, BREATH_HZ_B as int, BREATH_PHASE_B as int) as i64,),
            b,
        ) && v == breath_level(a as int, b as int)
}

/// Silence breathes, within the amplitude of the undulation.
pub proof fn law_breath_bounded(a: int, b: int)
    ensures
        0 <= breath_level(a, b) <= BREATH_LEVEL,
{
}

/// A shaped level: the response to the stretched level, limited to `0..=ONE`,
/// with the breathing on top.
pub open spec fn shaped(response: int, breath: int) -> int {
    clamped(clamped(response, 0, ONE as int) + breath, 0, ONE as int)
}

/// `row` holds the shaped levels of a tilted spectrum under ceiling `hi`.
pub open spec fn shaped_row<P: Fn(i64, i64) -> i64, W: Fn(i64) -> i64>(
    power: P,
    sine: W,
    hi: int,
    levels: Seq<int>,
    time: u64,
    row: Seq<i64>,
) -> bool {
    &&& row.len() == NUM_BANDS
    &&& forall|i: int|
        0 <= i < NUM_BANDS ==> shaped_level(
            power,
            sine,
            stretched(hi, levels[i]),
            i,
            time,
            #[trigger] row[i],
        )
}

/// `v` is the shaped level of band `i`.
pub open spec fn shaped_level<P: Fn(i64, i64) -> i64, W: Fn(i64) -> i64>(
    power: P,
    sine: W,
    level: int,
    i: int,
    time: u64,
    v: i64,
) -> bool {
    exists|a: i64, b: int|
        #![trigger call_ensures(power, (level as i64, RESPONSE_EXP), a), breathed(sine, i, time, b)]
        call_ensures(power, (level as i64, RESPONSE_EXP), a) && breathed(sine, i, time, b) && v
            == shaped(a as int, b)
}

/// The bottom band is not tilted, and the tilt rises with frequency.
pub proof fn law_tilt_lifts_treble(i: int, j: int)
    requires
        0 <= i <= j < NUM_BANDS,
    ensures
        lift(0) == 0,
        0 <= lift(i) <= lift(j),
        150_000_000 < lift(63) < 400_000_000,
{
}

/// The tilt never turns silence into signal.
pub proof fn law_tilt_keeps_silence(i: int)
    requires
        0 <= i < NUM_BANDS,
    ensures
        tilted(0, i) == 0,
{
    assert(0 * (ONE + lift(i)) == 0) by (nonlinear_arith);
}

// -- heights ----------------------------------------------------------------
/// Ridge height of a shaped level.
pub open spec fn height_at(s: int) -> int {
    clamped(
        MIN_RIDGE + (AMP - MIN_RIDGE) * smooth(s) / (ONE as int),
        MIN_RIDGE as int,
        MAX_RIDGE as int,
    )
}

/// A level as read by the height map: non-finite levels are silent.
pub open spec fn level_read(s: Sample) -> int {
    if s.finite() {
        clamped(s.fixed(), 0, ONE as int)
    } else {
        0
    }
}

fn height_of_level(s: i64) -> (h: i64)
    ensures
        h == height_at(s as int),
        MIN_RIDGE <= h <= MAX_RIDGE,
{
    let e: i64 = smoothstep(s);
    assert(0 <= 608_000_000 * e <= 608_000_000 * 1_000_000_000);
    clamp(MIN_RIDGE + (AMP - MIN_RIDGE) * e / ONE, MIN_RIDGE, MAX_RIDGE)
}

/// A taller level never gives a lower ridge; silence gives the floor, full
/// scale the ceiling, and nothing leaves that range.
pub proof fn law_ridge_height(a: int, b: int)
    requires
        a <= b,
    ensures
        MIN_RIDGE <= height_at(a) <= height_at(b) <= MAX_RIDGE,
        height_at(0) == MIN_RIDGE,
        height_at(ONE as int) == MAX_RIDGE,
{
    law_smooth_monotone(a, b);
    let d = 608_000_000int;
    let (x, y) = (smooth(a), smooth(b));
    assert(d * x <= d * y);
    vstd::arithmetic::div_mod::lemma_div_is_ordered(d * x, d * y, ONE as int);
}

/// A peak on the top row stays below the safe margin, and the rows overlap more
/// than fivefold, which is what makes them a terrain rather than a stack of
/// separate lines.
pub proof fn law_ridge_headroom()
    ensures
        RIDGE_TOP + MAX_RIDGE <= SAFE_TOP,
        AMP > 5 * ROW_SPACING,
        ROW_SPACING * ROWS == 1_200_000_000,
{
}

// -- rows -------------------------------------------------------------------
/// Steps from the oldest to the newest row.
pub open spec fn row_steps(rows: int) -> int {
    if rows < 2 {
        1
    } else {
        rows - 1
    }
}

/// Age of a row: zero for the oldest, one for the newest.
pub open spec fn row_age(row: int, rows: int) -> int {
    row * ONE / row_steps(rows)
}

/// Baseline of a row.
pub open spec fn row_baseline(row: int) -> int {
    RIDGE_TOP - row * ROW_SPACING
}

/// Horizontal scale of a row: distant rows are squeezed, hinting at depth.
pub open spec fn row_squeeze(age: int) -> int {
    720_000_000 + age * 28 / 100
}

/// Horizontal position of band `b` in a row.
pub open spec fn row_x(b: int, squeeze: int) -> int {
    trunc((2 * b * ONE / 63 - ONE) * squeeze, ONE as int)
}

/// Height of band `b` in a row. The margin is enforced here, so it holds
/// whatever the row's baseline.
pub open spec fn row_y(level: int, baseline: int) -> int {
    let y = baseline + height_at(level);
    if y > SAFE_TOP {
        SAFE_TOP as int
    } else {
        y
    }
}

/// Control points of a row.
pub open spec fn row_points(levels: Seq<i64>, row: int, rows: int) -> Seq<Point> {
    Seq::new(
        64,
        |b: int|
            point(
                row_x(b, row_squeeze(row_age(row, rows))),
                row_y(levels[b] as int, row_baseline(row)),
            ),
    )
}

/// Spline subdivisions of a row: distant rows need fewer.
pub open spec fn row_subdiv(row: int, rows: int) -> int {
    2 + (4 * row + row_steps(rows)) / (2 * row_steps(rows))
}

/// The curve of a row.
pub open spec fn row_curve(levels: Seq<i64>, row: int, rows: int) -> Seq<Point> {
    curve(row_points(levels, row, rows), row_subdiv(row, rows))
}

/// Position on the ramp of a point of a row: its height above the baseline.
pub open spec fn row_tone(y: int, baseline: int) -> int {
    clamped(trunc((y - baseline) * ONE, AMP as int), 0, ONE as int)
}

/// Alpha of a row.
pub open spec fn row_alpha(age: int) -> int {
    450_000_000 + age * 55 / 100
}

/// Stroke width of a row, in pixels.
pub open spec fn row_width(age: int) -> int {
    1_300_000_000 + age * 13 / 10
}

/// Colors of a row's stroke.
pub open spec fn row_colors(
    stops: Seq<Stop>,
    pts: Seq<Point>,
    baseline: int,
    alpha: int,
) -> Seq<[i64; 4]> {
    Seq::new(
        pts.len(),
        |i: int|
            faded(
                ramp_color(
                    stops,
                    row_tone(pts[i].y as int, baseline),
                    i * ONE / (pts.len() - 1),
                ),
                alpha,
            ),
    )
}

/// The newest rows glow.
pub open spec fn row_glows(row: int, rows: int) -> bool {
    100 * row > 92 * row_steps(rows)
}

/// The background at full opacity.
pub open spec fn opaque(background: [i64; 3]) -> [i64; 4] {
    [background[0], background[1], background[2], ONE]
}

/// The occluding fill of a row.
pub open spec fn row_fill(levels: Seq<i64>, row: int, rows: int, background: [i64; 3]) -> Mark {
    let pts = row_curve(levels, row, rows);
    Mark::Fill {
        pts,
        baseline: row_baseline(row) - OCCLUDE_SPACINGS * ROW_SPACING,
        colors: uniform(opaque(background), pts.len()),
    }
}

/// The ridge line of a row.
pub open spec fn row_line(stops: Seq<Stop>, levels: Seq<i64>, row: int, rows: int) -> Mark {
    let pts = row_curve(levels, row, rows);
    let age = row_age(row, rows);
    let colors = row_colors(stops, pts, row_baseline(row), row_alpha(age));
    if row_glows(row, rows) {
        Mark::Glow { pts, width: row_width(age), layers: 2, colors }
    } else {
        Mark::Stroke { pts, width: row_width(age), additive: false, colors }
    }
}

/// Marks of the first `n` rows, oldest first: each newer row's opaque fill
/// paints over the row behind it.
pub open spec fn ridge_marks(
    stops: Seq<Stop>,
    background: [i64; 3],
    history: Seq<Seq<i64>>,
    n: int,
) -> Seq<Mark>
    decreases n,
{
    if n <= 0 {
        Seq::empty()
    } else {
        let rows = history.len() as int;
        ridge_marks(stops, background, history, n - 1).push(
            row_fill(history[n - 1], n - 1, rows, background),
        ).push(row_line(stops, history[n - 1], n - 1, rows))
    }
}

/// A row of shaped levels.
pub open spec fn row_valid(levels: Seq<i64>) -> bool {
    levels.len() == NUM_BANDS && forall|i: int|
        0 <= i < NUM_BANDS ==> 0 <= #[trigger] levels[i] <= ONE
}

proof fn lemma_row_age(row: int, rows: int)
    requires
        0 <= row < rows <= ROWS,
    ensures
        1 <= row_steps(rows) <= 29,
        row <= row_steps(rows),
        0 <= row_age(row, rows) <= ONE,
        2 <= row_subdiv(row, rows) <= 4,
{
    let m = row_steps(rows);
    let n = row * ONE;
    assert(0 <= n / m <= 1_000_000_000) by (nonlinear_arith)
        requires
            n == row * 1_000_000_000,
            0 <= row <= m,
            m >= 1,
    ;
    let t = 4 * row + m;
    assert(0 <= t / (2 * m) <= 2) by (nonlinear_arith)
        requires
            t == 4 * row + m,
            0 <= row <= m,
            m >= 1,
    ;
}

proof fn lemma_row_x(b: int, c: int, squeeze: int)
    requires
        0 <= b <= c <= 63,
        0 <= squeeze <= ONE,
    ensures
        -ONE <= row_x(b, squeeze) <= row_x(c, squeeze) <= ONE,
{
    let x = 2 * b * ONE / 63 - ONE;
    let y = 2 * c * ONE / 63 - ONE;
    assert(-1_000_000_000 <= x <= y <= 1_000_000_000);
    assert(x * squeeze <= y * squeeze) by (nonlinear_arith)
        requires
            x <= y,
            0 <= squeeze,
    ;
    assert(-1_000_000_000 * 1_000_000_000 <= x * squeeze && y * squeeze <= 1_000_000_000
        * 1_000_000_000) by (nonlinear_arith)
        requires
            -1_000_000_000 <= x,
            y <= 1_000_000_000,
            0 <= squeeze <= 1_000_000_000,
    ;
    lemma_trunc_monotone(x * squeeze, y * squeeze, ONE as int);
    lemma_trunc_monotone(-1_000_000_000_000_000_000, x * squeeze, ONE as int);
    lemma_trunc_monotone(y * squeeze, 1_000_000_000_000_000_000, ONE as int);
}

proof fn lemma_row_points(levels: Seq<i64>, row: int, rows: int)
    requires
        0 <= row < rows <= ROWS,
    ensures
        drawable(row_points(levels, row, rows)),
        row_points(levels, row, rows).len() == 64,
        forall|i: int|
            0 <= i < 64 ==> -ONE <= (#[trigger] row_points(levels, row, rows)[i]).y <= SAFE_TOP,
        row_points(levels, row, rows)[0].x >= -ONE,
        row_points(levels, row, rows).last().x <= ONE,
{
    let pts = row_points(levels, row, rows);
    lemma_row_age(row, rows);
    let squeeze = row_squeeze(row_age(row, rows));
    assert forall|i: int| 0 <= i < 64 implies -ONE <= (#[trigger] pts[i]).y <= SAFE_TOP && -ONE
        <= pts[i].x <= ONE by {
        law_ridge_height(levels[i] as int, levels[i] as int);
        lemma_row_x(i, i, squeeze);
    }
    assert forall|i: int, j: int| 0 <= i <= j < 64 implies pts[i].x <= pts[j].x by {
        lemma_row_x(i, j, squeeze);
    }
}

/// Stacked spectrum history.
pub struct RidgeBed {
    /// Rows of shaped levels, oldest first. Everything but geometry is baked in
    /// when a row is pushed, so the terrain scrolls rigidly.
    pub history: VecDeque<Vec<i64>>,
    pub range: AutoRange,
    pub since_row: u64,
    pub clock: Clock,
}

/// The rows of a history.
pub open spec fn rows_of(history: Seq<Vec<i64>>) -> Seq<Seq<i64>> {
    Seq::new(history.len(), |i: int| history[i]@)
}

fn undulation(i: usize, time: u64, hz: u64, phase: i64) -> (angle: i64)
    requires
        i < NUM_BANDS,
        0 <= phase <= ONE,
    ensures
        angle == breath_angle(i as int, time as int, hz as int, phase as int),
{
    assert(0 <= time * hz <= 0xFFFF_FFFF_FFFF_FFFF * 0xFFFF_FFFF_FFFF_FFFF) by (nonlinear_arith)
        requires
            0 <= time <= 0xFFFF_FFFF_FFFF_FFFF,
            0 <= hz <= 0xFFFF_FFFF_FFFF_FFFF,
    ;
    let turns: i64 = (time as u128 * hz as u128 / 1_000_000_000 % 1_000_000_000) as i64;
    assert(0 <= i * phase <= 64 * 1_000_000_000) by (nonlinear_arith)
        requires
            0 <= i <= 64,
            0 <= phase <= 1_000_000_000,
    ;
    turns * 6_283_185_307 / ONE + i as i64 * phase
}

/// Idle undulation, given the sines of its two angles.
pub fn breath_of(a: i64, b: i64) -> (v: i64)
    ensures
        v == breath_level(a as int, b as int),
        0 <= v <= BREATH_LEVEL,
{
    (6 * clamp(a, -ONE, ONE) + 4 * clamp(b, -ONE, ONE) + 10 * ONE) * 11 / 4000
}

impl RidgeBed {
    /// An empty bed.
    pub fn new() -> (r: Self)
        ensures
            r.wf(),
            r.history@.len() == 0,
            r.range.hi == crate::motion::RANGE_SPAN,
            r.since_row == 0,
            r.clock.last is None,
    {
        RidgeBed {
            history: VecDeque::with_capacity(ROWS),
            range: AutoRange::new(),
            since_row: 0,
            clock: Clock::default(),
        }
    }

    /// Slow idle undulation of a band, so that silence breathes instead of
    /// flatlining.
    pub fn breath<W: Fn(i64) -> i64>(i: usize, time: u64, sine: &W) -> (v: i64)
        requires
            i < NUM_BANDS,
            forall|angle: i64| call_requires(sine, (angle,)),
        ensures
            breathed(*sine, i as int, time, v as int),
            0 <= v <= BREATH_LEVEL,
    {
        let p: i64 = undulation(i, time, BREATH_HZ_A, BREATH_PHASE_A);
        let q: i64 = undulation(i, time, BREATH_HZ_B, BREATH_PHASE_B);
        let a: i64 = sine(p);
        let b: i64 = sine(q);
        assert(call_ensures(
            *sine,
            (breath_angle(
                i as int,
                time as int,
                BREATH_HZ_A as int,
                BREATH_PHASE_A as int,
            ) as i64,),
            a,
        ));
        assert(call_ensures(
            *sine,
            (breath_angle(
                i as int,
                time as int,
                BREATH_HZ_B as int,
                BREATH_PHASE_B as int,
            ) as i64,),
            b,
        ));
        breath_of(a, b)
    }

    /// Fractional gain applied to band `i`.
    pub fn tilt_lift(i: usize) -> (r: i64)
        requires
            i < NUM_BANDS,
        ensures
            r == lift(i as int),
            0 <= r <= 400_000_000,
    {
        i as i64 * 21_934_000_000 / 5670
    }

    /// Map a shaped level to a ridge height.
    ///
    /// Lands in `MIN_RIDGE..=MAX_RIDGE` for every input, finite or not. It is a
    /// pure NDC-y quantity, so it holds at any aspect ratio.
    pub fn ridge_height(shaped: Sample) -> (h: i64)
        ensures
            h == height_at(level_read(shaped)),
            MIN_RIDGE <= h <= MAX_RIDGE,
    {
        let s: i64 = if shaped.is_finite() {
            clamp(shaped.to_fixed(), 0, ONE)
        } else {
            0
        };
        height_of_level(s)
    }

    fn tilted_levels(bands: &[Sample]) -> (levels: Vec<i64>)
        ensures
            levels@.len() == NUM_BANDS,
            forall|i: int| 0 <= i < NUM_BANDS ==> #[trigger] levels@[i] == tilted_row(bands@)[i],
            forall|i: int| 0 <= i < NUM_BANDS ==> 0 <= #[trigger] levels@[i] <= ONE,
    {
        let mut levels: Vec<i64> = Vec::with_capacity(NUM_BANDS);
        let mut i: usize = 0;
        while i < NUM_BANDS
            invariant
                i <= NUM_BANDS,
                levels@.len() == i,
                forall|j: int| 0 <= j < i ==> #[trigger] levels@[j] == tilted_row(bands@)[j],
                forall|j: int| 0 <= j < i ==> 0 <= #[trigger] levels@[j] <= ONE,
            decreases NUM_BANDS - i,
        {
            let raw: i64 = if i < bands.len() && bands[i].is_finite() {
                clamp(bands[i].to_fixed(), 0, ONE)
            } else {
                0
            };
            let gain: i64 = ONE + RidgeBed::tilt_lift(i);
            assert(0 <= raw * gain <= 1_000_000_000 * 1_400_000_000) by (nonlinear_arith)
                requires
                    0 <= raw <= 1_000_000_000,
                    0 <= gain <= 1_400_000_000,
            ;
            levels.push(clamp(raw * gain / ONE, 0, ONE));
            i = i + 1;
        }
        levels
    }

    fn level_peak(levels: &Vec<i64>, Ghost(row): Ghost<Seq<int>>) -> (peak: i64)
        requires
            levels@.len() == NUM_BANDS,
            row.len() == NUM_BANDS,
            forall|i: int| 0 <= i < NUM_BANDS ==> #[trigger] levels@[i] == row[i],
            forall|i: int| 0 <= i < NUM_BANDS ==> 0 <= #[trigger] levels@[i] <= ONE,
        ensures
            peak == row_peak(row, NUM_BANDS as int),
            0 <= peak <= ONE,
    {
        let mut peak: i64 = 0;
        let mut i: usize = 0;
        while i < NUM_BANDS
            invariant
                i <= NUM_BANDS,
                levels@.len() == NUM_BANDS,
                row.len() == NUM_BANDS,
                forall|i: int| 0 <= i < NUM_BANDS ==> #[trigger] levels@[i] == row[i],
                forall|i: int| 0 <= i < NUM_BANDS ==> 0 <= #[trigger] levels@[i] <= ONE,
                peak == row_peak(row, i as int),
                0 <= peak <= ONE,
            decreases NUM_BANDS - i,
        {
            assert(levels@[i as int] == row[i as int]);
            if levels[i] > peak {
                peak = levels[i];
            }
            i = i + 1;
        }
        peak
    }

    /// Turn raw band levels into a row of shaped ones.
    ///
    /// Order matters: tilt first, so the contrast window sees the tilted
    /// spectrum; then stretch; then the response curve; then breathing on top,
    /// so it survives silence.
    pub fn shape_row<
        E: Fn(u64, u64) -> i64,
        P: Fn(i64, i64) -> i64,
        W: Fn(i64) -> i64,
        S: Fn(i64) -> i64,
    >(
        &mut self,
        bands: &[Sample],
        dt: u64,
        time: u64,
        curves: &Curves<E, P, W, S>,
    ) -> (row: Vec<i64>)
        requires
            old(self).range.wf(),
            curves.wf(),
        ensures
            final(self).range.wf(),
            final(self).history == old(self).history,
            final(self).since_row == old(self).since_row,
            final(self).clock == old(self).clock,
            AutoRange::followed(
                old(self).range,
                final(self).range,
                row_peak(tilted_row(bands@), NUM_BANDS as int),
                dt,
                &curves.ease,
            ),
            shaped_row(
                curves.power,
                curves.sine,
                final(self).range.hi as int,
                tilted_row(bands@),
                time,
                row@,
            ),
            row_valid(row@),
    {
        let levels: Vec<i64> = RidgeBed::tilted_levels(bands);
        let ghost flat = tilted_row(bands@);
        let peak: i64 = RidgeBed::level_peak(&levels, Ghost(flat));
        self.range.follow(peak, dt, &curves.ease);
        let ghost hi = self.range.hi as int;
        let mut row: Vec<i64> = Vec::with_capacity(NUM_BANDS);
        let mut i: usize = 0;
        while i < NUM_BANDS
            invariant
                i <= NUM_BANDS,
                self.range.wf(),
                hi == self.range.hi,
                curves.wf(),
                levels@.len() == NUM_BANDS,
                forall|j: int| 0 <= j < NUM_BANDS ==> #[trigger] levels@[j] == flat[j],
                row@.len() == i,
                forall|j: int|
                    0 <= j < i ==> shaped_level(
                        curves.power,
                        curves.sine,
                        stretched(hi, flat[j]),
                        j,
                        time,
                        #[trigger] row@[j],
                    ),
                forall|j: int| 0 <= j < i ==> 0 <= #[trigger] row@[j] <= ONE,
            decreases NUM_BANDS - i,
        {
            assert(levels@[i as int] == flat[i as int]);
            let e: i64 = self.range.stretch(levels[i]);
            let power: &P = &curves.power;
            let a: i64 = power(e, RESPONSE_EXP);
            let b: i64 = RidgeBed::breath(i, time, &curves.sine);
            let v: i64 = clamp(clamp(a, 0, ONE) + b, 0, ONE);
            proof {
                let level = stretched(hi, flat[i as int]);
                assert(call_ensures(curves.power, (level as i64, RESPONSE_EXP), a));
                assert(shaped_level(curves.power, curves.sine, level, i as int, time, v));
            }
            row.push(v);
            i = i + 1;
        }
        row
    }
}

/// The curve of one history row.
fn row_curve_of(levels: &Vec<i64>, row: usize, rows: usize) -> (pts: Vec<Point>)
    requires
        row < rows <= ROWS,
        row_valid(levels@),
    ensures
        pts@ == row_curve(levels@, row as int, rows as int),
        pts@.len() == 63 * row_subdiv(row as int, rows as int) + 1,
        all_near(pts@),
        forall|i: int|
            0 <= i < pts@.len() ==> -ONE <= (#[trigger] pts@[i]).y <= SAFE_TOP && -ONE
                <= pts@[i].x <= ONE,
{
    let ghost all = row_points(levels@, row as int, rows as int);
    proof {
        lemma_row_age(row as int, rows as int);
        lemma_row_points(levels@, row as int, rows as int);
    }
    let m: i64 = if rows < 2 {
        1
    } else {
        rows as i64 - 1
    };
    let age: i64 = row as i64 * ONE / m;
    let baseline: i64 = RIDGE_TOP - row as i64 * ROW_SPACING;
    let squeeze: i64 = 720_000_000 + age * 28 / 100;
    let mut ctrl: Vec<Point> = Vec::with_capacity(NUM_BANDS);
    let mut b: usize = 0;
    while b < NUM_BANDS
        invariant
            b <= NUM_BANDS,
            row < rows <= ROWS,
            row_valid(levels@),
            squeeze == row_squeeze(row_age(row as int, rows as int)),
            0 <= squeeze <= ONE,
            baseline == row_baseline(row as int),
            -2 * ONE <= baseline <= ONE,
            all == row_points(levels@, row as int, rows as int),
            ctrl@.len() == b,
            forall|j: int| 0 <= j < b ==> #[trigger] ctrl@[j] == all[j],
        decreases NUM_BANDS - b,
    {
        let t: i64 = 2 * b as i64 * ONE / 63 - ONE;
        proof {
            assert(-1_000_000_000 <= t <= 1_000_000_000);
            assert(-1_000_000_000_000_000_000 <= t * squeeze <= 1_000_000_000_000_000_000)
                by (nonlinear_arith)
                requires
                    -1_000_000_000 <= t <= 1_000_000_000,
                    0 <= squeeze <= 1_000_000_000,
            ;
        }
        let x: i64 = mul_div(t, squeeze, ONE);
        let top: i64 = baseline + height_of_level(levels[b]);
        let y: i64 = if top > SAFE_TOP {
            SAFE_TOP
        } else {
            top
        };
        ctrl.push(Point { x, y });
        assert(ctrl@[b as int] == all[b as int]);
        b = b + 1;
    }
    assert(ctrl@ =~= all);
    let subdiv: usize = 2 + (4 * row + m as usize) / (2 * m as usize);
    assert(subdiv == row_subdiv(row as int, rows as int));
    let mut pts: Vec<Point> = Vec::with_capacity(63 * subdiv + 1);
    assert((all.len() - 1) * steps(subdiv) + 1 <= 253) by (nonlinear_arith)
        requires
            all.len() == 64,
            steps(subdiv) <= 4,
    ;
    resample_monotone(ctrl.as_slice(), subdiv, &mut pts);
    proof {
        lemma_curve(all, steps(subdiv), pts@);
        law_stays_within(all, steps(subdiv), -ONE as int, SAFE_TOP as int);
        assert forall|i: int| 0 <= i < pts@.len() implies near(#[trigger] pts@[i]) by {
            assert(pts@[i] == curve(all, steps(subdiv))[i]);
        }
    }
    pts
}

/// A row is due: enough time has passed, or there is nothing to show yet.
pub open spec fn row_due(since: int, dt: int, rows: int) -> bool {
    since + dt >= ROW_INTERVAL || rows == 0
}

/// A history with a row appended, the oldest retired once it is full.
pub open spec fn scrolled(rows: Seq<Seq<i64>>, row: Seq<i64>) -> Seq<Seq<i64>> {
    if rows.len() >= ROWS {
        rows.drop_first().push(row)
    } else {
        rows.push(row)
    }
}

impl RidgeBed {
    /// `after` is `before` once a frame was seen: a row is appended when due.
    pub open spec fn stepped<
        E: Fn(u64, u64) -> i64,
        P: Fn(i64, i64) -> i64,
        W: Fn(i64) -> i64,
        S: Fn(i64) -> i64,
    >(
        before: RidgeBed,
        after: RidgeBed,
        bands: Seq<Sample>,
        time: u64,
        curves: &Curves<E, P, W, S>,
    ) -> bool {
        let dt = tick_of(before.clock.last, time);
        &&& after.clock.last == Some(time)
        &&& if row_due(before.since_row as int, dt as int, before.history@.len() as int) {
            &&& after.since_row == 0
            &&& AutoRange::followed(
                before.range,
                after.range,
                row_peak(tilted_row(bands), NUM_BANDS as int),
                dt,
                &curves.ease,
            )
            &&& after.history@.len() > 0
            &&& shaped_row(
                curves.power,
                curves.sine,
                after.range.hi as int,
                tilted_row(bands),
                time,
                after.history@.last()@,
            )
            &&& rows_of(after.history@) == scrolled(
                rows_of(before.history@),
                after.history@.last()@,
            )
        } else {
            &&& after.since_row == before.since_row + dt
            &&& after.range == before.range
            &&& rows_of(after.history@) == rows_of(before.history@)
        }
    }

    fn step<
        E: Fn(u64, u64) -> i64,
        P: Fn(i64, i64) -> i64,
        W: Fn(i64) -> i64,
        S: Fn(i64) -> i64,
    >(&mut self, bands: &[Sample], time: u64, curves: &Curves<E, P, W, S>)
        requires
            old(self).wf(),
            curves.wf(),
        ensures
            final(self).wf(),
            RidgeBed::stepped(*old(self), *final(self), bands@, time, curves),
            final(self).history@.len() >= 1,
    {
        let dt: u64 = self.clock.tick(time);
        let since: u64 = self.since_row + dt;
        if since >= ROW_INTERVAL || self.history.len() == 0 {
            self.since_row = 0;
            let row: Vec<i64> = self.shape_row(bands, dt, time, curves);
            let ghost rows0 = rows_of(self.history@);
            let ghost h0 = self.history@;
            if self.history.len() >= ROWS {
                self.history.pop_front();
                assert(rows_of(self.history@) =~= rows0.drop_first());
            }
            self.history.push_back(row);
            assert(rows_of(self.history@) =~= scrolled(rows0, row@));
            assert(self.history@.last()@ == row@);
        } else {
            self.since_row = since;
        }
    }
}

/// Colors of a row's stroke.
fn row_colors_of(stops: &[Stop], pts: &Vec<Point>, baseline: i64, alpha: i64) -> (colors: Vec<
    [i64; 4],
>)
    requires
        valid_stops(stops@),
        2 <= pts@.len() <= 1_000_000,
        forall|i: int| 0 <= i < pts@.len() ==> -ONE <= (#[trigger] pts@[i]).y <= ONE,
        -2 * ONE <= baseline <= ONE,
        0 <= alpha <= ONE,
    ensures
        colors@ == row_colors(stops@, pts@, baseline as int, alpha as int),
        all_in_gamut(colors@),
{
    let n: usize = pts.len();
    let mut colors: Vec<[i64; 4]> = Vec::with_capacity(n);
    let mut i: usize = 0;
    while i < n
        invariant
            valid_stops(stops@),
            n == pts@.len(),
            2 <= n <= 1_000_000,
            i <= n,
            forall|i: int| 0 <= i < pts@.len() ==> -ONE <= (#[trigger] pts@[i]).y <= ONE,
            -2 * ONE <= baseline <= ONE,
            0 <= alpha <= ONE,
            colors@.len() == i,
            forall|j: int|
                0 <= j < i ==> #[trigger] colors@[j] == row_colors(
                    stops@,
                    pts@,
                    baseline as int,
                    alpha as int,
                )[j],
            all_in_gamut(colors@),
        decreases n - i,
    {
        let p: Point = pts[i];
        assert(p == pts@[i as int]);
        let tone: i64 = clamp(mul_div(p.y - baseline, ONE, AMP), 0, ONE);
        let num: i64 = i as i64 * ONE;
        let den: i64 = n as i64 - 1;
        assert(0 <= (num as int) / (den as int) <= 1_000_000_000) by (nonlinear_arith)
            requires
                num == i * 1_000_000_000,
                den == n - 1,
                0 <= i < n,
                n >= 2,
        ;
        colors.push(fade(ramp_at(stops, tone, num / den), alpha));
        i = i + 1;
    }
    assert(colors@ =~= row_colors(stops@, pts@, baseline as int, alpha as int));
    colors
}

/// Fill and line of one row.
fn row_shapes(
    stops: &[Stop],
    background: [i64; 3],
    levels: &Vec<i64>,
    row: usize,
    rows: usize,
) -> (r: (Shape, Shape))
    requires
        valid_stops(stops@),
        in_gamut(background@),
        row < rows <= ROWS,
        row_valid(levels@),
    ensures
        r.0@ == row_fill(levels@, row as int, rows as int, background),
        r.1@ == row_line(stops@, levels@, row as int, rows as int),
        r.0@.valid(),
        r.1@.valid(),
        row_curve(levels@, row as int, rows as int).len() == 63 * row_subdiv(
            row as int,
            rows as int,
        ) + 1,
{
    proof {
        lemma_row_age(row as int, rows as int);
    }
    let pts: Vec<Point> = row_curve_of(levels, row, rows);
    let m: i64 = if rows < 2 {
        1
    } else {
        rows as i64 - 1
    };
    let age: i64 = row as i64 * ONE / m;
    let baseline: i64 = RIDGE_TOP - row as i64 * ROW_SPACING;
    assert(0 <= background@[0] <= ONE && 0 <= background@[1] <= ONE && 0 <= background@[2] <= ONE);
    let bg: [i64; 4] = [background[0], background[1], background[2], ONE];
    assert(bg@ =~= opaque(background)@);
    assert(in_gamut(bg@));
    let fill: Shape = Shape::Fill {
        pts: copy_points(&pts),
        baseline: baseline - OCCLUDE_SPACINGS * ROW_SPACING,
        colors: uniform_of(bg, pts.len()),
    };
    let colors: Vec<[i64; 4]> = row_colors_of(
        stops,
        &pts,
        baseline,
        450_000_000 + age * 55 / 100,
    );
    let width: i64 = 1_300_000_000 + age * 13 / 10;
    assert(width * (10 + 24 * 2) == 58 * width) by (nonlinear_arith);
    assert(glow_width(width as int, 2) == 58 * width / 10);
    if 100 * row as i64 > 92 * m {
        (fill, Shape::Glow { pts, width, layers: 2, colors })
    } else {
        (fill, Shape::Stroke { pts, width, additive: false, colors })
    }
}

impl RidgeBed {
    /// `after` and `shapes` are what drawing `frame` leaves and gives.
    pub open spec fn drawn<
        E: Fn(u64, u64) -> i64,
        P: Fn(i64, i64) -> i64,
        W: Fn(i64) -> i64,
        S: Fn(i64) -> i64,
    >(
        before: RidgeBed,
        after: RidgeBed,
        frame: &FrameData,
        screen: Screen,
        curves: &Curves<E, P, W, S>,
        shapes: Seq<Shape>,
    ) -> bool {
        &&& RidgeBed::stepped(before, after, frame.bands@, frame.time, curves)
        &&& after.history@.len() >= 1
        &&& marks(shapes) == ridge_marks(
            frame.stops@,
            frame.background,
            rows_of(after.history@),
            after.history@.len() as int,
        )
    }
}

impl Visualizer for RidgeBed {
    open spec fn wf(&self) -> bool {
        &&& self.range.wf()
        &&& self.since_row < ROW_INTERVAL
        &&& self.history@.len() <= ROWS
        &&& forall|i: int|
            0 <= i < self.history@.len() ==> row_valid((#[trigger] self.history@[i])@)
    }

    open spec fn label(&self) -> Seq<char> {
        "Ridge Bed"@
    }

    fn name(&self) -> (r: &'static str) {
        "Ridge Bed"
    }

    fn draw<
        E: Fn(u64, u64) -> i64,
        P: Fn(i64, i64) -> i64,
        W: Fn(i64) -> i64,
        S: Fn(i64) -> i64,
    >(&mut self, frame: &FrameData, screen: Screen, curves: &Curves<E, P, W, S>) -> (shapes: Vec<
        Shape,
    >)
        ensures
            RidgeBed::drawn(*old(self), *final(self), frame, screen, curves, shapes@),
    {
        self.step(frame.bands, frame.time, curves);
        let rows: usize = self.history.len();
        let ghost all = rows_of(self.history@);
        let mut shapes: Vec<Shape> = Vec::with_capacity(2 * rows);
        assert(marks(shapes@) =~= Seq::<Mark>::empty());
        let mut row: usize = 0;
        while row < rows
            invariant
                self.wf(),
                frame.wf(),
                rows == self.history@.len(),
                1 <= rows <= ROWS,
                row <= rows,
                all == rows_of(self.history@),
                marks(shapes@) == ridge_marks(frame.stops@, frame.background, all, row as int),
                all_valid(marks(shapes@)),
                shapes@.len() == 2 * row,
                total_cost(marks(shapes@), 2 * row) <= cost_bound(row as int, rows as int),
                total_facets(marks(shapes@), 2 * row) <= facet_bound(row as int, rows as int),
            decreases rows - row,
        {
            assert(row_valid(self.history@[row as int]@));
            assert(all[row as int] == self.history@[row as int]@);
            let (fill, line): (Shape, Shape) = row_shapes(
                frame.stops,
                frame.background,
                &self.history[row],
                row,
                rows,
            );
            let ghost list0 = marks(shapes@);
            proof {
                lemma_marks_push(shapes@, fill);
                lemma_marks_push(shapes@.push(fill), line);
                lemma_row_cost(frame.stops@, all[row as int], row as int, rows as int, frame.background);
                let pair = seq![fill@, line@];
                assert(list0.push(fill@).push(line@) =~= list0 + pair);
                lemma_total_concat(list0, pair);
                assert(total_cost(pair, 0) == 0 && total_facets(pair, 0) == 0);
                assert(total_cost(pair, 1) == fill@.cost() && total_facets(pair, 1)
                    == fill@.facets());
                assert(total_cost(pair, 2) == fill@.cost() + line@.cost());
                assert(total_facets(pair, 2) == fill@.facets() + line@.facets());
            }
            shapes.push(fill);
            shapes.push(line);
            row = row + 1;
        }
        proof {
            lemma_bounds(rows as int);
        }
        shapes
    }
}

/// First row with three subdivisions per span.
spec fn middle_row(rows: int) -> int {
    (row_steps(rows) + 3) / 4
}

/// First row with four.
spec fn near_row(rows: int) -> int {
    (3 * row_steps(rows) + 3) / 4
}

/// First row that glows.
spec fn glow_row(rows: int) -> int {
    92 * row_steps(rows) / 100 + 1
}

/// `per` for each of the first `n` rows past `from`.
spec fn beyond(n: int, from: int, per: int) -> int {
    if n > from {
        (n - from) * per
    } else {
        0
    }
}

/// Vertices of the first `n` rows, at most.
spec fn cost_bound(n: int, rows: int) -> int {
    832 * n + beyond(n, middle_row(rows), 378) + beyond(n, near_row(rows), 378) + beyond(
        n,
        glow_row(rows),
        2164,
    )
}

/// Triangles of the first `n` rows, at most.
spec fn facet_bound(n: int, rows: int) -> int {
    1112 * n + beyond(n, middle_row(rows), 504) + beyond(n, near_row(rows), 504) + beyond(
        n,
        glow_row(rows),
        3228,
    )
}

/// One row adds no more than the bounds grow by.
proof fn lemma_row_cost(
    stops: Seq<Stop>,
    levels: Seq<i64>,
    row: int,
    rows: int,
    background: [i64; 3],
)
    requires
        0 <= row < rows <= ROWS,
        row_curve(levels, row, rows).len() == 63 * row_subdiv(row, rows) + 1,
    ensures
        row_fill(levels, row, rows, background).cost() + row_line(stops, levels, row, rows).cost()
            <= cost_bound(row + 1, rows) - cost_bound(row, rows),
        row_fill(levels, row, rows, background).facets() + row_line(
            stops,
            levels,
            row,
            rows,
        ).facets() <= facet_bound(row + 1, rows) - facet_bound(row, rows),
{
    lemma_row_age(row, rows);
    let m = row_steps(rows);
    let t = 4 * row + m;
    let q = t / (2 * m);
    if row < middle_row(rows) {
        assert(q == 0) by (nonlinear_arith)
            requires
                q == t / (2 * m),
                t == 4 * row + m,
                4 * row < m,
                row >= 0,
                m >= 1,
        ;
    } else if row < near_row(rows) {
        assert(q <= 1) by (nonlinear_arith)
            requires
                q == t / (2 * m),
                t == 4 * row + m,
                4 * row < 3 * m,
                row >= 0,
                m >= 1,
        ;
    }
    let len = row_curve(levels, row, rows).len() as int;
    assert(3 * (4 * len + 70) == 12 * len + 210);
    assert(3 * (6 * len + 96) == 18 * len + 288);
}

proof fn lemma_bounds(rows: int)
    requires
        1 <= rows <= ROWS,
    ensures
        cost_bound(rows, rows) <= 48_000,
        facet_bound(rows, rows) <= 64_000,
{
}

/// Every point of every row stays below the safe margin, at any aspect ratio:
/// ridges never punch out of the top of the frame.
pub proof fn law_ridges_stay_below_margin(levels: Seq<i64>, row: int, rows: int, i: int)
    requires
        0 <= row < rows <= ROWS,
        0 <= i < row_curve(levels, row, rows).len(),
    ensures
        row_curve(levels, row, rows)[i].y <= SAFE_TOP,
        -ONE <= row_curve(levels, row, rows)[i].x <= ONE,
{
    lemma_row_age(row, rows);
    lemma_row_points(levels, row, rows);
    law_stays_within(
        row_points(levels, row, rows),
        row_subdiv(row, rows),
        -ONE as int,
        SAFE_TOP as int,
    );
}

/// Highest a row can reach: full scale above its baseline.
spec fn row_top(row: int) -> int {
    RIDGE_TOP + AMP - row * ROW_SPACING
}

proof fn lemma_row_top(levels: Seq<i64>, row: int, rows: int)
    requires
        0 <= row < rows <= ROWS,
    ensures
        row_curve(levels, row, rows).len() >= 2,
        forall|i: int|
            0 <= i < row_curve(levels, row, rows).len() ==> near(
                #[trigger] row_curve(levels, row, rows)[i],
            ) && row_curve(levels, row, rows)[i].y <= row_top(row),
{
    let pts = row_points(levels, row, rows);
    lemma_row_age(row, rows);
    lemma_row_points(levels, row, rows);
    assert forall|i: int| 0 <= i < 64 implies -ONE <= (#[trigger] pts[i]).y <= row_top(row) by {
        law_ridge_height(levels[i] as int, levels[i] as int);
    }
    law_stays_within(pts, row_subdiv(row, rows), -ONE as int, row_top(row));
    let n = row_subdiv(row, rows);
    assert((pts.len() - 1) * n >= 1) by (nonlinear_arith)
        requires
            pts.len() - 1 >= 1,
            n >= 1,
    ;
}

/// Reach of a row's line on a screen of at least 570 pixels, given its widest
/// stroke, at the sharpest joint.
proof fn lemma_row_reach(width: int, height: int, stretch: int)
    requires
        1_000_000_000 < width <= 15_080_000_000,
        570 <= height <= MAX_SIDE,
        0 <= stretch <= MITER_LIMIT,
    ensures
        width <= 1_300_000_000 ==> stroke_reach(width, height, stretch) <= 40_000_000,
        width <= 2_600_000_000 ==> stroke_reach(width, height, stretch) <= 60_000_000,
        stroke_reach(width, height, stretch) <= 120_000_000,
        height >= 854 ==> stroke_reach(width, height, stretch) <= 80_000_000,
{
    let px = pixel(height);
    assert(0 <= px <= 3_508_771 && (height >= 854 ==> px <= 2_341_920)) by (nonlinear_arith)
        requires
            px == 2_000_000_000int / height,
            height >= 570,
    ;
    let n = width * px;
    assert(0 <= n <= 15_080_000_000 * px) by (nonlinear_arith)
        requires
            n == width * px,
            0 <= width <= 15_080_000_000,
            0 <= px,
    ;
    if width <= 2_600_000_000 {
        assert(n <= 2_600_000_000 * px) by (nonlinear_arith)
            requires
                n == width * px,
                width <= 2_600_000_000,
                0 <= px,
        ;
    }
    if width <= 1_300_000_000 {
        assert(n <= 1_300_000_000 * px) by (nonlinear_arith)
            requires
                n == width * px,
                width <= 1_300_000_000,
                0 <= px,
        ;
    }
    let reach = half_width(width, height) + px;
    assert(reach * stretch <= reach * 4_000_000_000) by (nonlinear_arith)
        requires
            0 <= reach,
            0 <= stretch <= 4_000_000_000,
    ;
}

/// The widest stroke of a row: that of its halo, where it has one.
pub open spec fn row_widest(row: int, rows: int) -> int {
    let width = row_width(row_age(row, rows));
    if row_glows(row, rows) {
        glow_width(width, 2)
    } else {
        width
    }
}

/// Highest a vertex may be: the safe margin and two hundredths, which are kept
/// for the stroke itself.
pub const VERTEX_TOP: i64 = 980_000_000;

/// At every joint of a row, its widest stroke stays below the top.
pub open spec fn row_clear(
    levels: Seq<i64>,
    row: int,
    rows: int,
    aspect: int,
    height: int,
) -> bool {
    clear_below(
        row_curve(levels, row, rows),
        row_widest(row, rows),
        aspect,
        height,
        VERTEX_TOP as int,
    )
}

/// A screen tall enough for any row, however sharp its corners: a corner can
/// stretch a halo fourfold, and with two rows the one with a halo is still near
/// the top.
pub open spec fn roomy(rows: int, height: int) -> bool {
    570 <= height && (rows == 2 ==> 854 <= height)
}

/// On a tall enough screen every row is clear, whatever its levels.
pub proof fn law_tall_screens_are_clear(
    levels: Seq<i64>,
    row: int,
    rows: int,
    aspect: int,
    height: int,
)
    requires
        0 <= row < rows <= ROWS,
        roomy(rows, height),
        height <= MAX_SIDE,
    ensures
        row_clear(levels, row, rows, aspect, height),
{
    let pts = row_curve(levels, row, rows);
    let wide = row_widest(row, rows);
    let normals = stroke_normals(pts, aspect);
    lemma_row_age(row, rows);
    lemma_row_top(levels, row, rows);
    if row == 0 {
        assert(0 * ONE / row_steps(rows) == 0) by (nonlinear_arith)
            requires
                row_steps(rows) >= 1,
        ;
    }
    lemma_row_widest(row, rows);
    assert forall|i: int| 0 <= i < pts.len() implies pts[i].y + stroke_reach(
        wide,
        height,
        (#[trigger] join(normals, i)).1,
    ) <= VERTEX_TOP by {
        lemma_join(pts, aspect, i);
        assert(pts[i].y <= row_top(row));
        lemma_row_reach(wide, height, join(normals, i).1);
    }
}

proof fn lemma_row_widest(row: int, rows: int)
    requires
        0 <= row < rows <= ROWS,
    ensures
        1_000_000_000 < row_width(row_age(row, rows)) <= row_widest(row, rows) <= 15_080_000_000,
{
    let width = row_width(row_age(row, rows));
    lemma_row_age(row, rows);
    assert(width * (10 + 24 * 2) == 58 * width) by (nonlinear_arith);
}

/// Every vertex of a row stays where `law_ridge_vertices_below_margin` says.
proof fn lemma_row_vertices<F: Fn(i64) -> Point>(
    stops: Seq<Stop>,
    background: [i64; 3],
    levels: Seq<i64>,
    row: int,
    rows: int,
    before: &MeshBuilder<F>,
    mid: &MeshBuilder<F>,
    after: &MeshBuilder<F>,
)
    requires
        0 <= row < rows <= ROWS,
        1 <= before.height_px <= MAX_SIDE,
        row_clear(levels, row, rows, before.aspect as int, before.height_px as int),
        mid.marked(before, row_fill(levels, row, rows, background)),
        after.marked(mid, row_line(stops, levels, row, rows)),
    ensures
        mid.kept_below(before, SAFE_TOP as int),
        after.kept_below(mid, VERTEX_TOP as int),
{
    let pts = row_curve(levels, row, rows);
    let age = row_age(row, rows);
    let width = row_width(age);
    lemma_row_age(row, rows);
    lemma_row_top(levels, row, rows);
    lemma_row_widest(row, rows);
    assert forall|i: int| 0 <= i < pts.len() implies (#[trigger] pts[i]).y <= SAFE_TOP by {
        law_ridges_stay_below_margin(levels, row, rows, i);
    }
    law_fill_kept_below(
        before,
        mid,
        pts,
        row_baseline(row) - OCCLUDE_SPACINGS * ROW_SPACING,
        uniform(opaque(background), pts.len()),
        SAFE_TOP as int,
    );
    let colors = row_colors(stops, pts, row_baseline(row), row_alpha(age));
    if row_glows(row, rows) {
        law_glow_kept_below(mid, after, pts, width, colors, 2, VERTEX_TOP as int);
    } else {
        law_stroke_kept_below(mid, after, pts, width, false, colors, VERTEX_TOP as int);
    }
}

proof fn lemma_ridge_marks(
    stops: Seq<Stop>,
    background: [i64; 3],
    history: Seq<Seq<i64>>,
    n: int,
    k: int,
)
    requires
        0 <= k < n,
    ensures
        ridge_marks(stops, background, history, n).len() == 2 * n,
        ridge_marks(stops, background, history, n)[2 * k] == row_fill(
            history[k],
            k,
            history.len() as int,
            background,
        ),
        ridge_marks(stops, background, history, n)[2 * k + 1] == row_line(
            stops,
            history[k],
            k,
            history.len() as int,
        ),
    decreases n,
{
    reveal_with_fuel(ridge_marks, 2);
    if n > 1 {
        lemma_ridge_marks(
            stops,
            background,
            history,
            n - 1,
            if k == n - 1 {
                0
            } else {
                k
            },
        );
    }
}

/// Every vertex that the first `n` rows add to a mesh stays below the safe margin
/// and the two hundredths that are kept for the stroke itself, caps, fringe and
/// halo included: whatever the levels on a tall enough screen, and on any screen
/// where no joint lifts the stroke past it.
pub proof fn law_ridge_vertices_below_margin<F: Fn(i64) -> Point>(
    stops: Seq<Stop>,
    background: [i64; 3],
    history: Seq<Seq<i64>>,
    n: int,
    before: &MeshBuilder<F>,
    after: &MeshBuilder<F>,
)
    requires
        0 <= n <= history.len() <= ROWS,
        1 <= before.height_px <= MAX_SIDE,
        roomy(history.len() as int, before.height_px as int) || forall|r: int|
            0 <= r < history.len() ==> #[trigger] row_clear(
                history[r],
                r,
                history.len() as int,
                before.aspect as int,
                before.height_px as int,
            ),
        after.painted(
            before,
            ridge_marks(stops, background, history, history.len() as int),
            2 * n,
        ),
    ensures
        after.kept_below(before, VERTEX_TOP as int),
    decreases n,
{
    if n > 0 {
        let rows = history.len() as int;
        let list = ridge_marks(stops, background, history, rows);
        lemma_ridge_marks(stops, background, history, rows, n - 1);
        let filled = choose|filled: MeshBuilder<F>| #[trigger]
            after.marked(&filled, list[2 * n - 1]) && filled.painted(before, list, 2 * n - 1);
        let bare = choose|bare: MeshBuilder<F>| #[trigger]
            filled.marked(&bare, list[2 * n - 2]) && bare.painted(before, list, 2 * n - 2);
        law_ridge_vertices_below_margin(stops, background, history, n - 1, before, &bare);
        if roomy(rows, before.height_px as int) {
            law_tall_screens_are_clear(
                history[n - 1],
                n - 1,
                rows,
                before.aspect as int,
                before.height_px as int,
            );
        }
        assert(row_clear(
            history[n - 1],
            n - 1,
            rows,
            before.aspect as int,
            before.height_px as int,
        ));
        lemma_row_vertices(
            stops,
            background,
            history[n - 1],
            n - 1,
            rows,
            &bare,
            &filled,
            after,
        );
        assert forall|k: int| before.count() <= k < after.count() implies (
        #[trigger] after.verts@[k]).position.y <= VERTEX_TOP by {
            if k < filled.count() {
                assert(after.verts@[k] == filled.verts@[k]);
                if k < bare.count() {
                    assert(filled.verts@[k] == bare.verts@[k]);
                }
                assert(filled.verts@[k].position.y <= VERTEX_TOP);
            }
        }
        assert forall|k: int| 0 <= k < before.count() implies after.verts@[k]
            == before.verts@[k] by {
            assert(bare.verts@[k] == before.verts@[k]);
            assert(filled.verts@[k] == bare.verts@[k]);
            assert(after.verts@[k] == filled.verts@[k]);
        }
    }
}

/// A row is a picture of its levels: over the place of band `b`, from the lowest at
/// the left to the highest at the right, its line stands above the row's baseline
/// by the ridge height of that band's own level. The baseline of row `row` is 0.32,
/// less 0.04 for each row before it, and a row spreads from 0.72 of the width at the
/// top to all of it at the bottom.
pub proof fn law_row_shows_its_levels(levels: Seq<i64>, row: int, rows: int, b: int)
    requires
        0 <= row < rows <= 30,
        0 <= b < 64,
    ensures
        ({
            let pts = row_curve(levels, row, rows);
            let n = (pts.len() - 1) / 63;
            let p = pts[b * n];
            let steps = if rows < 2 {
                1
            } else {
                rows - 1
            };
            let spread = 720_000_000 + row * 1_000_000_000 / steps * 28 / 100;
            let across = 2 * b * 1_000_000_000 / 63 - 1_000_000_000;
            &&& pts.len() == 63 * n + 1
            &&& 2 <= n <= 4
            &&& 2 * steps * (n - 2) <= 4 * row + steps < 2 * steps * (n - 1)
            &&& p.y == 320_000_000 - 40_000_000 * row + height_at(levels[b] as int)
            &&& -1_000_000_000 < p.x * 1_000_000_000 - across * spread < 1_000_000_000
        }),
{
    lemma_row_age(row, rows);
    lemma_row_points(levels, row, rows);
    let n = row_subdiv(row, rows);
    let pts = row_points(levels, row, rows);
    law_curve_through(pts, n, b);
    let m = row_steps(rows);
    let t = 4 * row + m;
    vstd::arithmetic::div_mod::lemma_fundamental_div_mod(t, 2 * m);
    vstd::arithmetic::div_mod::lemma_mod_bound(t, 2 * m);
    assert(2 * m * (n - 2) <= t < 2 * m * (n - 1)) by (nonlinear_arith)
        requires
            t == 2 * m * (n - 2) + t % (2 * m),
            0 <= t % (2 * m) < 2 * m,
    ;
    assert((63 * n + 1 - 1) / 63 == n);
    law_ridge_height(levels[b] as int, levels[b] as int);
    let squeeze = row_squeeze(row_age(row, rows));
    let across = 2 * b * 1_000_000_000 / 63 - 1_000_000_000;
    let v = across * squeeze;
    lemma_row_x(b, b, squeeze);
    assert(pts[b].x == trunc(v, 1_000_000_000));
}

/// The height of a ridge is 0.012 at rest and 0.62 at full scale, and follows the
/// smooth step in between.
pub proof fn law_ridge_follows_smooth_step(s: int)
    ensures
        ({
            let h = height_at(s);
            -1_000_000_000 < 1_000_000_000 * (h - 12_000_000) - 608_000_000 * smooth(s) <= 0
        }),
{
    assert(smooth(s) == smooth(clamped(s, 0, ONE as int)));
    law_smooth_monotone(0, clamped(s, 0, ONE as int));
    law_smooth_monotone(clamped(s, 0, ONE as int), 1_000_000_000);
}

/// Two rows that differ in one band differ over that band: a louder level stands no
/// lower there, and higher where the height map rises.
pub proof fn law_louder_band_stands_higher(
    quiet: Seq<i64>,
    loud: Seq<i64>,
    row: int,
    rows: int,
    b: int,
)
    requires
        0 <= row < rows <= 30,
        0 <= b < 64,
        quiet[b] <= loud[b],
    ensures
        ({
            let n = (row_curve(quiet, row, rows).len() - 1) / 63;
            let (p, q) = (row_curve(quiet, row, rows)[b * n], row_curve(loud, row, rows)[b * n]);
            &&& p.x == q.x
            &&& p.y <= q.y
            &&& q.y - p.y == height_at(loud[b] as int) - height_at(quiet[b] as int)
        }),
{
    law_row_shows_its_levels(quiet, row, rows, b);
    law_row_shows_its_levels(loud, row, rows, b);
    law_ridge_height(quiet[b] as int, loud[b] as int);
    lemma_row_age(row, rows);
    lemma_row_points(quiet, row, rows);
    lemma_row_points(loud, row, rows);
    law_curve_through(row_points(quiet, row, rows), row_subdiv(row, rows), b);
    law_curve_through(row_points(loud, row, rows), row_subdiv(row, rows), b);
}

/// A drawn bed is its rows from the oldest to the newest. Each is an opaque fill in
/// the background's color down to two row spacings below its baseline, then its
/// line along the same curve. Both follow that row's own levels.
pub proof fn law_bed_draws_its_rows<
    E: Fn(u64, u64) -> i64,
    P: Fn(i64, i64) -> i64,
    W: Fn(i64) -> i64,
    S: Fn(i64) -> i64,
>(
    before: RidgeBed,
    after: RidgeBed,
    frame: &FrameData,
    screen: Screen,
    curves: &Curves<E, P, W, S>,
    shapes: Seq<Shape>,
    r: int,
)
    requires
        RidgeBed::drawn(before, after, frame, screen, curves, shapes),
        0 <= r < after.history@.len(),
    ensures
        ({
            let list = marks(shapes);
            let rows = after.history@.len() as int;
            let pts = row_curve(after.history@[r]@, r, rows);
            let fill = list[2 * r];
            &&& list.len() == 2 * rows
            &&& fill is Fill
            &&& fill->Fill_pts == pts
            &&& fill->Fill_baseline == 240_000_000 - 40_000_000 * r
            &&& fill->Fill_colors.len() == pts.len()
            &&& forall|i: int|
                0 <= i < pts.len() ==> (#[trigger] fill->Fill_colors[i])@ == seq![
                    frame.background[0],
                    frame.background[1],
                    frame.background[2],
                    1_000_000_000i64,
                ]
            &&& list[2 * r + 1] == row_line(frame.stops@, after.history@[r]@, r, rows)
        }),
{
    let rows = after.history@.len() as int;
    lemma_ridge_marks(frame.stops@, frame.background, rows_of(after.history@), rows, r);
    let fill = marks(shapes)[2 * r];
    assert forall|i: int| 0 <= i < fill->Fill_colors.len() implies (
    #[trigger] fill->Fill_colors[i])@ == seq![
        frame.background[0],
        frame.background[1],
        frame.background[2],
        1_000_000_000i64,
    ] by {
        assert(fill->Fill_colors[i]@ =~= seq![
            frame.background[0],
            frame.background[1],
            frame.background[2],
            1_000_000_000i64,
        ]);
    }
}

/// The line of a row widens from 1.3 pixels for the oldest to 2.6 for the newest and
/// turns from 0.45 to full strength; the newest rows glow. Every point is colored by
/// how far it stands above the row's baseline and how far along the row it is.
pub proof fn law_row_line(
    stops: Seq<Stop>,
    levels: Seq<i64>,
    row: int,
    rows: int,
    i: int,
) -> (tone: int)
    requires
        0 <= row < rows <= 30,
        0 <= i < row_curve(levels, row, rows).len(),
    ensures
        ({
            let m = row_line(stops, levels, row, rows);
            let pts = row_curve(levels, row, rows);
            let steps = if rows < 2 {
                1
            } else {
                rows - 1
            };
            let age = row * 1_000_000_000 / steps;
            let glows = 100 * row > 92 * steps;
            let y = pts[i].y - (320_000_000 - 40_000_000 * row);
            let color = faded(
                ramp_color(stops, tone, i * 1_000_000_000 / (pts.len() - 1)),
                450_000_000 + age * 55 / 100,
            );
            &&& glows ==> m is Glow && m->Glow_pts == pts && m->Glow_layers == 2 && m->Glow_width
                == 1_300_000_000 + age * 13 / 10 && m->Glow_colors[i] == color
                && m->Glow_colors.len() == pts.len()
            &&& !glows ==> m is Stroke && m->Stroke_pts == pts && !m->Stroke_additive
                && m->Stroke_width == 1_300_000_000 + age * 13 / 10 && m->Stroke_colors[i] == color
                && m->Stroke_colors.len() == pts.len()
            &&& 0 <= tone <= 1_000_000_000
            &&& y <= 0 ==> tone == 0
            &&& y >= 620_000_000 ==> tone == 1_000_000_000
            &&& 0 <= y <= 620_000_000 ==> 62 * tone <= 100 * y < 62 * tone + 62
        }),
{
    let pts = row_curve(levels, row, rows);
    row_tone(pts[i].y as int, row_baseline(row))
}

/// A bed takes a new row when it has none, or when 50 milliseconds have passed since
/// the last one: the new row goes last, and the oldest of thirty leaves. In between
/// nothing changes but the time.
pub proof fn law_bed_scrolls<
    E: Fn(u64, u64) -> i64,
    P: Fn(i64, i64) -> i64,
    W: Fn(i64) -> i64,
    S: Fn(i64) -> i64,
>(
    before: RidgeBed,
    after: RidgeBed,
    bands: Seq<Sample>,
    time: u64,
    curves: &Curves<E, P, W, S>,
    r: int,
)
    requires
        RidgeBed::stepped(before, after, bands, time, curves),
        before.wf(),
        0 <= r < after.history@.len(),
    ensures
        ({
            let dt = tick_of(before.clock.last, time);
            let had = before.history@.len() as int;
            let has = after.history@.len() as int;
            let due = had == 0 || before.since_row + dt >= 50_000_000;
            &&& after.clock.last == Some(time)
            &&& due && had < 30 ==> has == had + 1
            &&& due && had >= 30 ==> has == had
            &&& due ==> after.since_row == 0
            &&& due && r < has - 1 ==> after.history@[r]@ == before.history@[r + had + 1 - has]@
            &&& !due ==> has == had && after.history@[r]@ == before.history@[r]@
            &&& !due ==> after.since_row == before.since_row + dt && after.range == before.range
            &&& due && r == has - 1 ==> shaped_row(
                curves.power,
                curves.sine,
                after.range.hi as int,
                tilted_row(bands),
                time,
                after.history@[r]@,
            )
        }),
{
    let a = rows_of(after.history@);
    let b = rows_of(before.history@);
    assert(a[r] == after.history@[r]@);
    assert(a.len() == after.history@.len() && b.len() == before.history@.len());
    let dt = tick_of(before.clock.last, time);
    if row_due(before.since_row as int, dt as int, before.history@.len() as int) {
        let new = after.history@.last()@;
        assert(a == scrolled(b, new));
        if b.len() >= 30 {
            assert(scrolled(b, new) == b.drop_first().push(new));
            if r < a.len() - 1 {
                assert(a[r] == b[r + 1]);
            }
        } else {
            if r < a.len() - 1 {
                assert(a[r] == b[r]);
            }
        }
    }
}

/// The new row holds, for each band, that band's own tilted level, stretched by the
/// window, bent by an exponent of 0.65 and lifted by the breath; and the window has
/// followed the loudest of them.
pub proof fn law_row_is_shaped<P: Fn(i64, i64) -> i64, W: Fn(i64) -> i64>(
    power: P,
    sine: W,
    hi: int,
    bands: Seq<Sample>,
    time: u64,
    row: Seq<i64>,
    i: int,
) -> (r: (i64, int))
    requires
        shaped_row(power, sine, hi, tilted_row(bands), time, row),
        0 <= i < 64,
    ensures
        ({
            let (bent, breath) = r;
            let level = stretched(hi, tilted(raw_level(bands, i), i));
            &&& row.len() == 64
            &&& call_ensures(power, (level as i64, 650_000_000i64), bent)
            &&& breathed(sine, i, time, breath)
            &&& 0 <= row[i] <= 1_000_000_000
            &&& 0 <= bent <= 1_000_000_000 && 0 <= bent + breath <= 1_000_000_000 ==> row[i] == bent
                + breath
            &&& 0 <= bent <= 1_000_000_000 && bent + breath > 1_000_000_000 ==> row[i]
                == 1_000_000_000
        }),
{
    assert(shaped_level(power, sine, stretched(hi, tilted_row(bands)[i]), i, time, row[i]));
    let level = stretched(hi, tilted_row(bands)[i]);
    choose|a: i64, b: int|
        #![trigger call_ensures(power, (level as i64, RESPONSE_EXP), a), breathed(sine, i, time, b)]
        call_ensures(power, (level as i64, RESPONSE_EXP), a) && breathed(sine, i, time, b) && row[i]
            == shaped(a as int, b)
}

/// The tilt multiplies a band's own level by one plus a lift that grows evenly from
/// nothing at the lowest band to 0.2437 at the highest, up to full scale.
pub proof fn law_tilt(bands: Seq<Sample>, i: int)
    requires
        0 <= i < 64,
    ensures
        ({
            let raw = raw_level(bands, i);
            let t = tilted(raw, i);
            &&& -5670 < 5670 * lift(i) - i * 21_934_000_000 <= 0
            &&& 0 <= raw <= 1_000_000_000
            &&& raw <= t <= 1_000_000_000
            &&& t < 1_000_000_000 ==> -1_000_000_000 < 1_000_000_000 * (t - raw) - raw * lift(i)
                <= 0
            &&& i < bands.len() && bands[i].finite() && 0 <= bands[i].fixed() <= 1_000_000_000
                ==> raw == bands[i].fixed()
            &&& i < bands.len() && bands[i].finite() && bands[i].fixed() > 1_000_000_000 ==> raw
                == 1_000_000_000
            &&& i >= bands.len() || !bands[i].finite() || bands[i].fixed() < 0 ==> raw == 0
        }),
{
    let raw = raw_level(bands, i);
    let l = lift(i);
    assert(raw * (1_000_000_000 + l) == raw * 1_000_000_000 + raw * l) by (nonlinear_arith);
    assert(raw * l >= 0) by (nonlinear_arith)
        requires
            raw >= 0,
            l >= 0,
    ;
}

/// The loudest of a row's tilted levels is what the window follows: no level is
/// above it, and it is one of them, or silence.
pub proof fn law_row_peak(row: Seq<int>, n: int, i: int)
    requires
        0 <= i < n <= row.len(),
    ensures
        row[i] <= row_peak(row, n),
        0 <= row_peak(row, n),
        row_peak(row, n) == 0 || exists|j: int| 0 <= j < n && row_peak(row, n) == #[trigger] row[j],
    decreases n,
{
    if n > 1 {
        law_row_peak(row, n - 1, if i < n - 1 {
            i
        } else {
            0
        });
    } else {
        assert(row_peak(row, 0) == 0);
        assert(row_peak(row, 1) == 0 || row_peak(row, 1) == row[0]);
    }
}

/// The breath mixes two slow sines, six parts to four, into a swell of at most 0.055:
/// none at their lowest, all of it at their highest, half in the middle.
pub proof fn law_breath_mixes(a: int, b: int)
    requires
        -1_000_000_000 <= a <= 1_000_000_000,
        -1_000_000_000 <= b <= 1_000_000_000,
    ensures
        ({
            let v = breath_level(a, b);
            0 <= 33 * a + 22 * b + 55_000_000_000 - 2000 * v < 2000
        }),
{
}

/// Each sine of the breath turns at its own rate, 0.07 and 0.11 turns per second,
/// and is shifted by its own phase from one band to the next.
pub proof fn law_breath_turns<W: Fn(i64) -> i64>(sine: W, i: int, time: u64, v: int) -> (r: (
    i64,
    i64,
))
    requires
        breathed(sine, i, time, v),
    ensures
        ({
            let turn = |hz: int| (time * hz / 1_000_000_000) % 1_000_000_000;
            let angle = |hz: int, phase: int|
                turn(hz) * 6_283_185_307 / 1_000_000_000 + i * phase;
            &&& call_ensures(sine, (angle(70_000_000, 190_000_000) as i64,), r.0)
            &&& call_ensures(sine, (angle(110_000_000, 323_000_000) as i64,), r.1)
            &&& -1_000_000_000 <= r.0 <= 1_000_000_000 && -1_000_000_000 <= r.1 <= 1_000_000_000
                ==> 0 <= 33 * r.0 + 22 * r.1 + 55_000_000_000 - 2000 * v < 2000
        }),
{
    let (a, b) = choose|a: i64, b: i64|
        #![trigger call_ensures(
            sine,
            (breath_angle(i, time as int, BREATH_HZ_A as int, BREATH_PHASE_A as int) as i64,),
            a,
        ), call_ensures(
            sine,
            (breath_angle(i, time as int, BREATH_HZ_B as int, BREATH_PHASE_B as int) as i64,),
            b,
        )]
        call_ensures(
            sine,
            (breath_angle(i, time as int, BREATH_HZ_A as int, BREATH_PHASE_A as int) as i64,),
            a,
        ) && call_ensures(
            sine,
            (breath_angle(i, time as int, BREATH_HZ_B as int, BREATH_PHASE_B as int) as i64,),
            b,
        ) && v == breath_level(a as int, b as int);
    (a, b)
}

/// When a row is due the range follows the loudest level of that row, tilted as it is
/// shown, over the time since the last frame.
pub proof fn law_bed_follows_its_peak<
    E: Fn(u64, u64) -> i64,
    P: Fn(i64, i64) -> i64,
    W: Fn(i64) -> i64,
    S: Fn(i64) -> i64,
>(
    before: RidgeBed,
    after: RidgeBed,
    bands: Seq<Sample>,
    time: u64,
    curves: &Curves<E, P, W, S>,
)
    requires
        RidgeBed::stepped(before, after, bands, time, curves),
    ensures
        ({
            let dt = tick_of(before.clock.last, time);
            let due = before.history@.len() == 0 || before.since_row + dt >= 50_000_000;
            due ==> AutoRange::followed(
                before.range,
                after.range,
                row_peak(tilted_row(bands), 64),
                dt,
                &curves.ease,
            )
        }),
{
}

} // verus!
