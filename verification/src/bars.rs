//! Bars: mirrored spectrum bars with falling peak markers.

use crate::geometry::{aspect, lemma_aspect, pixel, point, px, screen_width, to_px};
use crate::motion::{
    AutoRange, Clock, DT_CEILING, applied, law_ceiling_is_full_scale, law_silence_stays_dark,
    tick_of,
};
use crate::number::{clamp, clamped, mul_div, Sample, ONE};
use crate::palette::{ramp_at, ramp_color, valid_stops, Stop};
use crate::shape::{
    all_in_gamut, all_near, all_valid, lemma_marks_push, lemma_total_concat, marks, total_cost,
    total_facets, Curves, FrameData, Mark, Screen, Shape, Visualizer, NUM_BANDS,
};
use crate::spline::Point;
use vstd::prelude::*;

verus! {

/// Distance between bars.
pub const BAR_PITCH: i64 = 31_250_000;

/// Width of a bar; the rest of the pitch is the gap.
pub const BAR_WIDTH: i64 = 25_625_000;

/// Level above which a bar is a column; below it a bar is shorter than it is
/// wide, and drawn as a flat pill.
pub const BAR_MIN_LEVEL: i64 = 4_000_000;

/// Peak levels are kept in hundredths of a unit, in which the fall of 0.36 of
/// full scale per second is exactly 36 per nanosecond.
pub const PEAK_SCALE: i64 = 100;

/// Fall of a peak marker per nanosecond.
pub const PEAK_FALL: i64 = 36;

/// Full scale of a peak.
pub const PEAK_MAX: i64 = 100_000_000_000;

/// A peak after a frame: it snaps up instantly, then sinks at a fixed rate.
pub open spec fn peak_after(peak: int, level: int, dt: int) -> int {
    let top = if peak < PEAK_SCALE * level {
        PEAK_SCALE * level
    } else {
        peak
    };
    clamped(top - PEAK_FALL * dt, 0, PEAK_MAX as int)
}

/// Half-height of a bar: never less than the resting height of a pixel and a
/// half.
pub open spec fn bar_half(level: int, height: int) -> int {
    let h = level * 9 / 10;
    let rest = 3 * pixel(height) / 2;
    if h < rest {
        rest
    } else {
        h
    }
}

/// Left edge of bar `i`.
pub open spec fn bar_left(i: int) -> int {
    -ONE + i * BAR_PITCH
}

/// Frequency position of bar `i`.
pub open spec fn bar_freq(i: int) -> int {
    i * ONE / 63
}

/// Position on the ramp at absolute height `y`: the gradient is sampled at
/// absolute height, so a quiet bar shows only the cool end of it.
pub open spec fn bar_tone(y: int) -> int {
    clamped((if y < 0 {
        -y
    } else {
        y
    }) * 10 / 9, 0, ONE as int)
}

/// Height of sample `k` of a column.
pub open spec fn column_y(half: int, k: int) -> int {
    -half + half * k / 12
}

/// Points of a column.
pub open spec fn column_points(i: int, half: int) -> Seq<Point> {
    Seq::new(25, |k: int| point(bar_left(i) + 12_812_500, column_y(half, k)))
}

/// Colors of a column.
pub open spec fn column_colors(stops: Seq<Stop>, i: int, half: int) -> Seq<[i64; 4]> {
    Seq::new(25, |k: int| ramp_color(stops, bar_tone(column_y(half, k)), bar_freq(i)))
}

/// The bar of band `i`: a column, or a pill at the tip color when it is short.
pub open spec fn bar_mark(stops: Seq<Stop>, screen: Screen, i: int, level: int) -> Mark {
    let half = bar_half(level, screen.height as int);
    if level > BAR_MIN_LEVEL {
        Mark::Stroke {
            pts: column_points(i, half),
            width: screen.across(BAR_WIDTH as int),
            additive: false,
            colors: column_colors(stops, i, half),
        }
    } else {
        Mark::RoundRect {
            x0: bar_left(i),
            y0: -half,
            x1: bar_left(i) + BAR_WIDTH,
            y1: half,
            radius: screen.across(BAR_WIDTH as int) / 2,
            color: ramp_color(stops, bar_tone(half), bar_freq(i)),
        }
    }
}

/// A peak marker is shown while it stands clear of its bar.
pub open spec fn marker_shown(peak: int, level: int) -> bool {
    peak > PEAK_SCALE * level + ONE
}

/// The marker of band `i`, above the bar or mirrored below it.
pub open spec fn marker_mark(
    stops: Seq<Stop>,
    screen: Screen,
    i: int,
    peak: int,
    upper: bool,
) -> Mark {
    let py = peak * 9 / 1000;
    let thick = 3 * pixel(screen.height as int);
    Mark::RoundRect {
        x0: bar_left(i),
        y0: if upper {
            py
        } else {
            -py - thick
        },
        x1: bar_left(i) + BAR_WIDTH,
        y1: if upper {
            py + thick
        } else {
            -py
        },
        radius: thick / 2,
        color: ramp_color(stops, peak / 100, bar_freq(i)),
    }
}

/// Marks of band `i`.
pub open spec fn band_marks(
    stops: Seq<Stop>,
    screen: Screen,
    i: int,
    level: int,
    peak: int,
) -> Seq<Mark> {
    if marker_shown(peak, level) {
        seq![
            bar_mark(stops, screen, i, level),
            marker_mark(stops, screen, i, peak, true),
            marker_mark(stops, screen, i, peak, false),
        ]
    } else {
        seq![bar_mark(stops, screen, i, level)]
    }
}

/// Marks of the first `n` bands.
pub open spec fn bars_marks(
    stops: Seq<Stop>,
    screen: Screen,
    hi: int,
    bands: Seq<Sample>,
    peaks: Seq<i64>,
    n: int,
) -> Seq<Mark>
    decreases n,
{
    if n <= 0 {
        Seq::empty()
    } else {
        bars_marks(stops, screen, hi, bands, peaks, n - 1) + band_marks(
            stops,
            screen,
            n - 1,
            applied(hi, bands[n - 1]),
            peaks[n - 1] as int,
        )
    }
}

/// Sinking for two stretches of time in turn lands where one stretch of their
/// sum lands, whatever the frame rate.
pub proof fn law_peak_fall_composes(peak: int, level: int, s: int, t: int)
    requires
        0 <= peak <= PEAK_MAX,
        0 <= level <= ONE,
        0 <= s,
        0 <= t,
        PEAK_SCALE * level <= peak_after(peak, level, s),
    ensures
        peak_after(peak_after(peak, level, s), level, t) == peak_after(peak, level, s + t),
{
}

/// A peak never lies below its bar by more than one frame's fall.
pub proof fn law_peak_follows_bar(peak: int, level: int, dt: int)
    requires
        0 <= peak <= PEAK_MAX,
        0 <= level <= ONE,
        0 <= dt,
    ensures
        peak_after(peak, level, dt) >= PEAK_SCALE * level - PEAK_FALL * dt,
        peak_after(peak, level, dt) <= (if peak < PEAK_SCALE * level {
            PEAK_SCALE * level
        } else {
            peak
        }),
        0 <= peak_after(peak, level, dt) <= PEAK_MAX,
{
}

/// Mirrored spectrum bars with falling peak markers.
pub struct Bars {
    pub peaks: Vec<i64>,
    pub clock: Clock,
    pub range: AutoRange,
}

impl Bars {
    /// Bars at rest.
    pub fn new() -> (r: Self)
        ensures
            r.wf(),
            r.peaks@ == Seq::new(64, |i: int| 0i64),
            r.clock.last is None,
            r.range.hi == crate::motion::RANGE_SPAN,
    {
        let mut peaks: Vec<i64> = Vec::with_capacity(NUM_BANDS);
        let mut i: usize = 0;
        while i < NUM_BANDS
            invariant
                i <= NUM_BANDS,
                peaks@ == Seq::new(i as nat, |i: int| 0i64),
            decreases NUM_BANDS - i,
        {
            peaks.push(0);
            assert(peaks@ =~= Seq::new((i + 1) as nat, |i: int| 0i64));
            i = i + 1;
        }
        Bars { peaks, clock: Clock::default(), range: AutoRange::new() }
    }
}

/// What one band of the bars needs of the screen.
struct BarScreen {
    px: i64,
    bar_px: i64,
}

fn bar_screen(screen: Screen) -> (r: BarScreen)
    requires
        screen.wf(),
    ensures
        r.px == pixel(screen.height as int),
        30_000 <= r.px <= 2 * ONE,
        r.bar_px == screen.across(BAR_WIDTH as int),
        0 <= r.bar_px <= 1_000_000_000_000,
{
    let a: i64 = aspect(screen.width, screen.height);
    proof {
        lemma_aspect(screen.width as int, screen.height as int);
        assert(0 <= 25_625_000 * a <= 25_625_000 * 65_536_000_000_000);
        let sw = screen_width(25_625_000, a as int);
        let h = screen.height as int;
        let ah = a * h;
        assert(0 <= sw && sw * 1_000_000_000 <= 25_625_000 * a);
        assert(0 <= sw * h && sw * h * 1_000_000_000 <= 25_625_000 * ah) by (nonlinear_arith)
            requires
                0 <= sw,
                sw * 1_000_000_000 <= 25_625_000 * a,
                h >= 1,
                ah == a * h,
        ;
    }
    let wide: i64 = mul_div(BAR_WIDTH, a, ONE);
    BarScreen { px: px(screen.height), bar_px: to_px(wide, screen.height) }
}

fn bar_half_of(level: i64, px: i64, Ghost(height): Ghost<int>) -> (h: i64)
    requires
        0 <= level <= ONE,
        px == pixel(height),
        30_000 <= px <= 2 * ONE,
    ensures
        h == bar_half(level as int, height),
        0 < h <= 3 * ONE,
{
    let h: i64 = level * 9 / 10;
    let rest: i64 = 3 * px / 2;
    if h < rest {
        rest
    } else {
        h
    }
}

fn tone_of(y: i64) -> (t: i64)
    requires
        -10 * ONE <= y <= 10 * ONE,
    ensures
        t == bar_tone(y as int),
        0 <= t <= ONE,
{
    let a: i64 = if y < 0 {
        -y
    } else {
        y
    };
    clamp(a * 10 / 9, 0, ONE)
}

fn column(stops: &[Stop], i: usize, half: i64, width: i64) -> (shape: Shape)
    requires
        valid_stops(stops@),
        i < NUM_BANDS,
        0 <= half <= 3 * ONE,
        0 <= width <= 1_000_000_000_000,
    ensures
        shape@ == (Mark::Stroke {
            pts: column_points(i as int, half as int),
            width: width as int,
            additive: false,
            colors: column_colors(stops@, i as int, half as int),
        }),
        shape@.valid(),
{
    let cx: i64 = -ONE + i as i64 * BAR_PITCH + 12_812_500;
    let freq: i64 = i as i64 * ONE / 63;
    let mut pts: Vec<Point> = Vec::with_capacity(25);
    let mut colors: Vec<[i64; 4]> = Vec::with_capacity(25);
    let mut k: usize = 0;
    while k < 25
        invariant
            k <= 25,
            valid_stops(stops@),
            i < NUM_BANDS,
            0 <= half <= 3 * ONE,
            cx == bar_left(i as int) + 12_812_500,
            freq == bar_freq(i as int),
            0 <= freq <= ONE,
            -2 * ONE <= cx <= 2 * ONE,
            pts@.len() == k,
            colors@.len() == k,
            forall|j: int| 0 <= j < k ==> #[trigger] pts@[j] == column_points(i as int, half as int)[j],
            forall|j: int|
                0 <= j < k ==> #[trigger] colors@[j] == column_colors(
                    stops@,
                    i as int,
                    half as int,
                )[j],
            all_near(pts@),
            all_in_gamut(colors@),
        decreases 25 - k,
    {
        assert(0 <= half * k <= 3_000_000_000 * 24) by (nonlinear_arith)
            requires
                0 <= half <= 3_000_000_000,
                0 <= k <= 24,
        ;
        let y: i64 = -half + half * k as i64 / 12;
        pts.push(Point { x: cx, y });
        colors.push(ramp_at(stops, tone_of(y), freq));
        k = k + 1;
    }
    assert(pts@ =~= column_points(i as int, half as int));
    assert(colors@ =~= column_colors(stops@, i as int, half as int));
    Shape::Stroke { pts, width, additive: false, colors }
}

fn bar(stops: &[Stop], i: usize, level: i64, at: &BarScreen, Ghost(screen): Ghost<Screen>) -> (shape:
    Shape)
    requires
        valid_stops(stops@),
        i < NUM_BANDS,
        0 <= level <= ONE,
        at.px == pixel(screen.height as int),
        30_000 <= at.px <= 2 * ONE,
        at.bar_px == screen.across(BAR_WIDTH as int),
        0 <= at.bar_px <= 1_000_000_000_000,
    ensures
        shape@ == bar_mark(stops@, screen, i as int, level as int),
        shape@.valid(),
{
    let half: i64 = bar_half_of(level, at.px, Ghost(screen.height as int));
    if level > BAR_MIN_LEVEL {
        column(stops, i, half, at.bar_px)
    } else {
        let x0: i64 = -ONE + i as i64 * BAR_PITCH;
        let color: [i64; 4] = ramp_at(stops, tone_of(half), i as i64 * ONE / 63);
        Shape::RoundRect { x0, y0: -half, x1: x0 + BAR_WIDTH, y1: half, radius: at.bar_px / 2, color }
    }
}

fn marker(
    stops: &[Stop],
    i: usize,
    peak: i64,
    px: i64,
    upper: bool,
    Ghost(screen): Ghost<Screen>,
) -> (shape: Shape)
    requires
        valid_stops(stops@),
        i < NUM_BANDS,
        0 <= peak <= PEAK_MAX,
        px == pixel(screen.height as int),
        30_000 <= px <= 2 * ONE,
    ensures
        shape@ == marker_mark(stops@, screen, i as int, peak as int, upper),
        shape@.valid(),
{
    let py: i64 = peak * 9 / 1000;
    let thick: i64 = 3 * px;
    let x0: i64 = -ONE + i as i64 * BAR_PITCH;
    let color: [i64; 4] = ramp_at(stops, peak / 100, i as i64 * ONE / 63);
    if upper {
        Shape::RoundRect {
            x0,
            y0: py,
            x1: x0 + BAR_WIDTH,
            y1: py + thick,
            radius: thick / 2,
            color,
        }
    } else {
        Shape::RoundRect {
            x0,
            y0: -py - thick,
            x1: x0 + BAR_WIDTH,
            y1: -py,
            radius: thick / 2,
            color,
        }
    }
}

/// The level of band `i` under a window with ceiling `hi`, for every band.
proof fn lemma_bars_budget(
    stops: Seq<Stop>,
    screen: Screen,
    hi: int,
    bands: Seq<Sample>,
    peaks: Seq<i64>,
    n: int,
)
    requires
        0 <= n,
        all_valid(bars_marks(stops, screen, hi, bands, peaks, n)),
    ensures
        ({
            let list = bars_marks(stops, screen, hi, bands, peaks, n);
            &&& total_cost(list, list.len() as int) <= 316 * n
            &&& total_facets(list, list.len() as int) <= 462 * n
        }),
    decreases n,
{
    if n > 0 {
        let rest = bars_marks(stops, screen, hi, bands, peaks, n - 1);
        let level = applied(hi, bands[n - 1]);
        let peak = peaks[n - 1] as int;
        let own = band_marks(stops, screen, n - 1, level, peak);
        assert(rest + own == bars_marks(stops, screen, hi, bands, peaks, n));
        assert forall|i: int| 0 <= i < rest.len() implies (#[trigger] rest[i]).valid() by {
            assert((rest + own)[i].valid());
        }
        lemma_bars_budget(stops, screen, hi, bands, peaks, n - 1);
        lemma_total_concat(rest, own);
        assert(own[0] == bar_mark(stops, screen, n - 1, level));
        assert(total_cost(own, 0) == 0 && total_facets(own, 0) == 0);
        assert(total_cost(own, 1) <= 170 && total_facets(own, 1) <= 246);
        if marker_shown(peak, level) {
            assert(total_cost(own, 2) == total_cost(own, 1) + 73);
            assert(total_cost(own, 3) == total_cost(own, 2) + 73);
            assert(total_facets(own, 2) == total_facets(own, 1) + 108);
            assert(total_facets(own, 3) == total_facets(own, 2) + 108);
        }
    }
}

impl Bars {
    /// `after` is what seeing `bands` at `time` leaves of `before`.
    pub open spec fn stepped<E: Fn(u64, u64) -> i64>(
        before: Bars,
        after: Bars,
        bands: Seq<Sample>,
        time: u64,
        ease: &E,
    ) -> bool {
        &&& after.clock.last == Some(time)
        &&& AutoRange::updated(
            before.range,
            after.range,
            bands,
            tick_of(before.clock.last, time),
            ease,
        )
        &&& forall|i: int|
            0 <= i < NUM_BANDS ==> #[trigger] after.peaks@[i] == peak_after(
                before.peaks@[i] as int,
                applied(after.range.hi as int, bands[i]),
                tick_of(before.clock.last, time) as int,
            )
    }

    /// `after` and `shapes` are what drawing `frame` leaves and gives.
    pub open spec fn drawn<
        E: Fn(u64, u64) -> i64,
        P: Fn(i64, i64) -> i64,
        W: Fn(i64) -> i64,
        S: Fn(i64) -> i64,
    >(
        before: Bars,
        after: Bars,
        frame: &FrameData,
        screen: Screen,
        curves: &Curves<E, P, W, S>,
        shapes: Seq<Shape>,
    ) -> bool {
        &&& Bars::stepped(before, after, frame.bands@, frame.time, &curves.ease)
        &&& marks(shapes) == bars_marks(
            frame.stops@,
            screen,
            after.range.hi as int,
            frame.bands@,
            after.peaks@,
            NUM_BANDS as int,
        )
    }
}

impl Visualizer for Bars {
    open spec fn wf(&self) -> bool {
        &&& self.peaks@.len() == NUM_BANDS
        &&& forall|i: int| 0 <= i < NUM_BANDS ==> 0 <= #[trigger] self.peaks@[i] <= PEAK_MAX
        &&& self.range.wf()
    }

    open spec fn label(&self) -> Seq<char> {
        "Bars"@
    }

    fn name(&self) -> (r: &'static str) {
        "Bars"
    }

    fn draw<
        E: Fn(u64, u64) -> i64,
        P: Fn(i64, i64) -> i64,
        W: Fn(i64) -> i64,
        S: Fn(i64) -> i64,
    >(&mut self, frame: &FrameData, screen: Screen, curves: &Curves<E, P, W, S>) -> (shapes: Vec<
        Shape,
    >)
        ensures
            Bars::drawn(*old(self), *final(self), frame, screen, curves, shapes@),
    {
        let dt: u64 = self.clock.tick(frame.time);
        self.range.update(frame.bands, dt, &curves.ease);
        let at: BarScreen = bar_screen(screen);
        let ghost hi = self.range.hi as int;
        let ghost before = old(self).peaks@;
        let mut shapes: Vec<Shape> = Vec::with_capacity(3 * NUM_BANDS);
        let mut i: usize = 0;
        assert(marks(shapes@) =~= Seq::<Mark>::empty());
        while i < NUM_BANDS
            invariant
                i <= NUM_BANDS,
                frame.wf(),
                screen.wf(),
                self.range.wf(),
                hi == self.range.hi,
                self.clock.last == Some(frame.time),
                dt <= DT_CEILING,
                before.len() == NUM_BANDS,
                forall|j: int| 0 <= j < NUM_BANDS ==> 0 <= #[trigger] before[j] <= PEAK_MAX,
                self.peaks@.len() == NUM_BANDS,
                forall|j: int| i <= j < NUM_BANDS ==> #[trigger] self.peaks@[j] == before[j],
                forall|j: int|
                    0 <= j < i ==> #[trigger] self.peaks@[j] == peak_after(
                        before[j] as int,
                        applied(hi, frame.bands@[j]),
                        dt as int,
                    ),
                forall|j: int| 0 <= j < i ==> 0 <= #[trigger] self.peaks@[j] <= PEAK_MAX,
                at.px == pixel(screen.height as int),
                30_000 <= at.px <= 2 * ONE,
                at.bar_px == screen.across(BAR_WIDTH as int),
                0 <= at.bar_px <= 1_000_000_000_000,
                marks(shapes@) == bars_marks(
                    frame.stops@,
                    screen,
                    hi,
                    frame.bands@,
                    self.peaks@,
                    i as int,
                ),
                all_valid(marks(shapes@)),
            decreases NUM_BANDS - i,
        {
            let ghost peaks0 = self.peaks@;
            let ghost list0 = marks(shapes@);
            let level: i64 = self.range.apply(frame.bands[i]);
            let body: Shape = bar(frame.stops, i, level, &at, Ghost(screen));
            proof {
                lemma_marks_push(shapes@, body);
            }
            shapes.push(body);
            let held: i64 = self.peaks[i];
            assert(held == before[i as int]);
            let top: i64 = if held < PEAK_SCALE * level {
                PEAK_SCALE * level
            } else {
                held
            };
            let p: i64 = clamp(top - PEAK_FALL * dt as i64, 0, PEAK_MAX);
            self.peaks.set(i, p);
            if p > PEAK_SCALE * level + ONE {
                let upper: Shape = marker(frame.stops, i, p, at.px, true, Ghost(screen));
                proof {
                    lemma_marks_push(shapes@, upper);
                }
                shapes.push(upper);
                let lower: Shape = marker(frame.stops, i, p, at.px, false, Ghost(screen));
                proof {
                    lemma_marks_push(shapes@, lower);
                }
                shapes.push(lower);
            }
            proof {
                lemma_bars_prefix(
                    frame.stops@,
                    screen,
                    hi,
                    frame.bands@,
                    peaks0,
                    self.peaks@,
                    i as int,
                );
                let own = band_marks(frame.stops@, screen, i as int, level as int, p as int);
                assert(marks(shapes@) =~= list0 + own);
            }
            i = i + 1;
        }
        proof {
            lemma_bars_budget(
                frame.stops@,
                screen,
                hi,
                frame.bands@,
                self.peaks@,
                NUM_BANDS as int,
            );
        }
        shapes
    }
}

/// Bands with nothing to show.
pub open spec fn silent(bands: Seq<Sample>) -> bool {
    forall|i: int| 0 <= i < NUM_BANDS ==> (#[trigger] bands[i]).finite() ==> bands[i].fixed() <= 0
}

/// Peak decay does not depend on the frame rate: over a run of silent frames,
/// none longer than the clock integrates, every peak sinks by the time that has
/// passed and by nothing else, however many frames it was divided into.
pub proof fn law_peak_run<E: Fn(u64, u64) -> i64>(
    states: Seq<Bars>,
    times: Seq<u64>,
    bands: Seq<Sample>,
    ease: &E,
    i: int,
    n: int,
)
    requires
        states.len() == times.len(),
        0 <= n < states.len(),
        forall|k: int| 0 <= k < states.len() ==> (#[trigger] states[k]).wf(),
        states[0].clock.last == Some(times[0]),
        forall|k: int|
            0 <= k < states.len() - 1 ==> {
                &&& times[k] <= #[trigger] times[k + 1] <= times[k] + DT_CEILING
                &&& Bars::stepped(states[k], states[k + 1], bands, times[k + 1], ease)
            },
        silent(bands),
        0 <= i < NUM_BANDS,
    ensures
        states[n].clock.last == Some(times[n]),
        times[0] <= times[n],
        states[n].peaks@[i] == peak_after(states[0].peaks@[i] as int, 0, times[n] - times[0]),
        0 <= states[n].peaks@[i] <= PEAK_MAX,
    decreases n,
{
    assert(states[0].wf() && states[n].wf());
    assert(0 <= states[0].peaks@[i] <= PEAK_MAX);
    assert(0 <= states[n].peaks@[i] <= PEAK_MAX);
    if n > 0 {
        law_peak_run(states, times, bands, ease, i, n - 1);
        assert(times[n - 1] <= times[(n - 1) + 1]);
        assert(Bars::stepped(states[n - 1], states[n], bands, times[n], ease));
        if bands[i].finite() {
            law_silence_stays_dark(states[n].range, bands[i].fixed());
        }
        assert(applied(states[n].range.hi as int, bands[i]) == 0);
        assert(states[n].peaks@[i] == peak_after(
            states[n - 1].peaks@[i] as int,
            0,
            times[n] - times[n - 1],
        ));
    }
}

/// The marks of the first `n` bands depend on their peaks alone.
proof fn lemma_bars_prefix(
    stops: Seq<Stop>,
    screen: Screen,
    hi: int,
    bands: Seq<Sample>,
    a: Seq<i64>,
    b: Seq<i64>,
    n: int,
)
    requires
        forall|j: int| 0 <= j < n ==> #[trigger] a[j] == b[j],
    ensures
        bars_marks(stops, screen, hi, bands, a, n) == bars_marks(stops, screen, hi, bands, b, n),
    decreases n,
{
    if n > 0 {
        lemma_bars_prefix(stops, screen, hi, bands, a, b, n - 1);
        assert(a[n - 1] == b[n - 1]);
    }
}

/// A peak raised to full scale by the first frame sinks, over a run of silent
/// frames, by 0.36 of full scale per second, at any frame rate.
pub proof fn law_peaks_sink_from_full<E: Fn(u64, u64) -> i64>(
    start: Bars,
    states: Seq<Bars>,
    times: Seq<u64>,
    loud: Seq<Sample>,
    bands: Seq<Sample>,
    ease: &E,
    i: int,
    n: int,
)
    requires
        start.wf(),
        start.clock.last is None,
        states.len() == times.len(),
        0 <= n < states.len(),
        forall|k: int| 0 <= k < states.len() ==> (#[trigger] states[k]).wf(),
        Bars::stepped(start, states[0], loud, times[0], ease),
        forall|k: int|
            0 <= k < states.len() - 1 ==> {
                &&& times[k] <= #[trigger] times[k + 1] <= times[k] + DT_CEILING
                &&& Bars::stepped(states[k], states[k + 1], bands, times[k + 1], ease)
            },
        0 <= i < NUM_BANDS,
        loud[i].finite(),
        loud[i].fixed() >= ONE,
        silent(bands),
    ensures
        states[0].peaks@[i] == PEAK_MAX,
        states[n].peaks@[i] == clamped(
            PEAK_MAX - PEAK_FALL * (times[n] - times[0]),
            0,
            PEAK_MAX as int,
        ),
        times[n] - times[0] == 1_000_000_000 ==> states[n].peaks@[i] == 64 * (PEAK_MAX / 100),
{
    assert(states[0].wf() && states[n].wf());
    law_ceiling_is_full_scale(states[0].range, loud[i].fixed());
    assert(0 <= start.peaks@[i] <= PEAK_MAX);
    assert(states[0].peaks@[i] == peak_after(start.peaks@[i] as int, ONE as int, 0));
    law_peak_run(states, times, bands, ease, i, n);
}

/// A bar stands as high as its level: nine tenths of it, and never less than the
/// resting height of a pixel and a half.
pub proof fn law_bar_height(level: int, height: int)
    requires
        0 <= level <= 1_000_000_000,
        height >= 1,
    ensures
        ({
            let half = bar_half(level, height);
            let rest = 3 * (2_000_000_000int / height) / 2;
            &&& half >= rest
            &&& half > rest ==> 10 * half <= 9 * level < 10 * half + 10
            &&& half == rest ==> 9 * level < 10 * rest + 10
        }),
{
}

/// Of two bars clear of the resting height, the louder is the taller, in
/// proportion: twice the level is twice the bar, to within a billionth.
pub proof fn law_louder_bars_are_taller(quiet: int, loud: int, height: int)
    requires
        0 <= quiet <= loud <= 1_000_000_000,
        height >= 1,
        9 * quiet >= 10 * (3 * (2_000_000_000int / height) / 2) + 10,
    ensures
        loud >= quiet + 2 ==> bar_half(loud, height) > bar_half(quiet, height),
        9 * (loud - quiet) - 10 < 10 * (bar_half(loud, height) - bar_half(quiet, height)) < 9 * (loud
            - quiet) + 10,
        loud == 2 * quiet ==> 2 * bar_half(quiet, height) <= bar_half(loud, height) <= 2 * bar_half(
            quiet,
            height,
        ) + 1,
{
}

proof fn lemma_bars_marks(
    stops: Seq<Stop>,
    screen: Screen,
    hi: int,
    bands: Seq<Sample>,
    peaks: Seq<i64>,
    n: int,
    i: int,
) -> (j: int)
    requires
        0 <= i < n,
    ensures
        ({
            let list = bars_marks(stops, screen, hi, bands, peaks, n);
            let level = applied(hi, bands[i]);
            &&& 0 <= j < list.len()
            &&& list[j] == bar_mark(stops, screen, i, level)
            &&& marker_shown(peaks[i] as int, level) ==> j + 2 < list.len() && list[j + 1]
                == marker_mark(stops, screen, i, peaks[i] as int, true) && list[j + 2]
                == marker_mark(stops, screen, i, peaks[i] as int, false)
        }),
    decreases n,
{
    let rest = bars_marks(stops, screen, hi, bands, peaks, n - 1);
    let level = applied(hi, bands[n - 1]);
    let last = band_marks(stops, screen, n - 1, level, peaks[n - 1] as int);
    let list = bars_marks(stops, screen, hi, bands, peaks, n);
    assert(list == rest + last);
    if i == n - 1 {
        assert(list[rest.len() as int] == last[0]);
        if marker_shown(peaks[i] as int, level) {
            assert(list[rest.len() as int + 1] == last[1]);
            assert(list[rest.len() as int + 2] == last[2]);
        }
        rest.len() as int
    } else {
        lemma_bars_marks(stops, screen, hi, bands, peaks, n - 1, i)
    }
}

/// Each band has its own bar, in the order of the bands, as the stretched level of
/// that band itself says, and its two peak markers where its own peak is clear of
/// the bar.
pub proof fn law_bars_show_their_bands<
    E: Fn(u64, u64) -> i64,
    P: Fn(i64, i64) -> i64,
    W: Fn(i64) -> i64,
    S: Fn(i64) -> i64,
>(
    before: Bars,
    after: Bars,
    frame: &FrameData,
    screen: Screen,
    curves: &Curves<E, P, W, S>,
    shapes: Seq<Shape>,
    i: int,
) -> (j: int)
    requires
        Bars::drawn(before, after, frame, screen, curves, shapes),
        0 <= i < 64,
    ensures
        ({
            let level = applied(after.range.hi as int, frame.bands@[i]);
            let peak = after.peaks@[i] as int;
            let list = marks(shapes);
            &&& 0 <= j < list.len()
            &&& list[j] == bar_mark(frame.stops@, screen, i, level)
            &&& peak > 100 * level + 1_000_000_000 ==> {
                &&& j + 2 < list.len()
                &&& list[j + 1] == marker_mark(frame.stops@, screen, i, peak, true)
                &&& list[j + 2] == marker_mark(frame.stops@, screen, i, peak, false)
            }
        }),
{
    lemma_bars_marks(
        frame.stops@,
        screen,
        after.range.hi as int,
        frame.bands@,
        after.peaks@,
        64,
        i,
    )
}

/// Bar `i` stands in column `i` of 64 from left to right, mirrored about the middle
/// line: a column of 25 evenly spaced points from its foot to its head, or a flat
/// pill where there is next to nothing to show.
pub proof fn law_bar_stands_in_its_column(
    stops: Seq<Stop>,
    screen: Screen,
    i: int,
    level: int,
    k: int,
)
    requires
        screen.wf(),
        0 <= i < 64,
        0 <= level <= 1_000_000_000,
        0 <= k < 25,
    ensures
        ({
            let m = bar_mark(stops, screen, i, level);
            let left = -1_000_000_000 + i * 31_250_000;
            let half = bar_half(level, screen.height as int);
            let pts = m->Stroke_pts;
            &&& level > 4_000_000 ==> {
                &&& m is Stroke
                &&& !m->Stroke_additive
                &&& m->Stroke_width == screen.across(25_625_000)
                &&& pts.len() == 25
                &&& m->Stroke_colors.len() == 25
                &&& pts[0].y == -half
                &&& pts[12].y == 0
                &&& pts[24].y == half
                &&& pts[k].x == left + 12_812_500
                &&& 12 * (pts[k].y + half) <= half * k < 12 * (pts[k].y + half) + 12
            }
            &&& level <= 4_000_000 ==> {
                &&& m is RoundRect
                &&& m->RoundRect_x0 == left
                &&& m->RoundRect_x1 == left + 25_625_000
                &&& m->RoundRect_y0 == -half
                &&& m->RoundRect_y1 == half
            }
        }),
{
    let half = bar_half(level, screen.height as int);
    lemma_bar_half(level, screen.height as int);
    assert(0 <= half * k <= half * 24) by (nonlinear_arith)
        requires
            0 <= half,
            0 <= k <= 24,
    ;
    if level > 4_000_000 {
        let pts = column_points(i, half);
        assert(half * 0 == 0 && half * 12 / 12 == half && half * 24 / 12 == 2 * half);
        assert(bar_mark(stops, screen, i, level)->Stroke_pts == pts);
        assert(pts[0].y == -half && pts[12].y == 0 && pts[24].y == half);
        assert(pts[k].y == column_y(half, k));
    }
}

proof fn lemma_bar_half(level: int, height: int)
    requires
        0 <= level <= 1_000_000_000,
        1 <= height,
    ensures
        0 <= bar_half(level, height) <= 3_000_000_000,
{
    assert(0 <= 2_000_000_000int / height <= 2_000_000_000) by (nonlinear_arith)
        requires
            height >= 1,
    ;
}

/// A bar is colored by how far from the middle line each point is, nine tenths
/// being the top of the ramp, and by how high the pitch of its band.
pub proof fn law_bar_colors(
    stops: Seq<Stop>,
    screen: Screen,
    i: int,
    level: int,
    k: int,
) -> (tone: int)
    requires
        screen.wf(),
        0 <= i < 64,
        0 <= level <= 1_000_000_000,
        0 <= k < 25,
    ensures
        ({
            let m = bar_mark(stops, screen, i, level);
            let y = if level > 4_000_000 {
                size_of_height(m->Stroke_pts[k].y as int)
            } else {
                m->RoundRect_y1
            };
            let freq = i * 1_000_000_000 / 63;
            &&& 0 <= tone <= 1_000_000_000
            &&& 9 * tone <= 10 * y
            &&& tone < 1_000_000_000 ==> 10 * y < 9 * tone + 9
            &&& level > 4_000_000 ==> m->Stroke_colors[k] == ramp_color(stops, tone, freq)
            &&& level <= 4_000_000 ==> m->RoundRect_color == ramp_color(stops, tone, freq)
        }),
{
    let half = bar_half(level, screen.height as int);
    lemma_bar_half(level, screen.height as int);
    law_bar_stands_in_its_column(stops, screen, i, level, k);
    if level > 4_000_000 {
        let m = bar_mark(stops, screen, i, level);
        assert(0 <= half * k <= half * 24) by (nonlinear_arith)
            requires
                0 <= half,
                0 <= k <= 24,
        ;
        assert(m->Stroke_pts[k].y == column_y(half, k));
        bar_tone(column_y(half, k))
    } else {
        bar_tone(half)
    }
}

/// A peak marker is a three-pixel bar over the width of its column, its inner edge
/// nine tenths of the peak from the middle line, above it or below, in the color of
/// the ramp at the height of the peak.
pub proof fn law_marker_sits_on_peak(
    stops: Seq<Stop>,
    screen: Screen,
    i: int,
    peak: int,
    upper: bool,
)
    requires
        0 <= peak <= 100_000_000_000,
    ensures
        ({
            let m = marker_mark(stops, screen, i, peak, upper);
            let left = -1_000_000_000 + i * 31_250_000;
            let thick = 3 * (2_000_000_000int / (screen.height as int));
            let inner = if upper {
                m->RoundRect_y0
            } else {
                -m->RoundRect_y1
            };
            &&& m is RoundRect
            &&& m->RoundRect_x0 == left
            &&& m->RoundRect_x1 == left + 25_625_000
            &&& m->RoundRect_y1 - m->RoundRect_y0 == thick
            &&& 1000 * inner <= 9 * peak < 1000 * inner + 1000
            &&& m->RoundRect_color == ramp_color(stops, peak / 100, i * 1_000_000_000 / 63)
        }),
{
}

/// Distance from the middle line.
pub open spec fn size_of_height(y: int) -> int {
    if y < 0 {
        -y
    } else {
        y
    }
}

/// A peak is raised at once to its bar's level, and sinks by 36 billionths of a
/// hundredth per nanosecond, that is 0.36 of full scale per second, down to zero.
pub proof fn law_peak_moves(peak: int, level: int, dt: int)
    requires
        0 <= peak <= 100_000_000_000,
        0 <= level <= 1_000_000_000,
        0 <= dt,
    ensures
        dt == 0 ==> peak_after(peak, level, dt) == (if peak < 100 * level {
            100 * level
        } else {
            peak
        }),
        peak >= 100 * level && peak >= 36 * dt ==> peak_after(peak, level, dt) == peak - 36 * dt,
        peak <= 100 * level && 100 * level >= 36 * dt ==> peak_after(peak, level, dt) == 100 * level
            - 36 * dt,
        36 * dt >= peak && 36 * dt >= 100 * level ==> peak_after(peak, level, dt) == 0,
{
}

/// Each band has a peak of its own, which follows that band's level as the range shows
/// it over the time since the last frame; the range follows the bands over the same
/// time.
pub proof fn law_peaks_follow_their_bands<
    E: Fn(u64, u64) -> i64,
    P: Fn(i64, i64) -> i64,
    W: Fn(i64) -> i64,
    S: Fn(i64) -> i64,
>(
    before: Bars,
    after: Bars,
    frame: &FrameData,
    screen: Screen,
    curves: &Curves<E, P, W, S>,
    shapes: Seq<Shape>,
    i: int,
)
    requires
        Bars::drawn(before, after, frame, screen, curves, shapes),
        0 <= i < 64,
    ensures
        ({
            let dt = tick_of(before.clock.last, frame.time);
            &&& after.clock.last == Some(frame.time)
            &&& AutoRange::updated(before.range, after.range, frame.bands@, dt, &curves.ease)
            &&& after.peaks@[i] == peak_after(
                before.peaks@[i] as int,
                applied(after.range.hi as int, frame.bands@[i]),
                dt as int,
            )
        }),
{
}

} // verus!
