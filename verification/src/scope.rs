//! Oscilloscope and Vectorscope: time-domain traces.

use crate::geometry::{aspect, pixel, px};
use crate::number::{
    clamp, clamped, floor_root, law_trunc, lemma_floor_root_at_least, lemma_trunc, mul_div,
    square_root, trunc, Sample, ONE,
};
use crate::palette::{ramp_at, ramp_color, valid_stops, Stop};
use crate::shape::{
    all_in_gamut, all_near, marks, total_cost, total_facets, Curves, FrameData, Mark, Screen, Shape,
    Visualizer,
};
use crate::spline::{copy_points, Point};
use vstd::prelude::*;

verus! {

/// Screen-space resolution of the trace.
pub const OSC_POINTS: usize = 320;

/// Fewest samples a trace is drawn from.
pub const TRACE_MIN: usize = 64;

/// Longest trace, in samples.
pub const SPAN_MAX: usize = 768;

/// Points of the vectorscope trace.
pub const VECTOR_POINTS: usize = 512;

/// Loudest amplitude a trace distinguishes, far past saturation.
pub const LOUD: i64 = 1_000_000_000_000_000;

// -- trigger ----------------------------------------------------------------
/// A rising zero crossing between samples `i - 1` and `i`.
pub open spec fn crosses(wave: Seq<Sample>, i: int) -> bool {
    !wave[i - 1].nan() && wave[i - 1].rank() <= 0 && !wave[i].nan() && wave[i].rank() > 0
}

/// First rising zero crossing from `i` on, before `end`, or zero.
pub open spec fn crossing_from(wave: Seq<Sample>, i: int, end: int) -> int
    decreases end - i,
{
    if i >= end {
        0
    } else if crosses(wave, i) {
        i
    } else {
        crossing_from(wave, i + 1, end)
    }
}

/// Where a trace of `span` samples is anchored.
pub open spec fn trigger_of(wave: Seq<Sample>, span: int) -> int {
    crossing_from(wave, 1, wave.len() - span)
}

/// The trace starts on a rising zero crossing if there is one early enough, at
/// the first sample otherwise, and always fits the window.
pub proof fn law_trigger(wave: Seq<Sample>, span: int)
    requires
        0 <= span <= wave.len(),
    ensures
        0 <= trigger_of(wave, span),
        trigger_of(wave, span) + span <= wave.len(),
        trigger_of(wave, span) > 0 ==> crosses(wave, trigger_of(wave, span)),
        trigger_of(wave, span) == 0 ==> forall|i: int|
            1 <= i < wave.len() - span ==> !#[trigger] crosses(wave, i),
        forall|i: int|
            1 <= i < trigger_of(wave, span) ==> !#[trigger] crosses(wave, i),
{
    lemma_crossing(wave, 1, wave.len() - span);
}

proof fn lemma_crossing(wave: Seq<Sample>, i: int, end: int)
    requires
        1 <= i,
    ensures
        ({
            let c = crossing_from(wave, i, end);
            &&& c == 0 || (i <= c < end && crosses(wave, c))
            &&& c == 0 ==> forall|j: int| i <= j < end ==> !#[trigger] crosses(wave, j)
            &&& forall|j: int| i <= j < c ==> !#[trigger] crosses(wave, j)
        }),
    decreases end - i,
{
    if i < end && !crosses(wave, i) {
        lemma_crossing(wave, i + 1, end);
    }
}

/// The oscilloscope: a triggered time-domain trace.
pub struct Oscilloscope {
    /// Points of the latest trace.
    pub pts: Vec<Point>,
}

impl Oscilloscope {
    /// A blank scope.
    pub fn new() -> (r: Self)
        ensures
            r.wf(),
            r.pts@.len() == 0,
    {
        Oscilloscope { pts: Vec::with_capacity(OSC_POINTS) }
    }

    /// Find a rising zero crossing to anchor the trace; without one the
    /// waveform would slide sideways every frame.
    pub fn trigger(wave: &[Sample], span: usize) -> (r: usize)
        ensures
            r == trigger_of(wave@, span as int),
            span <= wave@.len() ==> r + span <= wave@.len(),
    {
        let end: usize = if wave.len() > span {
            wave.len() - span
        } else {
            0
        };
        proof {
            if span <= wave@.len() {
                law_trigger(wave@, span as int);
            }
        }
        let zero: Sample = Sample { bits: 0 };
        let mut i: usize = 1;
        while i < end
            invariant
                1 <= i,
                zero.bits == 0,
                end <= wave@.len(),
                end > 0 ==> end == wave@.len() - span,
                end == 0 ==> wave@.len() <= span,
                crossing_from(wave@, 1, wave@.len() - span) == crossing_from(
                    wave@,
                    i as int,
                    wave@.len() - span,
                ),
            decreases end - i,
        {
            let rising: bool = zero.less(wave[i]) && !wave[i - 1].is_nan() && !zero.less(
                wave[i - 1],
            );
            assert(rising == crosses(wave@, i as int));
            if rising {
                return i;
            }
            i = i + 1;
        }
        0
    }
}

// -- buckets ----------------------------------------------------------------
/// Magnitude of a sample, ordered as absolute values are.
pub open spec fn magnitude(s: Sample) -> int {
    s.bits as int % 0x8000_0000
}

/// The first of the loudest samples of `wave[from..to]`, zero if none is louder
/// than silence. Taking the extreme rather than the mean keeps transients.
pub open spec fn extreme(wave: Seq<Sample>, from: int, to: int) -> Sample
    decreases to - from,
{
    if to <= from {
        Sample { bits: 0 }
    } else {
        let rest = extreme(wave, from, to - 1);
        let s = wave[to - 1];
        if !s.nan() && magnitude(s) > magnitude(rest) {
            s
        } else {
            rest
        }
    }
}

/// No sample of the bucket is louder than its extreme, which is one of them.
pub proof fn law_extreme_is_loudest(wave: Seq<Sample>, from: int, to: int, i: int)
    requires
        0 <= from <= i < to <= wave.len(),
        !wave[i].nan(),
    ensures
        magnitude(wave[i]) <= magnitude(extreme(wave, from, to)),
        magnitude(extreme(wave, from, to)) == 0 || exists|j: int|
            from <= j < to && extreme(wave, from, to) == #[trigger] wave[j],
    decreases to - from,
{
    if i < to - 1 {
        law_extreme_is_loudest(wave, from, to - 1, i);
    } else if to - 1 > from {
        lemma_extreme_member(wave, from, to - 1);
    }
    lemma_extreme_member(wave, from, to);
}

proof fn lemma_extreme_member(wave: Seq<Sample>, from: int, to: int)
    ensures
        magnitude(extreme(wave, from, to)) == 0 || exists|j: int|
            from <= j < to && extreme(wave, from, to) == #[trigger] wave[j],
    decreases to - from,
{
    if to > from {
        lemma_extreme_member(wave, from, to - 1);
        let e = extreme(wave, from, to);
        if e != extreme(wave, from, to - 1) {
            assert(e == wave[to - 1]);
        }
    }
}

fn extreme_of(wave: &[Sample], from: usize, to: usize) -> (e: Sample)
    requires
        from <= to <= wave@.len(),
    ensures
        e == extreme(wave@, from as int, to as int),
{
    let mut e: Sample = Sample { bits: 0 };
    let mut i: usize = from;
    while i < to
        invariant
            from <= i <= to <= wave@.len(),
            e == extreme(wave@, from as int, i as int),
        decreases to - i,
    {
        let s: Sample = wave[i];
        if !s.is_nan() && s.bits % 0x8000_0000 > e.bits % 0x8000_0000 {
            e = s;
        }
        i = i + 1;
    }
    e
}

/// An amplitude as read: limited, silent when it is not a number.
pub open spec fn amplitude(s: Sample) -> int {
    if s.nan() {
        0
    } else if s.finite() {
        clamped(s.fixed(), -LOUD as int, LOUD as int)
    } else if s.negative() {
        -LOUD as int
    } else {
        LOUD as int
    }
}

fn read_amplitude(s: Sample) -> (v: i64)
    ensures
        v == amplitude(s),
        -LOUD <= v <= LOUD,
{
    if s.is_nan() {
        0
    } else if s.is_finite() {
        clamp(s.to_fixed(), -LOUD, LOUD)
    } else if s.bits >= 0x8000_0000 {
        -LOUD
    } else {
        LOUD
    }
}

/// The signal level the gain rides on, when it is finite: at least 0.02.
pub open spec fn level_of(rms: Sample) -> int {
    if rms.nan() || rms.negative() || rms.billionths() < 20_000_000 {
        20_000_000
    } else {
        rms.billionths()
    }
}

/// Display gain: rides the signal level so quiet passages stay visible. An
/// endless level leaves nothing of the signal.
pub open spec fn gain_of(rms: Sample) -> int {
    let root = floor_root(level_of(rms) * ONE);
    if !rms.finite() && !rms.nan() && !rms.negative() {
        0
    } else {
        1_600_000_000_000_000_000int / (if root < 250_000_000 {
            250_000_000
        } else {
            root
        })
    }
}

/// A gain past the root of which nothing is left.
proof fn lemma_no_gain(rms: Sample)
    requires
        rms.finite(),
        level_of(rms) > 3_000_000_000_000_000_000_000_000_000,
    ensures
        gain_of(rms) == 0,
{
    let r = 1_600_000_000_000_000_001int;
    let q = level_of(rms) * ONE;
    assert(r * r <= 3_000_000_000_000_000_000_000_000_000 * 1_000_000_000) by (nonlinear_arith)
        requires
            r == 1_600_000_000_000_000_001,
    ;
    lemma_floor_root_at_least(q, r);
    let root = floor_root(q);
    assert(1_600_000_000_000_000_000int / root == 0) by {
        vstd::arithmetic::div_mod::lemma_basic_div(1_600_000_000_000_000_000, root);
    }
}

fn read_gain(rms: Sample) -> (g: i64)
    ensures
        g == gain_of(rms),
        0 <= g <= 6_400_000_000,
{
    let low: bool = rms.is_nan() || rms.bits >= 0x8000_0000;
    if !low && !rms.is_finite() {
        return 0;
    }
    let read: Option<u128> = if low {
        Some(0)
    } else {
        rms.magnitude()
    };
    let level: u128 = match read {
        Some(v) => if v < 20_000_000 {
            20_000_000
        } else {
            v
        },
        None => {
            proof {
                crate::number::lemma_endless(rms);
                lemma_no_gain(rms);
            }
            return 0;
        },
    };
    if level > 3_000_000_000_000_000_000_000_000_000 {
        proof {
            lemma_no_gain(rms);
        }
        return 0;
    }
    let root: u64 = square_root(level * 1_000_000_000);
    let den: u64 = if root < 250_000_000 {
        250_000_000
    } else {
        root
    };
    assert(0 <= 1_600_000_000_000_000_000int / (den as int) <= 6_400_000_000) by (nonlinear_arith)
        requires
            den >= 250_000_000,
    ;
    (1_600_000_000_000_000_000 / den) as i64
}

/// `y` is amplitude `v` softly saturated to 92 % of full scale. Silence stays on
/// the axis.
pub open spec fn bent<S: Fn(i64) -> i64>(saturate: S, v: int, y: int) -> bool {
    if v == 0 {
        y == 0
    } else {
        exists|s: i64|
            #![trigger call_ensures(saturate, (v as i64,), s)]
            call_ensures(saturate, (v as i64,), s) && y == trunc(
                clamped(s as int, -ONE as int, ONE as int) * 92,
                100,
            )
    }
}

fn bend<S: Fn(i64) -> i64>(saturate: &S, v: i64) -> (y: i64)
    requires
        forall|a: i64| call_requires(saturate, (a,)),
    ensures
        bent(*saturate, v as int, y as int),
        -920_000_000 <= y <= 920_000_000,
{
    if v == 0 {
        return 0;
    }
    let s: i64 = saturate(v);
    let c: i64 = clamp(s, -ONE, ONE);
    proof {
        lemma_trunc(c * 92, 100, 920_000_000);
        assert(call_ensures(*saturate, ((v as int) as i64,), s));
    }
    mul_div(c, 92, 100)
}

// -- oscilloscope -----------------------------------------------------------
/// Length of the trace of a window of `len` samples.
pub open spec fn span_of(len: int) -> int {
    let s = len * 3 / 4;
    if s > SPAN_MAX {
        SPAN_MAX as int
    } else {
        s
    }
}

/// Points on the trace.
pub open spec fn bucket_count(span: int) -> int {
    if span < OSC_POINTS {
        span
    } else {
        OSC_POINTS as int
    }
}

/// First sample of bucket `k`.
pub open spec fn bucket_from(k: int, span: int) -> int {
    k * span / bucket_count(span)
}

/// Horizontal position of point `k` of `n`.
pub open spec fn trace_x(k: int, n: int) -> int {
    2 * k * ONE / (n - 1) - ONE
}

/// Amplitude of point `k` of a trace starting at `start`.
pub open spec fn trace_amplitude(wave: Seq<Sample>, start: int, span: int, gain: int, k: int) -> int {
    let e = extreme(
        wave,
        start + bucket_from(k, span),
        start + bucket_from(k + 1, span),
    );
    trunc(amplitude(e) * gain, ONE as int)
}

/// `pts` is the trace of a window.
pub open spec fn traced<S: Fn(i64) -> i64>(
    saturate: S,
    wave: Seq<Sample>,
    rms: Sample,
    pts: Seq<Point>,
) -> bool {
    let span = span_of(wave.len() as int);
    let n = bucket_count(span);
    &&& pts.len() == n
    &&& forall|k: int|
        0 <= k < n ==> (#[trigger] pts[k]).x == trace_x(k, n) && bent(
            saturate,
            trace_amplitude(wave, trigger_of(wave, span), span, gain_of(rms), k),
            pts[k].y as int,
        )
}

/// Position on the ramp of an excursion: violet through the quiet crossings,
/// white at the extremes.
pub open spec fn excursion_tone(v: int) -> int {
    clamped((if v < 0 {
        -v
    } else {
        v
    }) * 100 / 92, 0, ONE as int)
}

/// The center line, at the resting end of the ramp.
pub open spec fn axis_mark(stops: Seq<Stop>, height: int) -> Mark {
    Mark::RoundRect {
        x0: -ONE as int,
        y0: -pixel(height),
        x1: ONE as int,
        y1: pixel(height),
        radius: 0,
        color: ramp_color(stops, 0, 500_000_000),
    }
}

/// The trace, colored by amplitude.
pub open spec fn trace_mark(stops: Seq<Stop>, pts: Seq<Point>) -> Mark {
    Mark::Glow {
        pts,
        width: 2 * ONE,
        layers: 2,
        colors: Seq::new(
            pts.len(),
            |i: int| ramp_color(stops, excursion_tone(pts[i].y as int), 500_000_000),
        ),
    }
}

/// Buckets partition the trace: each starts where the one before it ends, none
/// is empty, and together they cover the span.
pub proof fn law_buckets_partition(k: int, span: int)
    requires
        1 <= span <= SPAN_MAX,
        0 <= k < bucket_count(span),
    ensures
        0 <= bucket_from(k, span) < bucket_from(k + 1, span) <= span,
        bucket_from(0, span) == 0,
        bucket_from(bucket_count(span), span) == span,
{
    let n = bucket_count(span);
    let a = k * span;
    let b = (k + 1) * span;
    assert(b == a + span) by (nonlinear_arith)
        requires
            a == k * span,
            b == (k + 1) * span,
    ;
    assert(b <= n * span && 0 <= a) by (nonlinear_arith)
        requires
            b == (k + 1) * span,
            a == k * span,
            0 <= k < n,
            span >= 1,
    ;
    assert(a / n + 1 <= b / n) by {
        vstd::arithmetic::div_mod::lemma_div_is_ordered(n + a, b, n);
        vstd::arithmetic::div_mod::lemma_div_plus_one(a, n);
    }
    vstd::arithmetic::div_mod::lemma_div_pos_is_pos(a, n);
    vstd::arithmetic::div_mod::lemma_div_by_multiple(span, n);
    assert(n * span == span * n) by (nonlinear_arith);
    vstd::arithmetic::div_mod::lemma_div_is_ordered(b, span * n, n);
    assert(0 * span == 0);
    vstd::arithmetic::div_mod::lemma_basic_div(0, n);
}

proof fn lemma_trace_x(k: int, n: int)
    requires
        0 <= k < n,
        2 <= n,
    ensures
        -ONE <= trace_x(k, n) <= ONE,
{
    let t = 2 * k * 1_000_000_000;
    let m = n - 1;
    assert(0 <= t / m <= 2_000_000_000) by (nonlinear_arith)
        requires
            t == 2 * k * 1_000_000_000,
            0 <= k <= m,
            m >= 1,
    ;
}

fn trace<S: Fn(i64) -> i64>(wave: &[Sample], rms: Sample, saturate: &S) -> (pts: Vec<Point>)
    requires
        TRACE_MIN <= wave@.len() <= 0x4000_0000,
        forall|a: i64| call_requires(saturate, (a,)),
    ensures
        traced(*saturate, wave@, rms, pts@),
        2 <= pts@.len() <= OSC_POINTS,
        all_near(pts@),
        forall|i: int|
            0 <= i < pts@.len() ==> -920_000_000 <= (#[trigger] pts@[i]).y <= 920_000_000,
{
    let len: usize = wave.len();
    let span: usize = if len * 3 / 4 > SPAN_MAX {
        SPAN_MAX
    } else {
        len * 3 / 4
    };
    let start: usize = Oscilloscope::trigger(wave, span);
    let gain: i64 = read_gain(rms);
    let n: usize = if span < OSC_POINTS {
        span
    } else {
        OSC_POINTS
    };
    let mut pts: Vec<Point> = Vec::with_capacity(n);
    let mut k: usize = 0;
    while k < n
        invariant
            forall|a: i64| call_requires(saturate, (a,)),
            span == span_of(wave@.len() as int),
            n == bucket_count(span as int),
            48 <= span <= SPAN_MAX,
            48 <= n <= OSC_POINTS,
            k <= n,
            start == trigger_of(wave@, span as int),
            start + span <= wave@.len() <= 0x4000_0000,
            gain == gain_of(rms),
            0 <= gain <= 6_400_000_000,
            pts@.len() == k,
            forall|j: int|
                0 <= j < k ==> (#[trigger] pts@[j]).x == trace_x(j, n as int) && bent(
                    *saturate,
                    trace_amplitude(wave@, start as int, span as int, gain as int, j),
                    pts@[j].y as int,
                ),
            all_near(pts@),
            forall|i: int|
                0 <= i < pts@.len() ==> -920_000_000 <= (#[trigger] pts@[i]).y <= 920_000_000,
        decreases n - k,
    {
        proof {
            law_buckets_partition(k as int, span as int);
            lemma_trace_x(k as int, n as int);
            assert(0 <= k * span <= 320 * 768) by (nonlinear_arith)
                requires
                    0 <= k <= 320,
                    0 <= span <= 768,
            ;
            assert(0 <= (k + 1) * span <= 320 * 768) by (nonlinear_arith)
                requires
                    0 <= k < 320,
                    0 <= span <= 768,
            ;
        }
        let lo: usize = k * span / n;
        let hi: usize = (k + 1) * span / n;
        let e: Sample = extreme_of(wave, start + lo, start + hi);
        let a: i64 = read_amplitude(e);
        proof {
            assert(-6_400_000_000_000_000_000_000_000 <= a * gain
                <= 6_400_000_000_000_000_000_000_000) by (nonlinear_arith)
                requires
                    -1_000_000_000_000_000 <= a <= 1_000_000_000_000_000,
                    0 <= gain <= 6_400_000_000,
            ;
            lemma_trunc(a * gain, ONE as int, 6_400_000_000_000_000);
        }
        let v: i64 = mul_div(a, gain, ONE);
        let x: i64 = 2 * k as i64 * ONE / (n as i64 - 1) - ONE;
        let y: i64 = bend(saturate, v);
        pts.push(Point { x, y });
        k = k + 1;
    }
    pts
}

fn trace_shape(stops: &[Stop], pts: Vec<Point>) -> (shape: Shape)
    requires
        valid_stops(stops@),
        2 <= pts@.len() <= VECTOR_POINTS,
        all_near(pts@),
        forall|i: int|
            0 <= i < pts@.len() ==> -920_000_000 <= (#[trigger] pts@[i]).y <= 920_000_000,
    ensures
        shape@ == trace_mark(stops@, pts@),
        shape@.valid(),
        shape@.cost() <= 6354,
        shape@.facets() <= 9504,
{
    let mut colors: Vec<[i64; 4]> = Vec::with_capacity(pts.len());
    let mut i: usize = 0;
    while i < pts.len()
        invariant
            i <= pts@.len(),
            valid_stops(stops@),
            forall|i: int|
                0 <= i < pts@.len() ==> -920_000_000 <= (#[trigger] pts@[i]).y <= 920_000_000,
            colors@.len() == i,
            forall|j: int|
                0 <= j < i ==> #[trigger] colors@[j] == ramp_color(
                    stops@,
                    excursion_tone(pts@[j].y as int),
                    500_000_000,
                ),
            all_in_gamut(colors@),
        decreases pts@.len() - i,
    {
        let y: i64 = pts[i].y;
        assert(-920_000_000 <= pts@[i as int].y <= 920_000_000);
        let a: i64 = if y < 0 {
            -y
        } else {
            y
        };
        colors.push(ramp_at(stops, clamp(a * 100 / 92, 0, ONE), 500_000_000));
        i = i + 1;
    }
    let ghost n = pts@.len() as int;
    let shape: Shape = Shape::Glow { pts, width: 2 * ONE, layers: 2, colors };
    proof {
        let want = trace_mark(stops@, pts@);
        assert(shape@->Glow_colors =~= want->Glow_colors);
        assert(3 * (4 * n + 70) == 12 * n + 210);
        assert(3 * (6 * n + 96) == 18 * n + 288);
    }
    shape
}

impl Oscilloscope {
    /// `after` and `shapes` are what drawing `frame` leaves and gives.
    pub open spec fn drawn<
        E: Fn(u64, u64) -> i64,
        P: Fn(i64, i64) -> i64,
        W: Fn(i64) -> i64,
        S: Fn(i64) -> i64,
    >(
        before: Oscilloscope,
        after: Oscilloscope,
        frame: &FrameData,
        screen: Screen,
        curves: &Curves<E, P, W, S>,
        shapes: Seq<Shape>,
    ) -> bool {
        &&& frame.waveform@.len() < TRACE_MIN ==> after.pts@ == before.pts@
            && shapes.len() == 0
        &&& frame.waveform@.len() >= TRACE_MIN ==> traced(
            curves.saturate,
            frame.waveform@,
            frame.rms,
            after.pts@,
        ) && marks(shapes) == seq![
            axis_mark(frame.stops@, screen.height as int),
            trace_mark(frame.stops@, after.pts@),
        ]
    }
}

impl Visualizer for Oscilloscope {
    open spec fn wf(&self) -> bool {
        true
    }

    open spec fn label(&self) -> Seq<char> {
        "Oscilloscope"@
    }

    fn name(&self) -> (r: &'static str) {
        "Oscilloscope"
    }

    fn draw<
        E: Fn(u64, u64) -> i64,
        P: Fn(i64, i64) -> i64,
        W: Fn(i64) -> i64,
        S: Fn(i64) -> i64,
    >(&mut self, frame: &FrameData, screen: Screen, curves: &Curves<E, P, W, S>) -> (shapes: Vec<
        Shape,
    >)
        ensures
            Oscilloscope::drawn(*old(self), *final(self), frame, screen, curves, shapes@),
    {
        let mut shapes: Vec<Shape> = Vec::with_capacity(2);
        if frame.waveform.len() < TRACE_MIN {
            assert(marks(shapes@) =~= Seq::<Mark>::empty());
            return shapes;
        }
        let pts: Vec<Point> = trace(frame.waveform, frame.rms, &curves.saturate);
        self.pts = copy_points(&pts);
        let hair: i64 = px(screen.height);
        shapes.push(
            Shape::RoundRect {
                x0: -ONE,
                y0: -hair,
                x1: ONE,
                y1: hair,
                radius: 0,
                color: ramp_at(frame.stops, 0, 500_000_000),
            },
        );
        shapes.push(trace_shape(frame.stops, pts));
        proof {
            let list = marks(shapes@);
            assert(list =~= seq![
                axis_mark(frame.stops@, screen.height as int),
                trace_mark(frame.stops@, self.pts@),
            ]);
            assert(total_cost(list, 0) == 0 && total_facets(list, 0) == 0);
            assert(total_cost(list, 1) == 73 && total_facets(list, 1) == 108);
            assert(total_cost(list, 2) == total_cost(list, 1) + list[1].cost());
            assert(total_facets(list, 2) == total_facets(list, 1) + list[1].facets());
        }
        shapes
    }
}

// -- vectorscope ------------------------------------------------------------
/// Points of the trace of `len` sample pairs.
pub open spec fn vector_count(len: int) -> int {
    if len < VECTOR_POINTS {
        len
    } else {
        VECTOR_POINTS as int
    }
}

/// The smaller of two lengths.
pub open spec fn shorter(a: int, b: int) -> int {
    if a < b {
        a
    } else {
        b
    }
}

/// Half the difference of the channels, amplified.
pub open spec fn side(l: Sample, r: Sample, gain: int) -> int {
    trunc(trunc(amplitude(l) - amplitude(r), 2) * gain, ONE as int)
}

/// Half the sum of the channels, amplified.
pub open spec fn mid(l: Sample, r: Sample, gain: int) -> int {
    trunc(trunc(amplitude(l) + amplitude(r), 2) * gain, ONE as int)
}

/// `x` is the saturated side signal, corrected for the aspect ratio.
pub open spec fn side_at<S: Fn(i64) -> i64>(saturate: S, v: int, aspect: int, x: int) -> bool {
    exists|b: int| #[trigger] bent(saturate, v, b) && x == trunc(b * ONE, aspect)
}

/// `pts` plots the channels against each other in mid/side rotation: the
/// difference across, the sum upward.
pub open spec fn plotted<S: Fn(i64) -> i64>(
    saturate: S,
    left: Seq<Sample>,
    right: Seq<Sample>,
    rms: Sample,
    aspect: int,
    pts: Seq<Point>,
) -> bool {
    let len = shorter(left.len() as int, right.len() as int);
    let n = vector_count(len);
    &&& pts.len() == n
    &&& forall|k: int|
        0 <= k < n ==> side_at(
            saturate,
            side(left[k * len / n], right[k * len / n], gain_of(rms)),
            aspect,
            (#[trigger] pts[k]).x as int,
        ) && bent(
            saturate,
            mid(left[k * len / n], right[k * len / n], gain_of(rms)),
            pts[k].y as int,
        )
}

/// Fully mono material collapses to a vertical line.
pub proof fn law_mono_is_vertical<S: Fn(i64) -> i64>(
    saturate: S,
    wave: Seq<Sample>,
    rms: Sample,
    aspect: int,
    pts: Seq<Point>,
    k: int,
)
    requires
        plotted(saturate, wave, wave, rms, aspect, pts),
        aspect > 0,
        0 <= k < pts.len(),
    ensures
        pts[k].x == 0,
{
    let len = wave.len() as int;
    let n = vector_count(len);
    let s = wave[k * len / n];
    assert(side(s, s, gain_of(rms)) == 0) by {
        assert(0 * gain_of(rms) == 0) by (nonlinear_arith);
    }
    assert(side_at(saturate, 0, aspect, pts[k].x as int));
    assert(0 * ONE == 0);
    vstd::arithmetic::div_mod::lemma_basic_div(0, aspect);
}

/// The vectorscope: a stereo trace of one channel against the other.
pub struct Vectorscope {
    /// Points of the latest trace.
    pub pts: Vec<Point>,
}

impl Vectorscope {
    /// A blank scope.
    pub fn new() -> (r: Self)
        ensures
            r.wf(),
            r.pts@.len() == 0,
    {
        Vectorscope { pts: Vec::with_capacity(VECTOR_POINTS) }
    }
}

fn amplify(v: i64, gain: i64) -> (r: i64)
    requires
        -2 * LOUD <= v <= 2 * LOUD,
        0 <= gain <= 6_400_000_000,
    ensures
        r == trunc(trunc(v as int, 2) * gain, ONE as int),
{
    proof {
        lemma_trunc(v as int, 2, LOUD as int);
    }
    let h: i64 = mul_div(v, 1, 2);
    proof {
        assert(-6_400_000_000_000_000_000_000_000 <= h * gain
            <= 6_400_000_000_000_000_000_000_000) by (nonlinear_arith)
            requires
                -1_000_000_000_000_000 <= h <= 1_000_000_000_000_000,
                0 <= gain <= 6_400_000_000,
        ;
    }
    mul_div(h, gain, ONE)
}

fn plot<S: Fn(i64) -> i64>(
    left: &[Sample],
    right: &[Sample],
    rms: Sample,
    aspect: i64,
    saturate: &S,
) -> (pts: Vec<Point>)
    requires
        TRACE_MIN <= left@.len() <= 0x4000_0000,
        TRACE_MIN <= right@.len() <= 0x4000_0000,
        1_000_000 <= aspect <= 65_536 * ONE,
        forall|a: i64| call_requires(saturate, (a,)),
    ensures
        plotted(*saturate, left@, right@, rms, aspect as int, pts@),
        TRACE_MIN <= pts@.len() <= VECTOR_POINTS,
        all_near(pts@),
        forall|i: int|
            0 <= i < pts@.len() ==> -920_000_000 <= (#[trigger] pts@[i]).y <= 920_000_000,
{
    let len: usize = if left.len() < right.len() {
        left.len()
    } else {
        right.len()
    };
    let n: usize = if len < VECTOR_POINTS {
        len
    } else {
        VECTOR_POINTS
    };
    let gain: i64 = read_gain(rms);
    let mut pts: Vec<Point> = Vec::with_capacity(n);
    let mut k: usize = 0;
    while k < n
        invariant
            forall|a: i64| call_requires(saturate, (a,)),
            1_000_000 <= aspect <= 65_536 * ONE,
            len == shorter(left@.len() as int, right@.len() as int),
            TRACE_MIN <= len <= 0x4000_0000,
            n == vector_count(len as int),
            TRACE_MIN <= n <= VECTOR_POINTS,
            k <= n,
            gain == gain_of(rms),
            0 <= gain <= 6_400_000_000,
            pts@.len() == k,
            forall|j: int|
                0 <= j < k ==> side_at(
                    *saturate,
                    side(
                        left@[j * len / (n as int)],
                        right@[j * len / (n as int)],
                        gain as int,
                    ),
                    aspect as int,
                    (#[trigger] pts@[j]).x as int,
                ) && bent(
                    *saturate,
                    mid(left@[j * len / (n as int)], right@[j * len / (n as int)], gain as int),
                    pts@[j].y as int,
                ),
            all_near(pts@),
            forall|i: int|
                0 <= i < pts@.len() ==> -920_000_000 <= (#[trigger] pts@[i]).y <= 920_000_000,
        decreases n - k,
    {
        assert(0 <= k * len <= 512 * 0x4000_0000 && (k * len) / (n as int) < len)
            by (nonlinear_arith)
            requires
                0 <= k < n,
                n <= 512,
                1 <= len <= 0x4000_0000,
        ;
        let j: usize = (k as u64 * len as u64 / n as u64) as usize;
        assert(j == k * len / (n as int));
        let l: i64 = read_amplitude(left[j]);
        let r: i64 = read_amplitude(right[j]);
        let across: i64 = bend(saturate, amplify(l - r, gain));
        let y: i64 = bend(saturate, amplify(l + r, gain));
        proof {
            assert(1_000_000_000_000 * aspect >= 1_000_000_000_000_000_000) by (nonlinear_arith)
                requires
                    aspect >= 1_000_000,
            ;
            assert((-1_000_000_000_000) * aspect <= -1_000_000_000_000_000_000)
                by (nonlinear_arith)
                requires
                    aspect >= 1_000_000,
            ;
            lemma_trunc(across * ONE, aspect as int, 1_000_000_000_000);
        }
        let x: i64 = mul_div(across, ONE, aspect);
        assert(bent(*saturate, side(left@[j as int], right@[j as int], gain as int), across as int));
        pts.push(Point { x, y });
        k = k + 1;
    }
    pts
}

impl Vectorscope {
    /// `after` and `shapes` are what drawing `frame` leaves and gives.
    pub open spec fn drawn<
        E: Fn(u64, u64) -> i64,
        P: Fn(i64, i64) -> i64,
        W: Fn(i64) -> i64,
        S: Fn(i64) -> i64,
    >(
        before: Vectorscope,
        after: Vectorscope,
        frame: &FrameData,
        screen: Screen,
        curves: &Curves<E, P, W, S>,
        shapes: Seq<Shape>,
    ) -> bool {
        &&& shorter(
            frame.left_waveform@.len() as int,
            frame.right_waveform@.len() as int,
        ) < TRACE_MIN ==> after.pts@ == before.pts@ && shapes.len() == 0
        &&& shorter(
            frame.left_waveform@.len() as int,
            frame.right_waveform@.len() as int,
        ) >= TRACE_MIN ==> plotted(
            curves.saturate,
            frame.left_waveform@,
            frame.right_waveform@,
            frame.rms,
            screen.aspect(),
            after.pts@,
        ) && marks(shapes) == seq![trace_mark(frame.stops@, after.pts@)]
    }
}

impl Visualizer for Vectorscope {
    open spec fn wf(&self) -> bool {
        true
    }

    open spec fn label(&self) -> Seq<char> {
        "Vectorscope"@
    }

    fn name(&self) -> (r: &'static str) {
        "Vectorscope"
    }

    fn draw<
        E: Fn(u64, u64) -> i64,
        P: Fn(i64, i64) -> i64,
        W: Fn(i64) -> i64,
        S: Fn(i64) -> i64,
    >(&mut self, frame: &FrameData, screen: Screen, curves: &Curves<E, P, W, S>) -> (shapes: Vec<
        Shape,
    >)
        ensures
            Vectorscope::drawn(*old(self), *final(self), frame, screen, curves, shapes@),
    {
        let mut shapes: Vec<Shape> = Vec::with_capacity(1);
        if frame.left_waveform.len() < TRACE_MIN || frame.right_waveform.len() < TRACE_MIN {
            assert(marks(shapes@) =~= Seq::<Mark>::empty());
            return shapes;
        }
        let pts: Vec<Point> = plot(
            frame.left_waveform,
            frame.right_waveform,
            frame.rms,
            aspect(screen.width, screen.height),
            &curves.saturate,
        );
        self.pts = copy_points(&pts);
        shapes.push(trace_shape(frame.stops, pts));
        proof {
            let list = marks(shapes@);
            assert(list =~= seq![trace_mark(frame.stops@, self.pts@)]);
            assert(total_cost(list, 0) == 0 && total_facets(list, 0) == 0);
            assert(total_cost(list, 1) == list[0].cost());
            assert(total_facets(list, 1) == list[0].facets());
        }
        shapes
    }
}

// -- what a trace looks like --------------------------------------------------
/// Points of a trace are spaced evenly from the left edge of the screen to the
/// right.
pub proof fn law_trace_spans_screen(k: int, n: int)
    requires
        0 <= k < n,
        2 <= n,
    ensures
        0 <= 2_000_000_000 * k - (n - 1) * (trace_x(k, n) + 1_000_000_000) < n - 1,
        k == 0 ==> trace_x(k, n) == -1_000_000_000,
        k == n - 1 ==> trace_x(k, n) == 1_000_000_000,
{
    let t = 2 * k * 1_000_000_000;
    let m = n - 1;
    vstd::arithmetic::div_mod::lemma_fundamental_div_mod(t, m);
    vstd::arithmetic::div_mod::lemma_mod_bound(t, m);
    let q = t / m;
    if k == 0 {
        assert(q == 0) by (nonlinear_arith)
            requires
                m * q <= 0 < m * q + m,
                m >= 1,
        ;
    }
    if k == m {
        assert(q == 2_000_000_000) by (nonlinear_arith)
            requires
                m * q <= 2_000_000_000 * m < m * q + m,
                m >= 1,
        ;
    }
}

/// The trace shows three quarters of the wave, as far as 768 samples, in as many
/// buckets as there are samples, as far as 320; the buckets share the span evenly.
pub proof fn law_trace_span(len: int, k: int)
    requires
        2 <= len,
        0 <= k <= bucket_count(span_of(len)),
    ensures
        ({
            let span = span_of(len);
            let n = bucket_count(span);
            &&& 1 <= span <= 768
            &&& span < 768 ==> 4 * span <= 3 * len < 4 * span + 4
            &&& span == 768 ==> 3 * len >= 4 * 768
            &&& n <= 320
            &&& n < 320 ==> n == span
            &&& 0 <= k * span - n * bucket_from(k, span) < n
        }),
{
    let span = span_of(len);
    let n = bucket_count(span);
    let t = k * span;
    vstd::arithmetic::div_mod::lemma_fundamental_div_mod(t, n);
    vstd::arithmetic::div_mod::lemma_mod_bound(t, n);
}

/// Each point of the trace shows its own stretch of the wave, counted from where the
/// trace is triggered: the sample of the stretch that swings furthest, amplified and
/// bent. Returns the sample shown and its amplified swing.
pub proof fn law_trace_shows_wave<S: Fn(i64) -> i64>(
    saturate: S,
    wave: Seq<Sample>,
    rms: Sample,
    pts: Seq<Point>,
    k: int,
    i: int,
) -> (r: (Sample, int))
    requires
        traced(saturate, wave, rms, pts),
        2 <= wave.len(),
        0 <= k < pts.len(),
        ({
            let span = span_of(wave.len() as int);
            let start = trigger_of(wave, span);
            start + bucket_from(k, span) <= i < start + bucket_from(k + 1, span)
        }),
    ensures
        ({
            let (shown, swing) = r;
            let span = span_of(wave.len() as int);
            let start = trigger_of(wave, span);
            &&& pts.len() == bucket_count(span)
            &&& 0 <= i < wave.len()
            &&& !wave[i].nan() ==> magnitude(wave[i]) <= magnitude(shown)
            &&& magnitude(shown) == 0 || exists|j: int|
                start + bucket_from(k, span) <= j < start + bucket_from(k + 1, span) && shown
                    == #[trigger] wave[j]
            &&& -1_000_000_000 < amplitude(shown) * gain_of(rms) - 1_000_000_000 * swing
                < 1_000_000_000
            &&& bent(saturate, swing, pts[k].y as int)
        }),
{
    let span = span_of(wave.len() as int);
    law_trigger(wave, span);
    let start = trigger_of(wave, span);
    law_buckets_partition(k, span);
    let (from, to) = (start + bucket_from(k, span), start + bucket_from(k + 1, span));
    lemma_extreme_member(wave, from, to);
    if !wave[i].nan() {
        law_extreme_is_loudest(wave, from, to, i);
    }
    let e = extreme(wave, from, to);
    let swing = trace_amplitude(wave, start, span, gain_of(rms), k);
    assert(pts[k].x == trace_x(k, bucket_count(span)));
    (e, swing)
}

/// A swing is shown at 92 hundredths of what the saturation makes of it, held within
/// one; no swing stays on the axis.
pub proof fn law_bent<S: Fn(i64) -> i64>(saturate: S, v: i64, y: int) -> (s: i64)
    requires
        bent(saturate, v as int, y),
    ensures
        v == 0 ==> y == 0,
        v != 0 ==> call_ensures(saturate, (v,), s),
        v != 0 && -1_000_000_000 <= s <= 1_000_000_000 ==> -100 < 92 * s - 100 * y < 100,
        v != 0 && s > 1_000_000_000 ==> y == 920_000_000,
        v != 0 && s < -1_000_000_000 ==> y == -920_000_000,
{
    choose|s: i64|
        #![trigger call_ensures(saturate, (v as i64,), s)]
        call_ensures(saturate, (v as i64,), s) && y == trunc(
            clamped(s as int, -ONE as int, ONE as int) * 92,
            100,
        )
}

/// The gain falls with the root of the level: it is 1.6 over that root, which is
/// taken as no less than a quarter, of a level of no less than 0.02. Returns the
/// level and its root.
pub proof fn law_gain(rms: Sample) -> (r: (int, int))
    requires
        rms.finite() || rms.nan(),
    ensures
        ({
            let (level, root) = r;
            let by = if root < 250_000_000 {
                250_000_000
            } else {
                root
            };
            &&& level >= 20_000_000
            &&& rms.finite() && !rms.negative() && rms.billionths() >= 20_000_000 ==> level
                == rms.billionths()
            &&& rms.nan() || rms.negative() || rms.billionths() < 20_000_000 ==> level
                == 20_000_000
            &&& 0 <= root
            &&& root * root <= 1_000_000_000 * level < (root + 1) * (root + 1)
            &&& 0 <= 1_600_000_000_000_000_000 - gain_of(rms) * by < by
        }),
{
    let level = level_of(rms);
    let q = level * 1_000_000_000;
    lemma_floor_root_at_least(q, 0);
    let root = floor_root(q);
    let by = if root < 250_000_000 {
        250_000_000
    } else {
        root
    };
    vstd::arithmetic::div_mod::lemma_fundamental_div_mod(1_600_000_000_000_000_000, by);
    vstd::arithmetic::div_mod::lemma_mod_bound(1_600_000_000_000_000_000, by);
    let g = 1_600_000_000_000_000_000int / by;
    assert(by * g == g * by) by (nonlinear_arith);
    (level, root)
}

/// What is louder is amplified no more.
pub proof fn law_louder_gains_less(a: Sample, b: Sample)
    requires
        a.finite(),
        b.finite(),
        !a.negative(),
        !b.negative(),
        a.billionths() <= b.billionths(),
    ensures
        gain_of(b) <= gain_of(a),
{
    let (la, ra) = law_gain(a);
    let (lb, rb) = law_gain(b);
    assert(ra <= rb) by (nonlinear_arith)
        requires
            ra * ra <= 1_000_000_000 * la,
            1_000_000_000 * la <= 1_000_000_000 * lb,
            1_000_000_000 * lb < (rb + 1) * (rb + 1),
            0 <= ra,
            0 <= rb,
    ;
    let da = if ra < 250_000_000 {
        250_000_000
    } else {
        ra
    };
    let db = if rb < 250_000_000 {
        250_000_000
    } else {
        rb
    };
    let (ga, gb) = (gain_of(a), gain_of(b));
    assert(gb <= ga) by (nonlinear_arith)
        requires
            0 <= 1_600_000_000_000_000_000 - ga * da < da,
            0 <= 1_600_000_000_000_000_000 - gb * db < db,
            250_000_000 <= da <= db,
    ;
}

/// A point is colored by how far it stands from the axis: the palette is climbed in
/// proportion, to its top where a trace can reach no further.
pub proof fn law_trace_colors(stops: Seq<Stop>, pts: Seq<Point>, i: int) -> (tone: int)
    requires
        0 <= i < pts.len(),
        -920_000_000 <= pts[i].y <= 920_000_000,
    ensures
        ({
            let away = if pts[i].y < 0 {
                -pts[i].y
            } else {
                pts[i].y as int
            };
            &&& 0 <= 100 * away - 92 * tone < 92
            &&& trace_mark(stops, pts) matches Mark::Glow { pts: on, width, layers, colors } && on
                == pts && width == 2_000_000_000 && layers == 2 && colors.len() == pts.len()
                && colors[i] == ramp_color(stops, tone, 500_000_000)
        }),
{
    excursion_tone(pts[i].y as int)
}

/// The axis is a thin bar from edge to edge across the middle of the screen.
pub proof fn law_axis(stops: Seq<Stop>, height: int)
    ensures
        axis_mark(stops, height) matches Mark::RoundRect { x0, y0, x1, y1, radius, color } && x0
            == -1_000_000_000 && x1 == 1_000_000_000 && y0 == -y1 && y1 == pixel(height) && radius
            == 0 && color == ramp_color(stops, 0, 500_000_000),
{
}

/// The vectorscope plots both channels of one moment as one point: half their
/// difference, amplified and bent, to the right, and half their sum upwards; its
/// points take their moments evenly from the wave. Returns the moment and the two
/// amplified values.
pub proof fn law_plot_shows_channels<S: Fn(i64) -> i64>(
    saturate: S,
    left: Seq<Sample>,
    right: Seq<Sample>,
    rms: Sample,
    aspect: int,
    pts: Seq<Point>,
    k: int,
) -> (r: (int, int, int, int))
    requires
        plotted(saturate, left, right, rms, aspect, pts),
        aspect > 0,
        left.len() >= 1,
        right.len() >= 1,
        0 <= k < pts.len(),
    ensures
        ({
            let (at, across, up, b) = r;
            let len = if left.len() < right.len() {
                left.len() as int
            } else {
                right.len() as int
            };
            let n = pts.len() as int;
            let (l, m) = (amplitude(left[at]), amplitude(right[at]));
            let g = gain_of(rms);
            &&& n <= 512
            &&& n < 512 ==> n == len
            &&& 0 <= at < len
            &&& 0 <= k * len - n * at < n
            &&& across == trunc(trunc(l - m, 2) * g, 1_000_000_000)
            &&& up == trunc(trunc(l + m, 2) * g, 1_000_000_000)
            &&& bent(saturate, up, pts[k].y as int)
            &&& bent(saturate, across, b)
            &&& -aspect < 1_000_000_000 * b - aspect * pts[k].x < aspect
        }),
{
    let len = shorter(left.len() as int, right.len() as int);
    let n = vector_count(len);
    let t = k * len;
    vstd::arithmetic::div_mod::lemma_fundamental_div_mod(t, n);
    vstd::arithmetic::div_mod::lemma_mod_bound(t, n);
    let at = t / n;
    assert(0 <= at < len) by (nonlinear_arith)
        requires
            n * at <= t < n * at + n,
            t == k * len,
            0 <= k < n,
            1 <= len,
    ;
    let g = gain_of(rms);
    let (across, up) = (side(left[at], right[at], g), mid(left[at], right[at], g));
    assert(side_at(saturate, across, aspect, pts[k].x as int));
    let b = choose|b: int| #[trigger]
        bent(saturate, across, b) && pts[k].x == trunc(b * ONE, aspect);
    law_trunc(b * ONE, aspect);
    (at, across, up, b)
}

/// A sample swings by its level, up or down; what is not a number does not swing.
pub proof fn law_amplitude(s: Sample)
    ensures
        s.nan() ==> amplitude(s) == 0,
        s.finite() && -1_000_000_000_000_000 <= s.fixed() <= 1_000_000_000_000_000 ==> amplitude(s)
            == s.fixed(),
        -1_000_000_000_000_000 <= amplitude(s) <= 1_000_000_000_000_000,
        s.bits < 0x8000_0000 ==> amplitude(s) >= 0,
        s.bits >= 0x8000_0000 ==> amplitude(s) <= 0,
        !s.finite() && !s.nan() && !s.negative() ==> amplitude(s) == 1_000_000_000_000_000,
        !s.finite() && !s.nan() && s.negative() ==> amplitude(s) == -1_000_000_000_000_000,
{
    if s.finite() {
        crate::number::law_sample_value(s);
    }
}

/// The oscilloscope draws the axis and the trace of the wave, and nothing of a wave of
/// fewer than 64 samples.
pub proof fn law_trace_is_drawn<
    E: Fn(u64, u64) -> i64,
    P: Fn(i64, i64) -> i64,
    W: Fn(i64) -> i64,
    S: Fn(i64) -> i64,
>(
    before: Oscilloscope,
    after: Oscilloscope,
    frame: &FrameData,
    screen: Screen,
    curves: &Curves<E, P, W, S>,
    shapes: Seq<Shape>,
)
    requires
        Oscilloscope::drawn(before, after, frame, screen, curves, shapes),
    ensures
        frame.waveform@.len() < 64 ==> shapes.len() == 0 && after.pts@ == before.pts@,
        frame.waveform@.len() >= 64 ==> {
            &&& traced(curves.saturate, frame.waveform@, frame.rms, after.pts@)
            &&& shapes.len() == 2
            &&& marks(shapes)[0] == axis_mark(frame.stops@, screen.height as int)
            &&& marks(shapes)[1] == trace_mark(frame.stops@, after.pts@)
        },
{
    assert(marks(shapes).len() == shapes.len());
}

/// The vectorscope draws the left channel against the right, and nothing where either
/// has fewer than 64 samples.
pub proof fn law_plot_is_drawn<
    E: Fn(u64, u64) -> i64,
    P: Fn(i64, i64) -> i64,
    W: Fn(i64) -> i64,
    S: Fn(i64) -> i64,
>(
    before: Vectorscope,
    after: Vectorscope,
    frame: &FrameData,
    screen: Screen,
    curves: &Curves<E, P, W, S>,
    shapes: Seq<Shape>,
)
    requires
        Vectorscope::drawn(before, after, frame, screen, curves, shapes),
    ensures
        frame.left_waveform@.len() < 64 || frame.right_waveform@.len() < 64 ==> shapes.len() == 0
            && after.pts@ == before.pts@,
        frame.left_waveform@.len() >= 64 && frame.right_waveform@.len() >= 64 ==> {
            &&& plotted(
                curves.saturate,
                frame.left_waveform@,
                frame.right_waveform@,
                frame.rms,
                screen.aspect(),
                after.pts@,
            )
            &&& shapes.len() == 1
            &&& marks(shapes)[0] == trace_mark(frame.stops@, after.pts@)
        },
{
    assert(marks(shapes).len() == shapes.len());
}

/// The trace starts where the wave first rises through zero, with enough of the wave
/// behind it; where it nowhere does so, at the start.
pub proof fn law_trace_starts_rising(wave: Seq<Sample>, span: int, i: int)
    requires
        0 <= span <= wave.len(),
        0 < i < wave.len(),
    ensures
        ({
            let at = trigger_of(wave, span);
            &&& 0 <= at <= wave.len() - span
            &&& at > 0 ==> !wave[at - 1].nan() && !wave[at].nan() && wave[at - 1].rank() <= 0
                < wave[at].rank()
            &&& i < at || (at == 0 && i < wave.len() - span) ==> wave[i - 1].nan() || wave[i].nan()
                || wave[i - 1].rank() > 0 || wave[i].rank() <= 0
        }),
{
    law_trigger(wave, span);
    let at = trigger_of(wave, span);
    if at > 0 {
        assert(crosses(wave, at));
    }
    if i < at || (at == 0 && i < wave.len() - span) {
        assert(!crosses(wave, i));
    }
}

} // verus!
