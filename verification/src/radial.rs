//! Radial Burst: the spectrum wrapped around a bass-driven ring.

use crate::geometry::{pixels, to_px, PI};
use crate::mesh::TAU;
use crate::motion::{applied, tick_of, AutoRange, Clock, DT_CEILING};
use crate::number::{clamp, clamped, lemma_trunc, mul_div, trunc, Sample, ONE};
use crate::palette::{ramp_at, ramp_color, valid_stops, Stop};
use crate::shape::{
    all_in_gamut, all_valid, lemma_marks_push, lemma_total_concat, marks, total_cost, total_facets,
    Curves, FrameData, Mark, Screen, Shape, Visualizer, NUM_BANDS,
};
use vstd::prelude::*;

verus! {

/// Bass as read: limited to `0..=ONE`, silent when it is not a number.
pub open spec fn bass_of(s: Sample) -> int {
    if s.nan() {
        0
    } else if s.finite() {
        clamped(s.fixed(), 0, ONE as int)
    } else if s.negative() {
        0
    } else {
        ONE as int
    }
}

/// Read the bass level.
pub fn read_bass(s: Sample) -> (r: i64)
    ensures
        r == bass_of(s),
        0 <= r <= ONE,
{
    if s.is_nan() {
        0
    } else if s.is_finite() {
        clamp(s.to_fixed(), 0, ONE)
    } else if s.bits >= 0x8000_0000 {
        0
    } else {
        ONE
    }
}

/// Rotation after `dt`: 0.09 radians per second at rest, 0.24 more at full
/// bass, kept within one turn.
pub open spec fn rotated(rotation: int, bass: int, dt: int) -> int {
    (rotation + (90_000_000 + bass * 24 / 100) * dt / 1_000_000_000) % (TAU as int)
}

/// Hub radius: inflated by bass.
pub open spec fn hub(bass: int) -> int {
    200_000_000 + bass / 10
}

/// Spoke width in pixels: most of the pitch at the hub, within limits.
pub open spec fn spoke_width(bass: int, height: int) -> int {
    clamped(pixels(TAU * hub(bass) / 64_000_000_000, height) * 72 / 100, 2 * ONE, 14 * ONE)
}

/// Length of a spoke.
pub open spec fn spoke_reach(level: int) -> int {
    level * 62 / 100
}

/// Angle of band `i` from the axis, bass on the axis and treble half a turn
/// away.
pub open spec fn spoke_angle(i: int) -> int {
    trunc((i * ONE / 63) * PI, ONE as int)
}

/// Colors of a spoke. The position on the ramp is the absolute radial extent,
/// so a quiet spoke never reaches the hot end.
pub open spec fn spoke_colors(stops: Seq<Stop>, i: int, reach: int) -> Seq<[i64; 4]> {
    Seq::new(
        7,
        |k: int|
            ramp_color(
                stops,
                clamped(reach * k * ONE / 3_720_000_000, 0, ONE as int),
                i * ONE / 63,
            ),
    )
}

/// The spoke of band `i` on one side of the axis.
pub open spec fn spoke_mark(
    stops: Seq<Stop>,
    rotation: int,
    bass: int,
    height: int,
    i: int,
    level: int,
    side: int,
) -> Mark {
    Mark::Spoke {
        inner: hub(bass),
        reach: spoke_reach(level),
        angle: rotation + side * spoke_angle(i),
        width: spoke_width(bass, height),
        colors: spoke_colors(stops, i, spoke_reach(level)),
    }
}

/// Spokes of the first `n` bands, mirrored across the axis.
pub open spec fn spoke_marks(
    stops: Seq<Stop>,
    rotation: int,
    bass: int,
    height: int,
    hi: int,
    bands: Seq<Sample>,
    n: int,
) -> Seq<Mark> {
    Seq::new(
        (2 * n) as nat,
        |k: int|
            spoke_mark(
                stops,
                rotation,
                bass,
                height,
                k / 2,
                applied(hi, bands[k / 2]),
                if k % 2 == 0 {
                    1
                } else {
                    -1
                },
            ),
    )
}

/// The hub ring, riding the same ramp.
pub open spec fn hub_mark(stops: Seq<Stop>, bass: int) -> Mark {
    Mark::Ring {
        r: hub(bass) - 20_000_000,
        width: 2 * ONE,
        color: ramp_color(stops, 450_000_000 + bass * 35 / 100, 500_000_000),
    }
}

/// The two spokes of a band mirror each other across the axis: they differ only
/// in lying at opposite angles from it.
pub proof fn law_spokes_mirror(
    stops: Seq<Stop>,
    rotation: int,
    bass: int,
    height: int,
    i: int,
    level: int,
)
    ensures
        ({
            let right = spoke_mark(stops, rotation, bass, height, i, level, 1);
            let left = spoke_mark(stops, rotation, bass, height, i, level, -1);
            &&& right->Spoke_angle - rotation == rotation - left->Spoke_angle
            &&& right->Spoke_inner == left->Spoke_inner
            &&& right->Spoke_reach == left->Spoke_reach
            &&& right->Spoke_width == left->Spoke_width
            &&& right->Spoke_colors == left->Spoke_colors
        }),
{
}

/// The spectrum wrapped around a ring.
pub struct RadialBurst {
    pub rotation: i64,
    pub clock: Clock,
    pub range: AutoRange,
}

impl RadialBurst {
    /// A ring at rest.
    pub fn new() -> (r: Self)
        ensures
            r.wf(),
            r.rotation == 0,
            r.clock.last is None,
            r.range.hi == crate::motion::RANGE_SPAN,
    {
        RadialBurst { rotation: 0, clock: Clock::default(), range: AutoRange::new() }
    }
}

fn spoke_colors_of(stops: &[Stop], i: usize, reach: i64) -> (colors: Vec<[i64; 4]>)
    requires
        valid_stops(stops@),
        i < NUM_BANDS,
        0 <= reach <= 620_000_000,
    ensures
        colors@ == spoke_colors(stops@, i as int, reach as int),
        all_in_gamut(colors@),
{
    let mut colors: Vec<[i64; 4]> = Vec::with_capacity(7);
    let mut k: i64 = 0;
    while k < 7
        invariant
            0 <= k <= 7,
            valid_stops(stops@),
            i < NUM_BANDS,
            0 <= reach <= 620_000_000,
            colors@.len() == k,
            forall|j: int|
                0 <= j < k ==> #[trigger] colors@[j] == spoke_colors(
                    stops@,
                    i as int,
                    reach as int,
                )[j],
            all_in_gamut(colors@),
        decreases 7 - k,
    {
        assert(0 <= reach * k <= 620_000_000 * 6) by (nonlinear_arith)
            requires
                0 <= reach <= 620_000_000,
                0 <= k <= 6,
        ;
        let tone: i64 = clamp(reach * k * ONE / 3_720_000_000, 0, ONE);
        colors.push(ramp_at(stops, tone, i as i64 * ONE / 63));
        k = k + 1;
    }
    assert(colors@ =~= spoke_colors(stops@, i as int, reach as int));
    colors
}

fn spoke_width_of(bass: i64, height: u32) -> (w: i64)
    requires
        0 <= bass <= ONE,
        1 <= height <= 65_536,
    ensures
        w == spoke_width(bass as int, height as int),
        2 * ONE <= w <= 14 * ONE,
{
    let inner: i64 = 200_000_000 + bass / 10;
    assert(0 <= TAU * inner <= 6_283_185_307 * 300_000_000) by (nonlinear_arith)
        requires
            0 <= inner <= 300_000_000,
            TAU == 6_283_185_307,
    ;
    let pitch: i64 = TAU * inner / 64_000_000_000;
    assert(0 <= pitch * height <= 30_000_000 * 65_536) by (nonlinear_arith)
        requires
            0 <= pitch <= 30_000_000,
            0 <= height <= 65_536,
    ;
    proof {
        lemma_trunc(pitch * height, 2, 1_966_080_000_000);
    }
    clamp(to_px(pitch, height) * 72 / 100, 2 * ONE, 14 * ONE)
}

proof fn lemma_spoke_budget(list: Seq<Mark>, n: int)
    requires
        0 <= n <= list.len(),
        forall|i: int|
            0 <= i < list.len() ==> (#[trigger] list[i]).cost() == 98 && list[i].facets() == 138,
    ensures
        total_cost(list, n) == 98 * n,
        total_facets(list, n) == 138 * n,
    decreases n,
{
    if n > 0 {
        lemma_spoke_budget(list, n - 1);
    }
}

fn turn_by(rotation: i64, bass: i64, dt: u64) -> (r: i64)
    requires
        0 <= rotation < TAU,
        0 <= bass <= ONE,
        dt <= DT_CEILING,
    ensures
        r == rotated(rotation as int, bass as int, dt as int),
        0 <= r < TAU,
{
    let rate: i64 = 90_000_000 + bass * 24 / 100;
    assert(0 <= rate * dt <= 330_000_000 * 100_000_000) by (nonlinear_arith)
        requires
            0 <= rate <= 330_000_000,
            0 <= dt <= 100_000_000,
    ;
    (rotation + rate * dt as i64 / 1_000_000_000) % TAU
}

fn spokes(stops: &[Stop], range: &AutoRange, rotation: i64, bass: i64, height: u32, bands: &[Sample]) -> (
    shapes: Vec<Shape>)
    requires
        valid_stops(stops@),
        range.wf(),
        0 <= rotation < TAU,
        0 <= bass <= ONE,
        1 <= height <= 65_536,
        bands@.len() == NUM_BANDS,
    ensures
        marks(shapes@) == spoke_marks(
            stops@,
            rotation as int,
            bass as int,
            height as int,
            range.hi as int,
            bands@,
            NUM_BANDS as int,
        ),
        all_valid(marks(shapes@)),
        forall|i: int|
            0 <= i < shapes@.len() ==> (#[trigger] marks(shapes@)[i]).cost() == 98 && marks(
                shapes@,
            )[i].facets() == 138,
{
    let width: i64 = spoke_width_of(bass, height);
    let inner: i64 = 200_000_000 + bass / 10;
    let ghost want = spoke_marks(
        stops@,
        rotation as int,
        bass as int,
        height as int,
        range.hi as int,
        bands@,
        NUM_BANDS as int,
    );
    let mut shapes: Vec<Shape> = Vec::with_capacity(2 * NUM_BANDS + 1);
    let mut i: usize = 0;
    while i < NUM_BANDS
        invariant
            i <= NUM_BANDS,
            valid_stops(stops@),
            range.wf(),
            0 <= rotation < TAU,
            0 <= bass <= ONE,
            bands@.len() == NUM_BANDS,
            width == spoke_width(bass as int, height as int),
            2 * ONE <= width <= 14 * ONE,
            inner == hub(bass as int),
            want == spoke_marks(
                stops@,
                rotation as int,
                bass as int,
                height as int,
                range.hi as int,
                bands@,
                NUM_BANDS as int,
            ),
            shapes@.len() == 2 * i,
            forall|j: int| 0 <= j < 2 * i ==> (#[trigger] shapes@[j])@ == want[j],
            forall|j: int|
                0 <= j < 2 * i ==> (#[trigger] shapes@[j])@.valid() && shapes@[j]@.cost() == 98
                    && shapes@[j]@.facets() == 138,
        decreases NUM_BANDS - i,
    {
        let level: i64 = range.apply(bands[i]);
        let reach: i64 = level * 62 / 100;
        let at: i64 = i as i64 * ONE / 63;
        assert(0 <= at * PI <= 1_000_000_000 * 3_141_592_654) by (nonlinear_arith)
            requires
                0 <= at <= 1_000_000_000,
                PI == 3_141_592_654,
        ;
        proof {
            lemma_trunc(at * PI, ONE as int, 3_141_592_654);
            assert((2 * i) / 2 == i && (2 * i) % 2 == 0);
            assert((2 * i + 1) / 2 == i && (2 * i + 1) % 2 == 1);
        }
        let angle: i64 = mul_div(at, PI, ONE);
        shapes.push(
            Shape::Spoke {
                inner,
                reach,
                angle: rotation + angle,
                width,
                colors: spoke_colors_of(stops, i, reach),
            },
        );
        shapes.push(
            Shape::Spoke {
                inner,
                reach,
                angle: rotation - angle,
                width,
                colors: spoke_colors_of(stops, i, reach),
            },
        );
        assert(shapes@[2 * i as int]@ == want[2 * i as int]);
        assert(shapes@[2 * i + 1]@ == want[2 * i + 1]);
        i = i + 1;
    }
    assert(marks(shapes@) =~= want);
    shapes
}

impl RadialBurst {
    /// `after` and `shapes` are what drawing `frame` leaves and gives.
    pub open spec fn drawn<
        E: Fn(u64, u64) -> i64,
        P: Fn(i64, i64) -> i64,
        W: Fn(i64) -> i64,
        S: Fn(i64) -> i64,
    >(
        before: RadialBurst,
        after: RadialBurst,
        frame: &FrameData,
        screen: Screen,
        curves: &Curves<E, P, W, S>,
        shapes: Seq<Shape>,
    ) -> bool {
        &&& after.clock.last == Some(frame.time)
        &&& AutoRange::updated(
            before.range,
            after.range,
            frame.bands@,
            tick_of(before.clock.last, frame.time),
            &curves.ease,
        )
        &&& after.rotation == rotated(
            before.rotation as int,
            bass_of(frame.bass),
            tick_of(before.clock.last, frame.time) as int,
        )
        &&& marks(shapes) == spoke_marks(
            frame.stops@,
            after.rotation as int,
            bass_of(frame.bass),
            screen.height as int,
            after.range.hi as int,
            frame.bands@,
            NUM_BANDS as int,
        ).push(hub_mark(frame.stops@, bass_of(frame.bass)))
    }
}

impl Visualizer for RadialBurst {
    open spec fn wf(&self) -> bool {
        self.range.wf() && 0 <= self.rotation < TAU
    }

    open spec fn label(&self) -> Seq<char> {
        "Radial Burst"@
    }

    fn name(&self) -> (r: &'static str) {
        "Radial Burst"
    }

    fn draw<
        E: Fn(u64, u64) -> i64,
        P: Fn(i64, i64) -> i64,
        W: Fn(i64) -> i64,
        S: Fn(i64) -> i64,
    >(&mut self, frame: &FrameData, screen: Screen, curves: &Curves<E, P, W, S>) -> (shapes: Vec<
        Shape,
    >)
        ensures
            RadialBurst::drawn(*old(self), *final(self), frame, screen, curves, shapes@),
    {
        let dt: u64 = self.clock.tick(frame.time);
        self.range.update(frame.bands, dt, &curves.ease);
        let bass: i64 = read_bass(frame.bass);
        self.rotation = turn_by(self.rotation, bass, dt);
        let mut shapes: Vec<Shape> = spokes(
            frame.stops,
            &self.range,
            self.rotation,
            bass,
            screen.height,
            frame.bands,
        );
        let ring: Shape = Shape::Ring {
            r: 200_000_000 + bass / 10 - 20_000_000,
            width: 2 * ONE,
            color: ramp_at(frame.stops, 450_000_000 + bass * 35 / 100, 500_000_000),
        };
        proof {
            let list = marks(shapes@);
            lemma_marks_push(shapes@, ring);
            lemma_spoke_budget(list, list.len() as int);
            let one = seq![ring@];
            lemma_total_concat(list, one);
            assert(total_cost(one, 0) == 0 && total_facets(one, 0) == 0);
            assert(total_cost(one, 1) == 1100 && total_facets(one, 1) == 1638);
            assert(list.push(ring@) =~= list + one);
        }
        shapes.push(ring);
        shapes
    }
}

// -- what a burst looks like --------------------------------------------------
/// A level raises its spoke by 62 hundredths of it.
pub proof fn law_spoke_reach(level: int)
    ensures
        0 <= 62 * level - 100 * spoke_reach(level) < 100,
{
}

/// The spokes of one side fan out evenly over half a turn: the lowest band points
/// along the rotation and the highest against it.
pub proof fn law_spokes_fan_out(i: int)
    requires
        0 <= i < 64,
    ensures
        0 <= 3_141_592_654 * i - 63 * spoke_angle(i) < 300,
        i == 0 ==> spoke_angle(i) == 0,
        i == 63 ==> spoke_angle(i) == 3_141_592_654,
{
    let t = i * ONE / 63;
    let n = t * 3_141_592_654;
}

/// The hub swells with the bass, from a fifth of the half-screen by up to a tenth.
pub proof fn law_hub(bass: int)
    ensures
        0 <= 2_000_000_000 + bass - 10 * hub(bass) < 10,
{
}

/// Spokes are as wide as 72 hundredths of the room that each of 64 has around the
/// hub, from 2 pixels to 14.
pub proof fn law_spoke_width(bass: int, height: int) -> (room: int)
    ensures
        0 <= 6_283_185_307 * hub(bass) - 64_000_000_000 * room < 64_000_000_000,
        2_000_000_000 <= spoke_width(bass, height) <= 14_000_000_000,
        2_000_000_000 < spoke_width(bass, height) < 14_000_000_000 ==> 0 <= 72 * pixels(
            room,
            height,
        ) - 100 * spoke_width(bass, height) < 100,
        spoke_width(bass, height) == 2_000_000_000 ==> 72 * pixels(room, height)
            < 200_000_000_100,
        spoke_width(bass, height) == 14_000_000_000 ==> 72 * pixels(room, height)
            >= 1_400_000_000_000,
{
    TAU * hub(bass) / 64_000_000_000
}

/// The burst turns at 0.09 radians a second, and by up to 0.24 more with the bass,
/// around and around.
pub proof fn law_burst_turns(rotation: int, bass: int, dt: int) -> (r: (int, int))
    requires
        0 <= rotation < 6_283_185_307,
        0 <= bass <= 1_000_000_000,
        0 <= dt <= 100_000_000,
    ensures
        ({
            let (speed, by) = r;
            &&& 0 <= 9_000_000_000 + 24 * bass - 100 * speed < 100
            &&& 0 <= speed * dt - 1_000_000_000 * by < 1_000_000_000
            &&& rotated(rotation, bass, dt) == rotation + by || rotated(rotation, bass, dt)
                == rotation + by - 6_283_185_307
            &&& 0 <= rotated(rotation, bass, dt) < 6_283_185_307
        }),
{
    let speed = 90_000_000 + bass * 24 / 100;
    let n = speed * dt;
    assert(0 <= n <= 330_000_000 * 100_000_000) by (nonlinear_arith)
        requires
            n == speed * dt,
            0 <= speed <= 330_000_000,
            0 <= dt <= 100_000_000,
    ;
    (speed, n / 1_000_000_000)
}

/// The bass is the sample's level on the scale; what is not a number is silence.
pub proof fn law_bass(s: Sample)
    ensures
        0 <= bass_of(s) <= 1_000_000_000,
        s.nan() ==> bass_of(s) == 0,
        s.finite() && 0 <= s.fixed() <= 1_000_000_000 ==> bass_of(s) == s.fixed(),
        s.bits > 0x8000_0000 ==> bass_of(s) == 0,
        s.bits < 0x8000_0000 && !s.nan() && !(s.finite() && s.fixed() < 1_000_000_000) ==> bass_of(
            s,
        ) == 1_000_000_000,
{
    if s.finite() && s.bits > 0x8000_0000 {
        crate::number::law_sample_value(s);
    }
}

/// Each band has two spokes of its own, one to each side of the rotation at the same
/// angle, both as long as that band's level as the range shows it. They grow out of
/// the hub, and their colors climb the palette from its foot as far as they reach,
/// at the hue of the band's place among the bands.
pub proof fn law_spokes_show_their_bands<
    E: Fn(u64, u64) -> i64,
    P: Fn(i64, i64) -> i64,
    W: Fn(i64) -> i64,
    S: Fn(i64) -> i64,
>(
    before: RadialBurst,
    after: RadialBurst,
    frame: &FrameData,
    screen: Screen,
    curves: &Curves<E, P, W, S>,
    shapes: Seq<Shape>,
    i: int,
    mirrored: bool,
) -> (colors: Seq<[i64; 4]>)
    requires
        RadialBurst::drawn(before, after, frame, screen, curves, shapes),
        0 <= i < 64,
    ensures
        ({
            let bass = bass_of(frame.bass);
            let reach = spoke_reach(applied(after.range.hi as int, frame.bands@[i]));
            &&& shapes.len() == 129
            &&& marks(shapes)[if mirrored {
                2 * i + 1
            } else {
                2 * i
            }] == Mark::Spoke {
                inner: hub(bass),
                reach,
                angle: if mirrored {
                    after.rotation - spoke_angle(i)
                } else {
                    after.rotation + spoke_angle(i)
                },
                width: spoke_width(bass, screen.height as int),
                colors,
            }
            &&& colors.len() == 7
        }),
{
    let list = marks(shapes);
    assert((2 * i) / 2 == i && (2 * i + 1) / 2 == i);
    assert((2 * i) % 2 == 0 && (2 * i + 1) % 2 == 1);
    assert(list.len() == shapes.len());
    assert(1 * spoke_angle(i) == spoke_angle(i) && -1 * spoke_angle(i) == -spoke_angle(i));
    spoke_colors(
        frame.stops@,
        i,
        spoke_reach(applied(after.range.hi as int, frame.bands@[i])),
    )
}

/// Along a spoke the palette is climbed in proportion to the distance from the hub,
/// to its top where a spoke reaches as far as any can.
pub proof fn law_spoke_colors(stops: Seq<Stop>, i: int, reach: int, k: int) -> (tone: int)
    requires
        0 <= i < 64,
        0 <= reach <= 620_000_000,
        0 <= k < 7,
    ensures
        0 <= tone <= 1_000_000_000,
        0 <= 1_000_000_000 * (reach * k) - 3_720_000_000 * tone < 3_720_000_000,
        spoke_colors(stops, i, reach)[k] == ramp_color(stops, tone, 1_000_000_000 * i / 63),
{
    let n = reach * k;
    assert(0 <= n <= 3_720_000_000) by (nonlinear_arith)
        requires
            n == reach * k,
            0 <= reach <= 620_000_000,
            0 <= k <= 6,
    ;
    n * ONE / 3_720_000_000
}

/// The ring stands just inside the hub, brighter the more bass there is.
pub proof fn law_hub_ring<
    E: Fn(u64, u64) -> i64,
    P: Fn(i64, i64) -> i64,
    W: Fn(i64) -> i64,
    S: Fn(i64) -> i64,
>(
    before: RadialBurst,
    after: RadialBurst,
    frame: &FrameData,
    screen: Screen,
    curves: &Curves<E, P, W, S>,
    shapes: Seq<Shape>,
) -> (tone: int)
    requires
        RadialBurst::drawn(before, after, frame, screen, curves, shapes),
    ensures
        ({
            let bass = bass_of(frame.bass);
            &&& shapes.len() == 129
            &&& 0 <= 45_000_000_000 + 35 * bass - 100 * tone < 100
            &&& marks(shapes)[128] == Mark::Ring {
                r: hub(bass) - 20_000_000,
                width: 2_000_000_000,
                color: ramp_color(frame.stops@, tone, 500_000_000),
            }
        }),
{
    assert(marks(shapes).len() == shapes.len());
    450_000_000 + bass_of(frame.bass) * 35 / 100
}

/// The burst keeps the time of its frames: over the time between them it turns with
/// the bass, and its range follows the bands.
pub proof fn law_burst_keeps_time<
    E: Fn(u64, u64) -> i64,
    P: Fn(i64, i64) -> i64,
    W: Fn(i64) -> i64,
    S: Fn(i64) -> i64,
>(
    before: RadialBurst,
    after: RadialBurst,
    frame: &FrameData,
    screen: Screen,
    curves: &Curves<E, P, W, S>,
    shapes: Seq<Shape>,
)
    requires
        RadialBurst::drawn(before, after, frame, screen, curves, shapes),
    ensures
        ({
            let dt = tick_of(before.clock.last, frame.time);
            &&& after.clock.last == Some(frame.time)
            &&& AutoRange::updated(before.range, after.range, frame.bands@, dt, &curves.ease)
            &&& after.rotation == rotated(
                before.rotation as int,
                bass_of(frame.bass),
                dt as int,
            )
        }),
{
}

} // verus!
