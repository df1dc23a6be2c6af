//! Spectrum Area: one filled silhouette with a glowing crest and a faded
//! reflection.

use crate::geometry::{fade, faded, near, point};
use crate::mesh::MeshBuilder;
use crate::motion::{applied, tick_of, AutoRange, Clock};
use crate::number::{clamp, clamped, lemma_trunc, mul_div, trunc, Sample, ONE};
use crate::palette::{ramp_at, ramp_color, valid_stops, Stop};
use crate::shape::{
    all_in_gamut, all_near, all_valid, lemma_marks_push, lemma_total_concat, marks, total_cost,
    total_facets, Curves, FrameData, Mark, Screen, Shape, Visualizer, NUM_BANDS,
};
use crate::spline::{
    curve, drawable, law_curve_through, law_stays_within, lemma_curve, resample_monotone, steps,
    Point,
};
use vstd::prelude::*;

verus! {

/// Baseline of the silhouette.
pub const AREA_BASE: i64 = -750_000_000;

/// Height of a full-scale peak.
pub const AREA_HEIGHT: i64 = 1_500_000_000;

/// Spline subdivisions per band.
pub const AREA_SUBDIV: usize = 4;

/// Height of one slab of the reflection.
pub const AREA_REFLECT_SLAB: i64 = 65_625_000;

/// Alpha of the reflection.
pub const AREA_REFLECT_ALPHA: i64 = 280_000_000;

/// Columns whose clipped heights differ by no more than this are one flat run.
pub const FLAT: i64 = 100;

/// Horizontal position of band `b`.
pub open spec fn area_x(b: int) -> int {
    2 * b * ONE / 63 - ONE
}

/// Control points of the silhouette.
pub open spec fn area_points(hi: int, bands: Seq<Sample>) -> Seq<Point> {
    Seq::new(64, |b: int| point(area_x(b), AREA_BASE + applied(hi, bands[b]) * 3 / 2))
}

/// The silhouette.
pub open spec fn area_curve(hi: int, bands: Seq<Sample>) -> Seq<Point> {
    curve(area_points(hi, bands), AREA_SUBDIV as int)
}

/// Number of gradient slabs: one per four pixels, within limits.
pub open spec fn slab_count(height: int) -> int {
    clamped((6 * height + 16) / 32, 12, 60)
}

/// Lower edge of slab `k` of `n`.
pub open spec fn slab_edge(k: int, n: int) -> int {
    AREA_BASE + k * AREA_HEIGHT / n
}

/// Slabs abut exactly and together cover the whole height, so the gradient has
/// no seams.
pub proof fn law_slabs_abut(k: int, n: int)
    requires
        0 <= k < n,
    ensures
        slab_edge(k, n) <= slab_edge(k + 1, n),
        slab_edge(0, n) == AREA_BASE,
        slab_edge(n, n) == AREA_BASE + AREA_HEIGHT,
{
    let h = 1_500_000_000int;
    assert(k * h <= (k + 1) * h);
    vstd::arithmetic::div_mod::lemma_div_is_ordered(k * h, (k + 1) * h, n);
    assert((n * h) / n == h) by {
        vstd::arithmetic::div_mod::lemma_div_by_multiple(h, n);
        assert(n * h == h * n) by (nonlinear_arith);
    }
    assert(0 * h == 0);
    vstd::arithmetic::div_mod::lemma_basic_div(0, n);
}

/// Height of column `i`, clipped into a slab.
pub open spec fn clipped(pts: Seq<Point>, lo: int, hi: int, i: int) -> int {
    clamped(pts[i].y as int, lo, hi)
}

/// The clipped silhouette is flat between columns `i` and `j`.
pub open spec fn level_with(pts: Seq<Point>, lo: int, hi: int, i: int, j: int) -> bool {
    -FLAT <= clipped(pts, lo, hi, i) - clipped(pts, lo, hi, j) <= FLAT
}

/// Column `i` is needed: the silhouette changes there, or it is an end. A flat
/// run needs nothing but its two ends, which decouples the slab count from the
/// horizontal resolution.
pub open spec fn needed(pts: Seq<Point>, lo: int, hi: int, i: int) -> bool {
    !(i > 0 && level_with(pts, lo, hi, i - 1, i) && i + 1 < pts.len() && level_with(
        pts,
        lo,
        hi,
        i + 1,
        i,
    ))
}

/// The needed ones of the first `n` columns, clipped.
pub open spec fn slab_points(pts: Seq<Point>, lo: int, hi: int, n: int) -> Seq<Point>
    decreases n,
{
    if n <= 0 {
        Seq::empty()
    } else if needed(pts, lo, hi, n - 1) {
        slab_points(pts, lo, hi, n - 1).push(
            point(pts[n - 1].x as int, clipped(pts, lo, hi, n - 1)),
        )
    } else {
        slab_points(pts, lo, hi, n - 1)
    }
}

/// Color of a slab at horizontal position `x`: the height is the slab's, the
/// frequency is recovered from the position.
pub open spec fn slab_color(stops: Seq<Stop>, x: int, tone: int, alpha: int) -> [i64; 4] {
    faded(ramp_color(stops, tone, clamped((x + ONE) / 2, 0, ONE as int)), alpha)
}

/// One horizontal slab of a vertical gradient fill.
pub open spec fn slab_mark(
    stops: Seq<Stop>,
    pts: Seq<Point>,
    lo: int,
    hi: int,
    baseline: int,
    tone: int,
    alpha: int,
) -> Mark {
    let columns = slab_points(pts, lo, hi, pts.len() as int);
    Mark::Fill {
        pts: columns,
        baseline,
        colors: Seq::new(
            columns.len(),
            |i: int| slab_color(stops, columns[i].x as int, tone, alpha),
        ),
    }
}

/// The silhouette mirrored under the baseline and squashed.
pub open spec fn mirrored(pts: Seq<Point>) -> Seq<Point> {
    Seq::new(
        pts.len(),
        |i: int| point(pts[i].x as int, AREA_BASE - trunc((pts[i].y - AREA_BASE) * 35, 100)),
    )
}

/// Slab `k` of the silhouette.
pub open spec fn body_mark(stops: Seq<Stop>, pts: Seq<Point>, k: int, n: int) -> Mark {
    slab_mark(
        stops,
        pts,
        slab_edge(k, n),
        slab_edge(k + 1, n),
        slab_edge(k, n),
        (2 * k + 1) * ONE / (2 * n),
        ONE as int,
    )
}

/// Slab `k` of the reflection: depth below the baseline maps back to the height
/// it mirrors.
pub open spec fn reflection_mark(stops: Seq<Stop>, pts: Seq<Point>, k: int) -> Mark {
    let hi = AREA_BASE - k * AREA_REFLECT_SLAB;
    slab_mark(
        stops,
        mirrored(pts),
        hi - AREA_REFLECT_SLAB,
        hi,
        hi,
        (2 * k + 1) * ONE / 16,
        AREA_REFLECT_ALPHA as int,
    )
}

/// Position on the ramp of a point of the crest.
pub open spec fn crest_tone(y: int) -> int {
    clamped(trunc((y - AREA_BASE) * ONE, AREA_HEIGHT as int), 0, ONE as int)
}

/// The glowing crest.
pub open spec fn crest_mark(stops: Seq<Stop>, pts: Seq<Point>) -> Mark {
    Mark::Glow {
        pts,
        width: 2 * ONE,
        layers: 2,
        colors: Seq::new(
            pts.len(),
            |i: int| ramp_color(stops, crest_tone(pts[i].y as int), i * ONE / (pts.len() - 1)),
        ),
    }
}

/// The slabs of the silhouette, bottom up.
pub open spec fn body_marks(stops: Seq<Stop>, pts: Seq<Point>, n: int) -> Seq<Mark> {
    Seq::new(n as nat, |k: int| body_mark(stops, pts, k, n))
}

/// The slabs of the reflection, top down.
pub open spec fn reflection_marks(stops: Seq<Stop>, pts: Seq<Point>) -> Seq<Mark> {
    Seq::new(8, |k: int| reflection_mark(stops, pts, k))
}

/// The whole frame.
pub open spec fn area_marks(stops: Seq<Stop>, pts: Seq<Point>, height: int) -> Seq<Mark> {
    body_marks(stops, pts, slab_count(height)) + reflection_marks(stops, pts) + seq![
        crest_mark(stops, pts),
    ]
}

/// Points that fit the screen, with a margin.
pub open spec fn on_screen(pts: Seq<Point>) -> bool {
    forall|i: int|
        0 <= i < pts.len() ==> -2 * ONE <= (#[trigger] pts[i]).x <= 2 * ONE && -2 * ONE <= pts[i].y
            <= 2 * ONE
}

proof fn lemma_slab_points(pts: Seq<Point>, lo: int, hi: int, n: int)
    requires
        0 <= n <= pts.len(),
        on_screen(pts),
        -3 * ONE <= lo <= hi <= 3 * ONE,
    ensures
        slab_points(pts, lo, hi, n).len() <= n,
        n >= 1 ==> slab_points(pts, lo, hi, n).len() >= 1,
        n >= 2 && n == pts.len() ==> slab_points(pts, lo, hi, n).len() >= 2,
        forall|i: int|
            0 <= i < slab_points(pts, lo, hi, n).len() ==> -2 * ONE <= (#[trigger] slab_points(
                pts,
                lo,
                hi,
                n,
            )[i]).x <= 2 * ONE,
    decreases n,
{
    if n > 0 {
        lemma_slab_points(pts, lo, hi, n - 1);
    }
}

/// One horizontal slab of a vertical gradient fill.
fn gradient_slab(
    stops: &[Stop],
    pts: &Vec<Point>,
    lo: i64,
    hi: i64,
    baseline: i64,
    tone: i64,
    alpha: i64,
) -> (shape: Shape)
    requires
        valid_stops(stops@),
        2 <= pts@.len() <= 253,
        on_screen(pts@),
        -3 * ONE <= lo <= hi <= 3 * ONE,
        0 <= tone <= ONE,
        0 <= alpha <= ONE,
    ensures
        shape@ == slab_mark(
            stops@,
            pts@,
            lo as int,
            hi as int,
            baseline as int,
            tone as int,
            alpha as int,
        ),
        shape@.valid(),
        shape@.cost() <= 506,
        shape@.facets() <= 506,
{
    let n: usize = pts.len();
    let mut columns: Vec<Point> = Vec::with_capacity(n);
    let mut colors: Vec<[i64; 4]> = Vec::with_capacity(n);
    let mut i: usize = 0;
    while i < n
        invariant
            n == pts@.len(),
            2 <= n <= 253,
            i <= n,
            valid_stops(stops@),
            on_screen(pts@),
            -3 * ONE <= lo <= hi <= 3 * ONE,
            0 <= tone <= ONE,
            0 <= alpha <= ONE,
            columns@ == slab_points(pts@, lo as int, hi as int, i as int),
            colors@.len() == columns@.len(),
            forall|j: int|
                0 <= j < columns@.len() ==> #[trigger] colors@[j] == slab_color(
                    stops@,
                    columns@[j].x as int,
                    tone as int,
                    alpha as int,
                ),
            all_in_gamut(colors@),
        decreases n - i,
    {
        let p: Point = pts[i];
        assert(p == pts@[i as int]);
        let y: i64 = clamp(p.y, lo, hi);
        let mut flat: bool = i > 0 && i + 1 < n;
        if flat {
            let l: i64 = clamp(pts[i - 1].y, lo, hi) - y;
            let r: i64 = clamp(pts[i + 1].y, lo, hi) - y;
            flat = -FLAT <= l && l <= FLAT && -FLAT <= r && r <= FLAT;
        }
        assert(flat == !needed(pts@, lo as int, hi as int, i as int));
        if !flat {
            columns.push(Point { x: p.x, y });
            let freq: i64 = clamp(p.x + ONE, 0, 4 * ONE) / 2;
            assert(clamp_half(p.x + ONE) == clamped((p.x + ONE) / 2, 0, ONE as int));
            colors.push(fade(ramp_at(stops, tone, clamp(freq, 0, ONE)), alpha));
        }
        i = i + 1;
    }
    proof {
        lemma_slab_points(pts@, lo as int, hi as int, n as int);
    }
    let shape: Shape = Shape::Fill { pts: columns, baseline, colors };
    proof {
        let want = slab_mark(
            stops@,
            pts@,
            lo as int,
            hi as int,
            baseline as int,
            tone as int,
            alpha as int,
        );
        assert(shape@->Fill_colors =~= want->Fill_colors);
    }
    shape
}

/// Halving commutes with limiting below at zero.
spec fn clamp_half(v: int) -> int {
    clamped(clamped(v, 0, 4 * ONE) / 2, 0, ONE as int)
}

proof fn lemma_area_points(hi: int, bands: Seq<Sample>)
    requires
        bands.len() == NUM_BANDS,
    ensures
        drawable(area_points(hi, bands)),
        forall|i: int|
            0 <= i < 64 ==> AREA_BASE <= (#[trigger] area_points(hi, bands)[i]).y <= AREA_BASE
                + AREA_HEIGHT,
        area_points(hi, bands)[0].x == -ONE,
        area_points(hi, bands).last().x == ONE,
{
    let pts = area_points(hi, bands);
    assert forall|i: int| 0 <= i < 64 implies -ONE <= (#[trigger] pts[i]).x <= ONE && AREA_BASE
        <= pts[i].y <= AREA_BASE + AREA_HEIGHT by {
        assert(0 <= applied(hi, bands[i]) <= ONE);
    }
}

/// The silhouette never dips below its own baseline nor past full scale.
pub proof fn law_silhouette_within(hi: int, bands: Seq<Sample>, i: int)
    requires
        bands.len() == NUM_BANDS,
        0 <= i < area_curve(hi, bands).len(),
    ensures
        area_curve(hi, bands).len() == 253,
        AREA_BASE <= area_curve(hi, bands)[i].y <= AREA_BASE + AREA_HEIGHT,
        -ONE <= area_curve(hi, bands)[i].x <= ONE,
{
    lemma_area_points(hi, bands);
    law_stays_within(
        area_points(hi, bands),
        AREA_SUBDIV as int,
        AREA_BASE as int,
        AREA_BASE + AREA_HEIGHT,
    );
}

/// A painted spectrum area is never empty, not even in silence: its lowest slab
/// alone adds triangles to the mesh.
pub proof fn law_area_never_empty<F: Fn(i64) -> Point>(
    stops: Seq<Stop>,
    hi: int,
    bands: Seq<Sample>,
    height: int,
    before: &MeshBuilder<F>,
    after: &MeshBuilder<F>,
)
    requires
        bands.len() == NUM_BANDS,
        after.painted(
            before,
            area_marks(stops, area_curve(hi, bands), height),
            area_marks(stops, area_curve(hi, bands), height).len() as int,
        ),
    ensures
        after.grown_from(before),
        after.count() >= before.count() + 4,
        after.indices@.len() >= before.indices@.len() + 6,
{
    let list = area_marks(stops, area_curve(hi, bands), height);
    assert(list.len() >= 1);
    let first = MeshBuilder::law_painting_appends(before, after, list, list.len() as int);
    lemma_first_slab(stops, hi, bands, height, before, &first);
}

proof fn lemma_first_slab<F: Fn(i64) -> Point>(
    stops: Seq<Stop>,
    hi: int,
    bands: Seq<Sample>,
    height: int,
    before: &MeshBuilder<F>,
    after: &MeshBuilder<F>,
)
    requires
        bands.len() == NUM_BANDS,
        after.marked(before, area_marks(stops, area_curve(hi, bands), height)[0]),
    ensures
        after.count() >= before.count() + 4,
        after.indices@.len() >= before.indices@.len() + 6,
{
    let pts = area_curve(hi, bands);
    lemma_area_points(hi, bands);
    law_stays_within(
        area_points(hi, bands),
        AREA_SUBDIV as int,
        AREA_BASE as int,
        AREA_BASE + AREA_HEIGHT,
    );
    assert forall|i: int| 0 <= i < pts.len() implies -2 * ONE <= (#[trigger] pts[i]).x <= 2 * ONE
        && -2 * ONE <= pts[i].y <= 2 * ONE by {
        law_silhouette_within(hi, bands, i);
    }
    let n = slab_count(height);
    law_slabs_abut(0, n);
    law_slabs_abut(n - 1, n);
    let h = 1_500_000_000int;
    assert(0 <= 1 * h / n <= h) by (nonlinear_arith)
        requires
            n >= 1,
            h > 0,
    ;
    assert(area_marks(stops, pts, height)[0] == body_mark(stops, pts, 0, n));
    lemma_slab_points(pts, slab_edge(0, n), slab_edge(1, n), pts.len() as int);
}

fn silhouette(range: &AutoRange, bands: &[Sample]) -> (pts: Vec<Point>)
    requires
        range.wf(),
        bands@.len() == NUM_BANDS,
    ensures
        pts@ == area_curve(range.hi as int, bands@),
        pts@.len() == 253,
        on_screen(pts@),
        all_near(pts@),
        forall|i: int|
            0 <= i < pts@.len() ==> AREA_BASE <= (#[trigger] pts@[i]).y <= AREA_BASE + AREA_HEIGHT,
{
    let ghost all = area_points(range.hi as int, bands@);
    let mut ctrl: Vec<Point> = Vec::with_capacity(NUM_BANDS);
    let mut b: usize = 0;
    while b < NUM_BANDS
        invariant
            b <= NUM_BANDS,
            range.wf(),
            bands@.len() == NUM_BANDS,
            all == area_points(range.hi as int, bands@),
            ctrl@.len() == b,
            forall|j: int| 0 <= j < b ==> #[trigger] ctrl@[j] == all[j],
        decreases NUM_BANDS - b,
    {
        let x: i64 = 2 * b as i64 * ONE / 63 - ONE;
        let y: i64 = AREA_BASE + range.apply(bands[b]) * 3 / 2;
        ctrl.push(Point { x, y });
        assert(ctrl@[b as int] == all[b as int]);
        b = b + 1;
    }
    assert(ctrl@ =~= all);
    proof {
        lemma_area_points(range.hi as int, bands@);
    }
    let mut pts: Vec<Point> = Vec::with_capacity(253);
    resample_monotone(ctrl.as_slice(), AREA_SUBDIV, &mut pts);
    proof {
        lemma_curve(all, steps(AREA_SUBDIV), pts@);
        assert forall|i: int| 0 <= i < pts@.len() implies AREA_BASE <= (#[trigger] pts@[i]).y
            <= AREA_BASE + AREA_HEIGHT && -ONE <= pts@[i].x <= ONE && near(pts@[i]) by {
            law_silhouette_within(range.hi as int, bands@, i);
        }
    }
    pts
}

fn mirror_of(pts: &Vec<Point>) -> (out: Vec<Point>)
    requires
        on_screen(pts@),
    ensures
        out@ == mirrored(pts@),
        on_screen(out@),
{
    let mut out: Vec<Point> = Vec::with_capacity(pts.len());
    let mut i: usize = 0;
    while i < pts.len()
        invariant
            i <= pts@.len(),
            on_screen(pts@),
            out@.len() == i,
            forall|j: int| 0 <= j < i ==> #[trigger] out@[j] == mirrored(pts@)[j],
            on_screen(out@),
        decreases pts@.len() - i,
    {
        let p: Point = pts[i];
        assert(p == pts@[i as int]);
        proof {
            lemma_trunc((p.y - AREA_BASE) * 35, 100, 1_000_000_000);
        }
        out.push(Point { x: p.x, y: AREA_BASE - mul_div(p.y - AREA_BASE, 35, 100) });
        i = i + 1;
    }
    assert(out@ =~= mirrored(pts@));
    out
}

fn crest(stops: &[Stop], pts: Vec<Point>) -> (shape: Shape)
    requires
        valid_stops(stops@),
        pts@.len() == 253,
        on_screen(pts@),
        all_near(pts@),
    ensures
        shape@ == crest_mark(stops@, pts@),
        shape@.valid(),
        shape@.cost() == 3246,
        shape@.facets() == 4842,
{
    let mut colors: Vec<[i64; 4]> = Vec::with_capacity(253);
    let mut i: usize = 0;
    while i < 253
        invariant
            i <= 253,
            valid_stops(stops@),
            pts@.len() == 253,
            on_screen(pts@),
            colors@.len() == i,
            forall|j: int|
                0 <= j < i ==> #[trigger] colors@[j] == ramp_color(
                    stops@,
                    crest_tone(pts@[j].y as int),
                    j * ONE / 252,
                ),
            all_in_gamut(colors@),
        decreases 253 - i,
    {
        let p: Point = pts[i];
        assert(p == pts@[i as int]);
        let tone: i64 = clamp(mul_div(p.y - AREA_BASE, ONE, AREA_HEIGHT), 0, ONE);
        colors.push(ramp_at(stops, tone, i as i64 * ONE / 252));
        i = i + 1;
    }
    let shape: Shape = Shape::Glow { pts, width: 2 * ONE, layers: 2, colors };
    proof {
        let want = crest_mark(stops@, pts@);
        assert(shape@->Glow_colors =~= want->Glow_colors);
    }
    shape
}

/// One filled silhouette with a glowing crest.
pub struct SpectrumArea {
    pub clock: Clock,
    pub range: AutoRange,
}

impl SpectrumArea {
    /// A silhouette at rest.
    pub fn new() -> (r: Self)
        ensures
            r.wf(),
            r.clock.last is None,
            r.range.hi == crate::motion::RANGE_SPAN,
    {
        SpectrumArea { clock: Clock::default(), range: AutoRange::new() }
    }
}

/// Budget of a list of slabs.
proof fn lemma_slab_budget(list: Seq<Mark>, n: int)
    requires
        0 <= n <= list.len(),
        forall|i: int|
            0 <= i < list.len() ==> (#[trigger] list[i]).cost() <= 506 && list[i].facets() <= 506,
    ensures
        total_cost(list, n) <= 506 * n,
        total_facets(list, n) <= 506 * n,
    decreases n,
{
    if n > 0 {
        lemma_slab_budget(list, n - 1);
    }
}

fn body(stops: &[Stop], pts: &Vec<Point>, height: u32) -> (shapes: Vec<Shape>)
    requires
        valid_stops(stops@),
        pts@.len() == 253,
        on_screen(pts@),
        height <= 65_536,
    ensures
        marks(shapes@) == body_marks(stops@, pts@, slab_count(height as int)),
        all_valid(marks(shapes@)),
        forall|i: int|
            0 <= i < shapes@.len() ==> (#[trigger] marks(shapes@)[i]).cost() <= 506 && marks(
                shapes@,
            )[i].facets() <= 506,
{
    let n: i64 = clamp((6 * height as i64 + 16) / 32, 12, 60);
    let mut shapes: Vec<Shape> = Vec::with_capacity(n as usize + 9);
    let mut k: i64 = 0;
    while k < n
        invariant
            12 <= n <= 60,
            0 <= k <= n,
            valid_stops(stops@),
            pts@.len() == 253,
            on_screen(pts@),
            shapes@.len() == k,
            forall|j: int|
                0 <= j < k ==> (#[trigger] shapes@[j])@ == body_mark(stops@, pts@, j, n as int),
            forall|j: int|
                0 <= j < k ==> (#[trigger] shapes@[j])@.valid() && shapes@[j]@.cost() <= 506
                    && shapes@[j]@.facets() <= 506,
        decreases n - k,
    {
        proof {
            law_slabs_abut(k as int, n as int);
            let h = 1_500_000_000int;
            assert(0 <= k * h / (n as int) <= h) by (nonlinear_arith)
                requires
                    0 <= k <= n,
                    n >= 1,
                    h > 0,
            ;
            assert(0 <= (k + 1) * h / (n as int) <= h) by (nonlinear_arith)
                requires
                    0 <= k < n,
                    n >= 1,
                    h > 0,
            ;
            let t = (2 * k + 1) * 1_000_000_000;
            assert(0 <= t / (2 * n) <= 1_000_000_000) by (nonlinear_arith)
                requires
                    t == (2 * k + 1) * 1_000_000_000,
                    0 <= k < n,
                    n >= 1,
            ;
        }
        let lo: i64 = AREA_BASE + k * AREA_HEIGHT / n;
        let hi: i64 = AREA_BASE + (k + 1) * AREA_HEIGHT / n;
        let slab: Shape = gradient_slab(stops, pts, lo, hi, lo, (2 * k + 1) * ONE / (2 * n), ONE);
        shapes.push(slab);
        k = k + 1;
    }
    assert(marks(shapes@) =~= body_marks(stops@, pts@, n as int));
    shapes
}

fn reflection(stops: &[Stop], pts: &Vec<Point>, shapes: &mut Vec<Shape>)
    requires
        valid_stops(stops@),
        pts@.len() == 253,
        on_screen(pts@),
        all_valid(marks(old(shapes)@)),
        forall|i: int|
            0 <= i < old(shapes)@.len() ==> (#[trigger] marks(old(shapes)@)[i]).cost() <= 506
                && marks(old(shapes)@)[i].facets() <= 506,
    ensures
        marks(final(shapes)@) == marks(old(shapes)@) + reflection_marks(stops@, pts@),
        all_valid(marks(final(shapes)@)),
        forall|i: int|
            0 <= i < final(shapes)@.len() ==> (#[trigger] marks(final(shapes)@)[i]).cost() <= 506
                && marks(final(shapes)@)[i].facets() <= 506,
{
    let flipped: Vec<Point> = mirror_of(pts);
    let ghost want = reflection_marks(stops@, pts@);
    let ghost base = marks(old(shapes)@);
    assert(marks(shapes@) =~= base + want.take(0));
    let mut k: i64 = 0;
    while k < 8
        invariant
            0 <= k <= 8,
            valid_stops(stops@),
            flipped@ == mirrored(pts@),
            flipped@.len() == 253,
            on_screen(flipped@),
            want == reflection_marks(stops@, pts@),
            marks(shapes@) == base + want.take(k as int),
            all_valid(marks(shapes@)),
            forall|i: int|
                0 <= i < shapes@.len() ==> (#[trigger] marks(shapes@)[i]).cost() <= 506 && marks(
                    shapes@,
                )[i].facets() <= 506,
        decreases 8 - k,
    {
        let hi: i64 = AREA_BASE - k * AREA_REFLECT_SLAB;
        let slab: Shape = gradient_slab(
            stops,
            &flipped,
            hi - AREA_REFLECT_SLAB,
            hi,
            hi,
            (2 * k + 1) * ONE / 16,
            AREA_REFLECT_ALPHA,
        );
        proof {
            assert(slab@ == want[k as int]);
            lemma_marks_push(shapes@, slab);
            assert(want.take(k + 1) =~= want.take(k as int).push(want[k as int]));
            assert(base + want.take(k + 1) =~= (base + want.take(k as int)).push(
                want[k as int],
            ));
        }
        shapes.push(slab);
        k = k + 1;
    }
    assert(want.take(8) =~= want);
}

impl SpectrumArea {
    /// `after` and `shapes` are what drawing `frame` leaves and gives.
    pub open spec fn drawn<
        E: Fn(u64, u64) -> i64,
        P: Fn(i64, i64) -> i64,
        W: Fn(i64) -> i64,
        S: Fn(i64) -> i64,
    >(
        before: SpectrumArea,
        after: SpectrumArea,
        frame: &FrameData,
        screen: Screen,
        curves: &Curves<E, P, W, S>,
        shapes: Seq<Shape>,
    ) -> bool {
        &&& after.clock.last == Some(frame.time)
        &&& AutoRange::updated(
            before.range,
            after.range,
            frame.bands@,
            tick_of(before.clock.last, frame.time),
            &curves.ease,
        )
        &&& marks(shapes) == area_marks(
            frame.stops@,
            area_curve(after.range.hi as int, frame.bands@),
            screen.height as int,
        )
    }
}

impl Visualizer for SpectrumArea {
    open spec fn wf(&self) -> bool {
        self.range.wf()
    }

    open spec fn label(&self) -> Seq<char> {
        "Spectrum Area"@
    }

    fn name(&self) -> (r: &'static str) {
        "Spectrum Area"
    }

    fn draw<
        E: Fn(u64, u64) -> i64,
        P: Fn(i64, i64) -> i64,
        W: Fn(i64) -> i64,
        S: Fn(i64) -> i64,
    >(&mut self, frame: &FrameData, screen: Screen, curves: &Curves<E, P, W, S>) -> (shapes: Vec<
        Shape,
    >)
        ensures
            SpectrumArea::drawn(*old(self), *final(self), frame, screen, curves, shapes@),
    {
        let dt: u64 = self.clock.tick(frame.time);
        self.range.update(frame.bands, dt, &curves.ease);
        let pts: Vec<Point> = silhouette(&self.range, frame.bands);
        let mut shapes: Vec<Shape> = body(frame.stops, &pts, screen.height);
        reflection(frame.stops, &pts, &mut shapes);
        let ghost slabs = marks(shapes@);
        let top: Shape = crest(frame.stops, pts);
        proof {
            lemma_marks_push(shapes@, top);
            lemma_slab_budget(slabs, slabs.len() as int);
            let one = seq![top@];
            lemma_total_concat(slabs, one);
            assert(total_cost(one, 0) == 0 && total_facets(one, 0) == 0);
            assert(total_cost(one, 1) == 3246 && total_facets(one, 1) == 4842);
            assert(slabs.push(top@) =~= slabs + one);
        }
        shapes.push(top);
        shapes
    }
}

/// The silhouette is a picture of the spectrum: at the place of band `b`, from the
/// lowest at the left end to the highest at the right end, it stands one and a half
/// times the stretched level of band `b` itself above the baseline of -0.75.
pub proof fn law_silhouette_shows_bands(hi: int, bands: Seq<Sample>, b: int)
    requires
        bands.len() == NUM_BANDS,
        0 <= b < 64,
    ensures
        area_curve(hi, bands).len() == 253,
        ({
            let p = area_curve(hi, bands)[4 * b];
            let level = applied(hi, bands[b]);
            &&& 63 * (p.x + 1_000_000_000) <= 2_000_000_000 * b < 63 * (p.x + 1_000_000_000) + 63
            &&& 2 * (p.y + 750_000_000) <= 3 * level < 2 * (p.y + 750_000_000) + 2
            &&& b == 0 ==> p.x == -1_000_000_000
            &&& b == 63 ==> p.x == 1_000_000_000
        }),
{
    lemma_area_points(hi, bands);
    law_curve_through(area_points(hi, bands), 4, b);
    assert(0 <= applied(hi, bands[b]) <= ONE);
}

/// `q` is point `p` of a curve, cut to a slab.
pub open spec fn cut_from(q: Point, p: Point, lo: int, hi: int) -> bool {
    &&& q.x == p.x
    &&& lo <= q.y <= hi
    &&& lo <= p.y <= hi ==> q.y == p.y
    &&& p.y < lo ==> q.y == lo
    &&& p.y > hi ==> q.y == hi
}

proof fn lemma_slab_column(pts: Seq<Point>, lo: int, hi: int, n: int, j: int) -> (i: int)
    requires
        0 <= n <= pts.len(),
        lo <= hi,
        i64::MIN <= lo,
        hi <= i64::MAX,
        0 <= j < slab_points(pts, lo, hi, n).len(),
    ensures
        0 <= i < n,
        cut_from(slab_points(pts, lo, hi, n)[j], pts[i], lo, hi),
    decreases n,
{
    let rest = slab_points(pts, lo, hi, n - 1);
    if j < rest.len() {
        assert(slab_points(pts, lo, hi, n)[j] == rest[j]);
        lemma_slab_column(pts, lo, hi, n - 1, j)
    } else {
        n - 1
    }
}

proof fn lemma_slab_keeps(pts: Seq<Point>, lo: int, hi: int, n: int, i: int) -> (j: int)
    requires
        0 <= i < n <= pts.len(),
        lo <= hi,
        i64::MIN <= lo,
        hi <= i64::MAX,
        needed(pts, lo, hi, i),
    ensures
        0 <= j < slab_points(pts, lo, hi, n).len(),
        cut_from(slab_points(pts, lo, hi, n)[j], pts[i], lo, hi),
    decreases n,
{
    let rest = slab_points(pts, lo, hi, n - 1);
    if i < n - 1 {
        let j = lemma_slab_keeps(pts, lo, hi, n - 1, i);
        assert(slab_points(pts, lo, hi, n)[j] == rest[j]);
        j
    } else {
        rest.len() as int
    }
}

/// Every column of a slab of the body is a point of the silhouette cut to that
/// slab, standing on the slab's lower edge: slab `k` of `n` is the `k`-th of `n`
/// equal shares of the height from -0.75 to 0.75.
pub proof fn law_slab_columns(stops: Seq<Stop>, pts: Seq<Point>, k: int, n: int, j: int) -> (i: int)
    requires
        0 <= k < n,
        0 <= j < body_mark(stops, pts, k, n)->Fill_pts.len(),
    ensures
        ({
            let lo = -750_000_000 + k * 1_500_000_000 / n;
            let hi = -750_000_000 + (k + 1) * 1_500_000_000 / n;
            let m = body_mark(stops, pts, k, n);
            &&& m is Fill
            &&& m->Fill_baseline == lo
            &&& m->Fill_colors.len() == m->Fill_pts.len()
            &&& 0 <= i < pts.len()
            &&& cut_from(m->Fill_pts[j], pts[i], lo, hi)
        }),
{
    lemma_slab_edges(k, n);
    lemma_slab_column(pts, slab_edge(k, n), slab_edge(k + 1, n), pts.len() as int, j)
}

proof fn lemma_slab_edges(k: int, n: int)
    requires
        0 <= k < n,
    ensures
        -750_000_000 <= slab_edge(k, n) <= slab_edge(k + 1, n) <= 750_000_000,
{
    law_slabs_abut(k, n);
    let h = 1_500_000_000int;
    assert(0 <= k * h / n && (k + 1) * h / n <= h) by (nonlinear_arith)
        requires
            0 <= k,
            k + 1 <= n,
            n >= 1,
            h > 0,
    ;
}

/// No point of the silhouette is missing from a slab, but one where the cut curve
/// runs level, to a ten-millionth, to both sides.
pub proof fn law_slab_misses_nothing(
    stops: Seq<Stop>,
    pts: Seq<Point>,
    k: int,
    n: int,
    i: int,
    before: Point,
    here: Point,
    after: Point,
) -> (j: int)
    requires
        0 <= k < n,
        0 <= i < pts.len(),
        ({
            let lo = -750_000_000 + k * 1_500_000_000 / n;
            let hi = -750_000_000 + (k + 1) * 1_500_000_000 / n;
            &&& cut_from(here, pts[i], lo, hi)
            &&& i > 0 ==> cut_from(before, pts[i - 1], lo, hi)
            &&& i + 1 < pts.len() ==> cut_from(after, pts[i + 1], lo, hi)
        }),
        i == 0 || i == pts.len() - 1 || !(-100 <= before.y - here.y <= 100) || !(-100 <= after.y
            - here.y <= 100),
    ensures
        0 <= j < body_mark(stops, pts, k, n)->Fill_pts.len(),
        body_mark(stops, pts, k, n)->Fill_pts[j] == here,
{
    lemma_slab_edges(k, n);
    let (lo, hi) = (slab_edge(k, n), slab_edge(k + 1, n));
    assert(needed(pts, lo, hi, i));
    let j = lemma_slab_keeps(pts, lo, hi, pts.len() as int, i);
    let q = slab_points(pts, lo, hi, pts.len() as int)[j];
    assert(q.x == here.x && q.y == here.y);
    j
}

/// A drawn area is its slabs from the bottom up, then eight slabs of reflection,
/// then the crest, a glowing line along the silhouette itself. Each slab's color is
/// that of the ramp half-way up the slab, at the place of each column from left to
/// right; the reflection is the silhouette upside down, at 0.35 of its height,
/// fading from the baseline down.
pub proof fn law_area_layers<
    E: Fn(u64, u64) -> i64,
    P: Fn(i64, i64) -> i64,
    W: Fn(i64) -> i64,
    S: Fn(i64) -> i64,
>(
    before: SpectrumArea,
    after: SpectrumArea,
    frame: &FrameData,
    screen: Screen,
    curves: &Curves<E, P, W, S>,
    shapes: Seq<Shape>,
    k: int,
    b: int,
)
    requires
        SpectrumArea::drawn(before, after, frame, screen, curves, shapes),
        frame.wf(),
        0 <= k < marks(shapes).len() - 9,
        0 <= b < 64,
    ensures
        ({
            let list = marks(shapes);
            let n = list.len() - 9;
            let crest = list[n + 8]->Glow_pts;
            let level = applied(after.range.hi as int, frame.bands@[b]);
            &&& 12 <= n <= 60
            &&& 12 < n < 60 ==> 32 * n <= 6 * screen.height + 16 < 32 * n + 32
            &&& list[n + 8] is Glow
            &&& list[n + 8]->Glow_width == 2_000_000_000
            &&& list[n + 8]->Glow_layers == 2
            &&& crest.len() == 253
            &&& 63 * (crest[4 * b].x + 1_000_000_000) <= 2_000_000_000 * b < 63 * (crest[4 * b].x
                + 1_000_000_000) + 63
            &&& 2 * (crest[4 * b].y + 750_000_000) <= 3 * level < 2 * (crest[4 * b].y
                + 750_000_000) + 2
            &&& list[k] == body_mark(frame.stops@, crest, k, n)
            &&& forall|j: int|
                0 <= j < list[k]->Fill_pts.len() ==> #[trigger] list[k]->Fill_colors[j]
                    == slab_color(
                    frame.stops@,
                    list[k]->Fill_pts[j].x as int,
                    (2 * k + 1) * 1_000_000_000 / (2 * n),
                    1_000_000_000,
                )
            &&& forall|m: int|
                0 <= m < 8 ==> {
                    let slab = #[trigger] list[n + m];
                    &&& slab is Fill
                    &&& slab->Fill_baseline == -750_000_000 - m * 65_625_000
                    &&& slab->Fill_pts == slab_points(
                        upside_down(crest),
                        -750_000_000 - (m + 1) * 65_625_000,
                        -750_000_000 - m * 65_625_000,
                        253,
                    )
                    &&& forall|j: int|
                        0 <= j < slab->Fill_pts.len() ==> #[trigger] slab->Fill_colors[j]
                            == slab_color(
                            frame.stops@,
                            slab->Fill_pts[j].x as int,
                            (2 * m + 1) * 62_500_000,
                            280_000_000,
                        )
                }
        }),
{
    let pts = area_curve(after.range.hi as int, frame.bands@);
    law_silhouette_shows_bands(after.range.hi as int, frame.bands@, b);
    let n = slab_count(screen.height as int);
    let list = marks(shapes);
    assert(list.len() == n + 9);
    assert(list[n + 8] == crest_mark(frame.stops@, pts));
    assert(list[k] == body_mark(frame.stops@, pts, k, n));
    assert(mirrored(pts) =~= upside_down(pts));
    assert forall|m: int| 0 <= m < 8 implies {
        let slab = #[trigger] list[n + m];
        &&& slab is Fill
        &&& slab->Fill_baseline == -750_000_000 - m * 65_625_000
        &&& slab->Fill_pts == slab_points(
            upside_down(pts),
            -750_000_000 - (m + 1) * 65_625_000,
            -750_000_000 - m * 65_625_000,
            253,
        )
        &&& forall|j: int|
            0 <= j < slab->Fill_pts.len() ==> #[trigger] slab->Fill_colors[j] == slab_color(
                frame.stops@,
                slab->Fill_pts[j].x as int,
                (2 * m + 1) * 62_500_000,
                280_000_000,
            )
    } by {
        assert(list[n + m] == reflection_mark(frame.stops@, pts, m));
    }
}

/// A curve turned over about the baseline of -0.75, at 0.35 of its height.
pub open spec fn upside_down(pts: Seq<Point>) -> Seq<Point> {
    Seq::new(
        pts.len(),
        |i: int|
            point(
                pts[i].x as int,
                -750_000_000 - trunc((pts[i].y + 750_000_000) * 35, 100),
            ),
    )
}

/// The crest is colored by its height above the baseline and by how far along it
/// is, and a slab's column by how far to the right it stands.
pub proof fn law_area_colors(stops: Seq<Stop>, pts: Seq<Point>, i: int, tone: int, alpha: int)
    requires
        pts.len() >= 2,
        0 <= i < pts.len(),
        -750_000_000 <= pts[i].y <= 750_000_000,
        -1_000_000_000 <= pts[i].x <= 1_000_000_000,
    ensures
        ({
            let c = crest_mark(stops, pts)->Glow_colors[i];
            exists|h: int|
                15 * h <= 10 * (pts[i].y + 750_000_000) < 15 * h + 15 && c == #[trigger] ramp_color(
                    stops,
                    h,
                    i * 1_000_000_000 / (pts.len() - 1),
                )
        }),
        exists|f: int|
            2 * f <= pts[i].x + 1_000_000_000 < 2 * f + 2 && slab_color(
                stops,
                pts[i].x as int,
                tone,
                alpha,
            ) == faded(#[trigger] ramp_color(stops, tone, f), alpha),
{
    let h = crest_tone(pts[i].y as int);
    assert(crest_mark(stops, pts)->Glow_colors[i] == ramp_color(
        stops,
        h,
        i * 1_000_000_000 / (pts.len() - 1),
    ));
    let f = (pts[i].x + 1_000_000_000) / 2;
    assert(slab_color(stops, pts[i].x as int, tone, alpha) == faded(
        ramp_color(stops, tone, f),
        alpha,
    ));
}

/// The area keeps the time of its frames, and its range follows the bands over the
/// time between them.
pub proof fn law_area_keeps_time<
    E: Fn(u64, u64) -> i64,
    P: Fn(i64, i64) -> i64,
    W: Fn(i64) -> i64,
    S: Fn(i64) -> i64,
>(
    before: SpectrumArea,
    after: SpectrumArea,
    frame: &FrameData,
    screen: Screen,
    curves: &Curves<E, P, W, S>,
    shapes: Seq<Shape>,
)
    requires
        SpectrumArea::drawn(before, after, frame, screen, curves, shapes),
    ensures
        after.clock.last == Some(frame.time),
        AutoRange::updated(
            before.range,
            after.range,
            frame.bands@,
            tick_of(before.clock.last, frame.time),
            &curves.ease,
        ),
{
}

} // verus!
