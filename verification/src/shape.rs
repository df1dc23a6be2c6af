//! Display lists.
//!
//! A visual describes a frame as a list of shapes; [`MeshBuilder::paint`] turns
//! the list into triangles. Later shapes paint over earlier ones.

use crate::color::in_gamut;
use crate::geometry::{aspect_of, near, pixels, screen_width, MAX_SIDE, REACH, WIDTH_MAX};
use crate::mesh::{glow_colors, glow_width, lemma_ring_fits, MeshBuilder, VERTS_MAX};
use crate::number::{Sample, ONE};
use crate::palette::{valid_stops, Stop};
use crate::spline::Point;
use vstd::prelude::*;

verus! {

/// Log-spaced display bands.
pub const NUM_BANDS: usize = 64;

/// Longest waveform window.
pub const WAVE_MAX: usize = 0x4000_0000;

/// Per-frame audio and timing state handed to every visual.
pub struct FrameData<'a> {
    /// Smoothed per-band levels, left and right averaged.
    pub bands: &'a [Sample],
    pub left_bands: &'a [Sample],
    pub right_bands: &'a [Sample],
    /// Raw mono PCM for the current window, not windowed.
    pub waveform: &'a [Sample],
    /// Raw PCM of each channel.
    pub left_waveform: &'a [Sample],
    pub right_waveform: &'a [Sample],
    pub bass: Sample,
    pub rms: Sample,
    /// Nanoseconds since startup.
    pub time: u64,
    /// Current background color, so visuals can fake occlusion with it.
    pub background: [i64; 3],
    /// Stops of the selected palette.
    pub stops: &'a [Stop],
}

impl<'a> FrameData<'a> {
    /// One level per band, a background that is a color, and a usable palette.
    pub open spec fn wf(&self) -> bool {
        &&& self.bands@.len() == NUM_BANDS
        &&& self.waveform@.len() <= WAVE_MAX
        &&& self.left_waveform@.len() <= WAVE_MAX
        &&& self.right_waveform@.len() <= WAVE_MAX
        &&& in_gamut(self.background@)
        &&& valid_stops(self.stops@)
    }
}

/// The framebuffer a frame is drawn for, in pixels.
#[derive(Clone, Copy, PartialEq, Eq, Debug)]
pub struct Screen {
    pub width: u32,
    pub height: u32,
}

impl Screen {
    /// A size the mesh builder accepts.
    pub open spec fn wf(&self) -> bool {
        1 <= self.width <= MAX_SIDE && 1 <= self.height <= MAX_SIDE
    }

    /// Width over height.
    pub open spec fn aspect(&self) -> int {
        aspect_of(self.width as int, self.height as int)
    }

    /// Pixels across a horizontal extent of `dx` NDC units.
    pub open spec fn across(&self, dx: int) -> int {
        pixels(screen_width(dx, self.aspect()), self.height as int)
    }
}

/// The transcendental curves the visuals are shaped by.
pub struct Curves<E, P, W, S> {
    /// Fraction of the way a first-order filter moves in a time, given its time
    /// constant: `1 - exp(-dt / tau)`.
    pub ease: E,
    /// A level raised to a power.
    pub power: P,
    /// Sine of an angle in radians.
    pub sine: W,
    /// Soft saturation of an amplitude.
    pub saturate: S,
}

impl<
    E: Fn(u64, u64) -> i64,
    P: Fn(i64, i64) -> i64,
    W: Fn(i64) -> i64,
    S: Fn(i64) -> i64,
> Curves<E, P, W, S> {
    /// The curves are defined everywhere.
    pub open spec fn wf(&self) -> bool {
        &&& forall|dt: u64, tau: u64| call_requires(self.ease, (dt, tau))
        &&& forall|level: i64, exponent: i64| call_requires(self.power, (level, exponent))
        &&& forall|angle: i64| call_requires(self.sine, (angle,))
        &&& forall|v: i64| call_requires(self.saturate, (v,))
    }
}

/// Most vertices a visual may emit per frame.
pub const VERTEX_BUDGET: usize = 48_000;

/// Most triangles a visual may emit per frame.
pub const TRIANGLE_BUDGET: usize = 64_000;

/// A display list the mesh builder accepts, within the per-frame budgets.
pub open spec fn presentable(list: Seq<Mark>) -> bool {
    &&& all_valid(list)
    &&& total_cost(list, list.len() as int) <= VERTEX_BUDGET
    &&& total_facets(list, list.len() as int) <= TRIANGLE_BUDGET
}

/// One visualization style.
///
/// Implementations own whatever state they need across frames; they are
/// constructed once and reused.
pub trait Visualizer {
    /// Consistency of the state kept across frames.
    spec fn wf(&self) -> bool;

    /// The name shown in the HUD.
    spec fn label(&self) -> Seq<char>;

    /// The name shown in the HUD.
    fn name(&self) -> (r: &'static str)
        ensures
            r@ == self.label(),
    ;

    /// Describe one frame.
    fn draw<
        E: Fn(u64, u64) -> i64,
        P: Fn(i64, i64) -> i64,
        W: Fn(i64) -> i64,
        S: Fn(i64) -> i64,
    >(&mut self, frame: &FrameData, screen: Screen, curves: &Curves<E, P, W, S>) -> (shapes: Vec<
        Shape,
    >)
        requires
            old(self).wf(),
            frame.wf(),
            screen.wf(),
            curves.wf(),
        ensures
            final(self).wf(),
            final(self).label() == old(self).label(),
            presentable(marks(shapes@)),
    ;
}

/// One entry of a display list. Widths and radii are in pixels, colors have
/// straight alpha, and there is one color per point.
pub enum Shape {
    /// A polyline.
    Stroke { pts: Vec<Point>, width: i64, additive: bool, colors: Vec<[i64; 4]> },
    /// A polyline with additive layers under it.
    Glow { pts: Vec<Point>, width: i64, layers: u32, colors: Vec<[i64; 4]> },
    /// The area between a curve and a horizontal baseline.
    Fill { pts: Vec<Point>, baseline: i64, colors: Vec<[i64; 4]> },
    /// A rounded rectangle.
    RoundRect { x0: i64, y0: i64, x1: i64, y1: i64, radius: i64, color: [i64; 4] },
    /// A stroke along a ray from the middle of the screen.
    Spoke { inner: i64, reach: i64, angle: i64, width: i64, colors: Vec<[i64; 4]> },
    /// A circle around the middle of the screen.
    Ring { r: i64, width: i64, color: [i64; 4] },
}

/// What a [`Shape`] describes.
pub enum Mark {
    Stroke { pts: Seq<Point>, width: int, additive: bool, colors: Seq<[i64; 4]> },
    Glow { pts: Seq<Point>, width: int, layers: int, colors: Seq<[i64; 4]> },
    Fill { pts: Seq<Point>, baseline: int, colors: Seq<[i64; 4]> },
    RoundRect { x0: int, y0: int, x1: int, y1: int, radius: int, color: [i64; 4] },
    Spoke { inner: int, reach: int, angle: int, width: int, colors: Seq<[i64; 4]> },
    Ring { r: int, width: int, color: [i64; 4] },
}

impl View for Shape {
    type V = Mark;

    open spec fn view(&self) -> Mark {
        match self {
            Shape::Stroke { pts, width, additive, colors } => Mark::Stroke {
                pts: pts@,
                width: *width as int,
                additive: *additive,
                colors: colors@,
            },
            Shape::Glow { pts, width, layers, colors } => Mark::Glow {
                pts: pts@,
                width: *width as int,
                layers: *layers as int,
                colors: colors@,
            },
            Shape::Fill { pts, baseline, colors } => Mark::Fill {
                pts: pts@,
                baseline: *baseline as int,
                colors: colors@,
            },
            Shape::RoundRect { x0, y0, x1, y1, radius, color } => Mark::RoundRect {
                x0: *x0 as int,
                y0: *y0 as int,
                x1: *x1 as int,
                y1: *y1 as int,
                radius: *radius as int,
                color: *color,
            },
            Shape::Spoke { inner, reach, angle, width, colors } => Mark::Spoke {
                inner: *inner as int,
                reach: *reach as int,
                angle: *angle as int,
                width: *width as int,
                colors: colors@,
            },
            Shape::Ring { r, width, color } => Mark::Ring {
                r: *r as int,
                width: *width as int,
                color: *color,
            },
        }
    }
}

/// The marks of a display list.
pub open spec fn marks(shapes: Seq<Shape>) -> Seq<Mark> {
    Seq::new(shapes.len(), |i: int| shapes[i]@)
}

/// Every color in range.
pub open spec fn all_in_gamut(colors: Seq<[i64; 4]>) -> bool {
    forall|i: int| 0 <= i < colors.len() ==> in_gamut((#[trigger] colors[i])@)
}

/// Every point within reach.
pub open spec fn all_near(pts: Seq<Point>) -> bool {
    forall|i: int| 0 <= i < pts.len() ==> near(#[trigger] pts[i])
}

impl Mark {
    /// Within the limits of the mesh builder.
    pub open spec fn valid(self) -> bool {
        match self {
            Mark::Stroke { pts, width, additive, colors } => {
                &&& colors.len() == pts.len()
                &&& width <= WIDTH_MAX
                &&& all_near(pts)
                &&& all_in_gamut(colors)
            },
            Mark::Glow { pts, width, layers, colors } => {
                &&& colors.len() == pts.len()
                &&& 0 < width
                &&& 1 <= layers <= 8
                &&& glow_width(width, layers) <= WIDTH_MAX
                &&& all_near(pts)
                &&& all_in_gamut(colors)
            },
            Mark::Fill { pts, baseline, colors } => {
                &&& colors.len() == pts.len()
                &&& all_in_gamut(colors)
            },
            Mark::RoundRect { x0, y0, x1, y1, radius, color } => {
                &&& -REACH <= x0 <= REACH
                &&& -REACH <= y0 <= REACH
                &&& -REACH <= x1 <= REACH
                &&& -REACH <= y1 <= REACH
                &&& in_gamut(color@)
            },
            Mark::Spoke { inner, reach, angle, width, colors } => {
                &&& colors.len() >= 2
                &&& 0 <= inner
                &&& 0 <= reach
                &&& inner + reach <= ONE
                &&& width <= WIDTH_MAX
                &&& all_in_gamut(colors)
            },
            Mark::Ring { r, width, color } => {
                &&& -ONE <= r <= ONE
                &&& width <= WIDTH_MAX
                &&& in_gamut(color@)
            },
        }
    }

    /// Most vertices the mark can take.
    pub open spec fn cost(self) -> int {
        match self {
            Mark::Stroke { pts, width, additive, colors } => 4 * (pts.len() as int) + 70,
            Mark::Glow { pts, width, layers, colors } => (layers + 1) * (4 * (pts.len() as int) + 70),
            Mark::Fill { pts, baseline, colors } => 2 * (pts.len() as int),
            Mark::RoundRect { x0, y0, x1, y1, radius, color } => 73,
            Mark::Spoke { inner, reach, angle, width, colors } => 4 * (colors.len() as int) + 70,
            Mark::Ring { r, width, color } => 1100,
        }
    }

    /// Most triangles the mark can take.
    pub open spec fn facets(self) -> int {
        match self {
            Mark::Stroke { pts, width, additive, colors } => 6 * (pts.len() as int) + 96,
            Mark::Glow { pts, width, layers, colors } => (layers + 1) * (6 * (pts.len() as int) + 96),
            Mark::Fill { pts, baseline, colors } => 2 * (pts.len() as int),
            Mark::RoundRect { x0, y0, x1, y1, radius, color } => 108,
            Mark::Spoke { inner, reach, angle, width, colors } => 6 * (colors.len() as int) + 96,
            Mark::Ring { r, width, color } => 1638,
        }
    }
}

/// Most vertices the first `n` marks can take.
pub open spec fn total_cost(list: Seq<Mark>, n: int) -> int
    decreases n,
{
    if n <= 0 {
        0
    } else {
        total_cost(list, n - 1) + list[n - 1].cost()
    }
}

/// Most triangles the first `n` marks can take.
pub open spec fn total_facets(list: Seq<Mark>, n: int) -> int
    decreases n,
{
    if n <= 0 {
        0
    } else {
        total_facets(list, n - 1) + list[n - 1].facets()
    }
}

/// Every mark is within the limits of the mesh builder.
pub open spec fn all_valid(list: Seq<Mark>) -> bool {
    forall|i: int| 0 <= i < list.len() ==> (#[trigger] list[i]).valid()
}

proof fn lemma_cost_nonnegative(m: Mark)
    requires
        m.valid(),
    ensures
        m.cost() >= 0,
        m.facets() >= 0,
{
    if let Mark::Glow { pts, width, layers, colors } = m {
        assert((layers + 1) * (4 * pts.len() + 70) >= 0) by (nonlinear_arith)
            requires
                layers >= 1,
        ;
        assert((layers + 1) * (6 * pts.len() + 96) >= 0) by (nonlinear_arith)
            requires
                layers >= 1,
        ;
    }
}

proof fn lemma_total_monotone(list: Seq<Mark>, a: int, b: int)
    requires
        all_valid(list),
        0 <= a <= b <= list.len(),
    ensures
        0 <= total_cost(list, a) <= total_cost(list, b),
        0 <= total_facets(list, a) <= total_facets(list, b),
    decreases b,
{
    if b > 0 {
        lemma_cost_nonnegative(list[b - 1]);
        if a < b {
            lemma_total_monotone(list, a, b - 1);
        } else {
            lemma_total_monotone(list, a - 1, b - 1);
        }
    }
}

proof fn lemma_total_prefix(a: Seq<Mark>, b: Seq<Mark>, n: int)
    requires
        0 <= n <= a.len(),
    ensures
        total_cost(a + b, n) == total_cost(a, n),
        total_facets(a + b, n) == total_facets(a, n),
    decreases n,
{
    if n > 0 {
        lemma_total_prefix(a, b, n - 1);
    }
}

proof fn lemma_total_suffix(a: Seq<Mark>, b: Seq<Mark>, n: int)
    requires
        0 <= n <= b.len(),
    ensures
        total_cost(a + b, a.len() + n) == total_cost(a, a.len() as int) + total_cost(b, n),
        total_facets(a + b, a.len() + n) == total_facets(a, a.len() as int) + total_facets(b, n),
    decreases n,
{
    if n > 0 {
        lemma_total_suffix(a, b, n - 1);
    } else {
        lemma_total_prefix(a, b, a.len() as int);
    }
}

/// Costs add up over concatenated lists.
pub proof fn lemma_total_concat(a: Seq<Mark>, b: Seq<Mark>)
    ensures
        total_cost(a + b, (a + b).len() as int) == total_cost(a, a.len() as int) + total_cost(
            b,
            b.len() as int,
        ),
        total_facets(a + b, (a + b).len() as int) == total_facets(a, a.len() as int)
            + total_facets(b, b.len() as int),
        all_valid(a) && all_valid(b) ==> all_valid(a + b),
{
    lemma_total_suffix(a, b, b.len() as int);
}

/// The marks of a list with one shape appended.
pub proof fn lemma_marks_push(shapes: Seq<Shape>, s: Shape)
    ensures
        marks(shapes.push(s)) == marks(shapes).push(s@),
{
    assert(marks(shapes.push(s)) =~= marks(shapes).push(s@));
}

impl<F: Fn(i64) -> Point> MeshBuilder<F> {
    /// `self` is `before` with the mark drawn on top.
    pub open spec fn marked(&self, before: &Self, m: Mark) -> bool {
        match m {
            Mark::Stroke { pts, width, additive, colors } => self.stroked(
                before,
                pts,
                width,
                additive,
                colors,
            ),
            Mark::Glow { pts, width, layers, colors } => self.glowed(
                before,
                pts,
                width,
                colors,
                layers,
            ),
            Mark::Fill { pts, baseline, colors } => self.filled(before, pts, baseline, colors),
            Mark::RoundRect { x0, y0, x1, y1, radius, color } => self.rounded(
                before,
                x0,
                y0,
                x1,
                y1,
                radius,
                color,
            ),
            Mark::Spoke { inner, reach, angle, width, colors } => self.spoked(
                before,
                inner,
                reach,
                angle,
                width,
                colors,
            ),
            Mark::Ring { r, width, color } => self.ringed(
                before,
                crate::geometry::point(0, 0),
                r,
                width,
                color,
            ),
        }
    }

    /// `self` is `before` with the first `n` marks drawn in order.
    pub open spec fn painted(&self, before: &Self, list: Seq<Mark>, n: int) -> bool
        decreases n,
    {
        if n <= 0 {
            *self == *before
        } else {
            let last = list[n - 1];
            exists|mid: Self| #[trigger]
                self.marked(&mid, last) && mid.painted(before, list, n - 1)
        }
    }

    /// `self` is `before` with something appended, if anything.
    pub open spec fn grown_from(&self, before: &Self) -> bool {
        &&& self.same_frame(before)
        &&& before.verts@.is_prefix_of(self.verts@)
        &&& before.indices@.is_prefix_of(self.indices@)
    }

    proof fn lemma_glow_grows(
        before: &Self,
        after: &Self,
        pts: Seq<Point>,
        width: int,
        colors: Seq<[i64; 4]>,
        layer: int,
    )
        requires
            after.glowed(before, pts, width, colors, layer),
        ensures
            after.grown_from(before),
        decreases layer,
    {
        if layer > 0 {
            let mid = choose|mid: Self|
                #![trigger mid.stroked(before, pts, glow_width(width, layer), true, glow_colors(colors, layer))]
                mid.stroked(
                    before,
                    pts,
                    glow_width(width, layer),
                    true,
                    glow_colors(colors, layer),
                ) && after.glowed(&mid, pts, width, colors, layer - 1);
            Self::lemma_glow_grows(&mid, after, pts, width, colors, layer - 1);
        }
    }

    /// A mark is drawn on top of what is there, and changes none of it.
    pub proof fn law_mark_appends(before: &Self, after: &Self, m: Mark)
        requires
            after.marked(before, m),
        ensures
            after.grown_from(before),
    {
        if let Mark::Glow { pts, width, layers, colors } = m {
            Self::lemma_glow_grows(before, after, pts, width, colors, layers);
        }
    }

    /// A display list is drawn on top of what is there, its first mark before all
    /// others.
    pub proof fn law_painting_appends(
        before: &Self,
        after: &Self,
        list: Seq<Mark>,
        n: int,
    ) -> (first: Self)
        requires
            n >= 1,
            after.painted(before, list, n),
        ensures
            after.grown_from(before),
            first.marked(before, list[0]),
            first.grown_from(before),
            after.grown_from(&first),
        decreases n,
    {
        let mid = choose|mid: Self| #[trigger]
            after.marked(&mid, list[n - 1]) && mid.painted(before, list, n - 1);
        Self::law_mark_appends(&mid, after, list[n - 1]);
        if n == 1 {
            *after
        } else {
            Self::law_painting_appends(before, &mid, list, n - 1)
        }
    }

    proof fn lemma_painted_step(
        before: &Self,
        mid: &Self,
        after: &Self,
        list: Seq<Mark>,
        n: int,
    )
        requires
            n >= 0,
            mid.painted(before, list, n),
            after.marked(mid, list[n]),
        ensures
            after.painted(before, list, n + 1),
    {
        let m: Self = *mid;
        assert(m.painted(before, list, (n + 1) - 1) && after.marked(&m, list[(n + 1) - 1]));
    }

    /// Draw one shape.
    pub fn draw_shape(&mut self, shape: &Shape)
        requires
            old(self).wf(),
            shape@.valid(),
            old(self).count() + shape@.cost() <= VERTS_MAX,
        ensures
            final(self).wf(),
            final(self).same_frame(old(self)),
            final(self).marked(old(self), shape@),
            final(self).count() <= old(self).count() + shape@.cost(),
            final(self).indices@.len() <= old(self).indices@.len() + 3 * shape@.facets(),
    {
        match shape {
            Shape::Stroke { pts, width, additive, colors } => {
                self.stroke_with(pts.as_slice(), *width, *additive, colors.as_slice());
            },
            Shape::Glow { pts, width, layers, colors } => {
                proof {
                    let n = pts@.len() as int;
                    assert(3 * ((layers + 1) * (6 * n + 96)) == (layers + 1) * (18 * n + 288))
                        by (nonlinear_arith);
                }
                self.glow_stroke_with(pts.as_slice(), *width, colors.as_slice(), *layers);
            },
            Shape::Fill { pts, baseline, colors } => {
                self.fill_under(pts.as_slice(), *baseline, colors.as_slice());
            },
            Shape::RoundRect { x0, y0, x1, y1, radius, color } => {
                self.round_rect(*x0, *y0, *x1, *y1, *radius, *color);
            },
            Shape::Spoke { inner, reach, angle, width, colors } => {
                self.spoke(*inner, *reach, *angle, *width, colors.as_slice());
            },
            Shape::Ring { r, width, color } => {
                proof {
                    lemma_ring_fits(Point { x: 0, y: 0 }, *r as int, self.aspect as int);
                }
                self.ring(Point { x: 0, y: 0 }, *r, *width, *color);
            },
        }
    }

    /// Draw a display list in order.
    pub fn paint(&mut self, shapes: &Vec<Shape>)
        requires
            old(self).wf(),
            all_valid(marks(shapes@)),
            old(self).count() + total_cost(marks(shapes@), shapes@.len() as int) <= VERTS_MAX,
        ensures
            final(self).wf(),
            final(self).same_frame(old(self)),
            final(self).painted(old(self), marks(shapes@), shapes@.len() as int),
            final(self).count() <= old(self).count() + total_cost(
                marks(shapes@),
                shapes@.len() as int,
            ),
            final(self).indices@.len() <= old(self).indices@.len() + 3 * total_facets(
                marks(shapes@),
                shapes@.len() as int,
            ),
    {
        let ghost list = marks(shapes@);
        let mut i: usize = 0;
        while i < shapes.len()
            invariant
                self.wf(),
                self.same_frame(old(self)),
                i <= shapes@.len(),
                list == marks(shapes@),
                all_valid(list),
                old(self).count() + total_cost(list, shapes@.len() as int) <= VERTS_MAX,
                self.painted(old(self), list, i as int),
                self.count() <= old(self).count() + total_cost(list, i as int),
                self.indices@.len() <= old(self).indices@.len() + 3 * total_facets(
                    list,
                    i as int,
                ),
            decreases shapes@.len() - i,
        {
            let ghost mid = *self;
            assert(list[i as int] == shapes@[i as int]@);
            assert(list[i as int].valid());
            proof {
                lemma_total_monotone(list, i + 1, shapes@.len() as int);
            }
            self.draw_shape(&shapes[i]);
            proof {
                Self::lemma_painted_step(old(self), &mid, self, list, i as int);
            }
            i = i + 1;
        }
    }
}

impl<F: Fn(i64) -> Point> MeshBuilder<F> {
    /// Every mark of a picture is drawn, one behind the other in the order given:
    /// mark `i` on what those before it left. Returns the meshes before and after
    /// it.
    pub proof fn law_painting_draws_each(
        before: &Self,
        after: &Self,
        list: Seq<Mark>,
        n: int,
        i: int,
    ) -> (r: (Self, Self))
        requires
            0 <= i < n,
            after.painted(before, list, n),
        ensures
            r.0.painted(before, list, i),
            r.1.marked(&r.0, list[i]),
            r.1.painted(before, list, i + 1),
            after.grown_from(&r.1),
        decreases n,
    {
        let mid = choose|mid: Self| #[trigger]
            after.marked(&mid, list[n - 1]) && mid.painted(before, list, n - 1);
        Self::law_mark_appends(&mid, after, list[n - 1]);
        if i == n - 1 {
            (mid, *after)
        } else {
            Self::law_painting_draws_each(before, &mid, list, n - 1, i)
        }
    }

    /// Every kind of mark is drawn as what it is.
    pub proof fn law_marks_are_drawn(before: &Self, after: &Self, m: Mark)
        requires
            after.marked(before, m),
        ensures
            m matches Mark::Stroke { pts, width, additive, colors } ==> after.stroked(
                before,
                pts,
                width,
                additive,
                colors,
            ),
            m matches Mark::Glow { pts, width, layers, colors } ==> after.glowed(
                before,
                pts,
                width,
                colors,
                layers,
            ),
            m matches Mark::Fill { pts, baseline, colors } ==> after.filled(
                before,
                pts,
                baseline,
                colors,
            ),
            m matches Mark::RoundRect { x0, y0, x1, y1, radius, color } ==> after.rounded(
                before,
                x0,
                y0,
                x1,
                y1,
                radius,
                color,
            ),
            m matches Mark::Spoke { inner, reach, angle, width, colors } ==> after.spoked(
                before,
                inner,
                reach,
                angle,
                width,
                colors,
            ),
            m matches Mark::Ring { r, width, color } ==> after.ringed(
                before,
                Point { x: 0, y: 0 },
                r,
                width,
                color,
            ),
    {
    }
}

/// A length across the screen is as many pixels as its share of the width: half of it
/// for each unit, as near as the aspect is known. Returns that length in units of the
/// height.
pub proof fn law_across(screen: Screen, dx: int) -> (s: int)
    requires
        screen.wf(),
    ensures
        -1_000_000_000 < dx * screen.aspect() - 1_000_000_000 * s < 1_000_000_000,
        -2 < s * screen.height - 2 * screen.across(dx) < 2,
{
    screen_width(dx, screen.aspect())
}

} // verus!
