//! The catalogue of visualization styles.
//!
//! Adding one takes three steps: write a struct holding the state it keeps
//! across frames, implement [`Visualizer`] for it, and add it to [`Visual`] and
//! [`all`].

use crate::area::{law_area_never_empty, SpectrumArea};
use crate::bars::Bars;
use crate::mesh::{MeshBuilder, VERTS_MAX};
use crate::motion::RANGE_SPAN;
use crate::radial::RadialBurst;
use crate::ridge::RidgeBed;
use crate::scope::{Oscilloscope, Vectorscope};
use crate::shape::{
    marks, presentable, Curves, FrameData, Screen, Shape, Visualizer, TRIANGLE_BUDGET,
    VERTEX_BUDGET,
};
use crate::spline::Point;
use vstd::prelude::*;

verus! {

/// Material dark-theme surface.
pub const SURFACE_HEX: u32 = 0x121212;

/// The tint bass pushes it toward.
pub const SURFACE_BASS_HEX: u32 = 0x311B92;

/// One of the styles.
pub enum Visual {
    Bars(Bars),
    RidgeBed(RidgeBed),
    SpectrumArea(SpectrumArea),
    RadialBurst(RadialBurst),
    Oscilloscope(Oscilloscope),
    Vectorscope(Vectorscope),
}

impl Visual {
    /// `after` and `shapes` are what drawing `frame` leaves and gives: a style
    /// stays what it is, and draws as it does on its own.
    pub open spec fn drawn<
        E: Fn(u64, u64) -> i64,
        P: Fn(i64, i64) -> i64,
        W: Fn(i64) -> i64,
        S: Fn(i64) -> i64,
    >(
        before: Visual,
        after: Visual,
        frame: &FrameData,
        screen: Screen,
        curves: &Curves<E, P, W, S>,
        shapes: Seq<Shape>,
    ) -> bool {
        match (before, after) {
            (Visual::Bars(a), Visual::Bars(b)) => Bars::drawn(
                a,
                b,
                frame,
                screen,
                curves,
                shapes,
            ),
            (Visual::RidgeBed(a), Visual::RidgeBed(b)) => RidgeBed::drawn(
                a,
                b,
                frame,
                screen,
                curves,
                shapes,
            ),
            (Visual::SpectrumArea(a), Visual::SpectrumArea(b)) => SpectrumArea::drawn(
                a,
                b,
                frame,
                screen,
                curves,
                shapes,
            ),
            (Visual::RadialBurst(a), Visual::RadialBurst(b)) => RadialBurst::drawn(
                a,
                b,
                frame,
                screen,
                curves,
                shapes,
            ),
            (Visual::Oscilloscope(a), Visual::Oscilloscope(b)) => Oscilloscope::drawn(
                a,
                b,
                frame,
                screen,
                curves,
                shapes,
            ),
            (Visual::Vectorscope(a), Visual::Vectorscope(b)) => Vectorscope::drawn(
                a,
                b,
                frame,
                screen,
                curves,
                shapes,
            ),
            _ => false,
        }
    }
}

impl Visualizer for Visual {
    open spec fn wf(&self) -> bool {
        match self {
            Visual::Bars(v) => v.wf(),
            Visual::RidgeBed(v) => v.wf(),
            Visual::SpectrumArea(v) => v.wf(),
            Visual::RadialBurst(v) => v.wf(),
            Visual::Oscilloscope(v) => v.wf(),
            Visual::Vectorscope(v) => v.wf(),
        }
    }

    open spec fn label(&self) -> Seq<char> {
        match self {
            Visual::Bars(v) => v.label(),
            Visual::RidgeBed(v) => v.label(),
            Visual::SpectrumArea(v) => v.label(),
            Visual::RadialBurst(v) => v.label(),
            Visual::Oscilloscope(v) => v.label(),
            Visual::Vectorscope(v) => v.label(),
        }
    }

    fn name(&self) -> (r: &'static str) {
        match self {
            Visual::Bars(v) => v.name(),
            Visual::RidgeBed(v) => v.name(),
            Visual::SpectrumArea(v) => v.name(),
            Visual::RadialBurst(v) => v.name(),
            Visual::Oscilloscope(v) => v.name(),
            Visual::Vectorscope(v) => v.name(),
        }
    }

    fn draw<
        E: Fn(u64, u64) -> i64,
        P: Fn(i64, i64) -> i64,
        W: Fn(i64) -> i64,
        S: Fn(i64) -> i64,
    >(&mut self, frame: &FrameData, screen: Screen, curves: &Curves<E, P, W, S>) -> (shapes: Vec<
        Shape,
    >)
        ensures
            Visual::drawn(*old(self), *final(self), frame, screen, curves, shapes@),
    {
        match self {
            Visual::Bars(v) => v.draw(frame, screen, curves),
            Visual::RidgeBed(v) => v.draw(frame, screen, curves),
            Visual::SpectrumArea(v) => v.draw(frame, screen, curves),
            Visual::RadialBurst(v) => v.draw(frame, screen, curves),
            Visual::Oscilloscope(v) => v.draw(frame, screen, curves),
            Visual::Vectorscope(v) => v.draw(frame, screen, curves),
        }
    }
}

impl Visual {
    /// Nothing has been drawn yet.
    pub open spec fn fresh(&self) -> bool {
        match self {
            Visual::Bars(v) => v.clock.last is None && v.range.hi == RANGE_SPAN && v.peaks@
                == Seq::new(64, |i: int| 0i64),
            Visual::RidgeBed(v) => v.clock.last is None && v.range.hi == RANGE_SPAN
                && v.history@.len() == 0 && v.since_row == 0,
            Visual::SpectrumArea(v) => v.clock.last is None && v.range.hi == RANGE_SPAN,
            Visual::RadialBurst(v) => v.clock.last is None && v.range.hi == RANGE_SPAN
                && v.rotation == 0,
            Visual::Oscilloscope(v) => v.pts@.len() == 0,
            Visual::Vectorscope(v) => v.pts@.len() == 0,
        }
    }
}

/// All styles, in cycle order.
pub fn all() -> (v: Vec<Visual>)
    ensures
        v@.len() == 6,
        forall|i: int| 0 <= i < 6 ==> (#[trigger] v@[i]).wf() && v@[i].fresh(),
        v@[0] is Bars,
        v@[1] is RidgeBed,
        v@[2] is SpectrumArea,
        v@[3] is RadialBurst,
        v@[4] is Oscilloscope,
        v@[5] is Vectorscope,
        v@[0].label() == "Bars"@,
        v@[1].label() == "Ridge Bed"@,
        v@[2].label() == "Spectrum Area"@,
        v@[3].label() == "Radial Burst"@,
        v@[4].label() == "Oscilloscope"@,
        v@[5].label() == "Vectorscope"@,
{
    let mut v: Vec<Visual> = Vec::with_capacity(6);
    v.push(Visual::Bars(Bars::new()));
    v.push(Visual::RidgeBed(RidgeBed::new()));
    v.push(Visual::SpectrumArea(SpectrumArea::new()));
    v.push(Visual::RadialBurst(RadialBurst::new()));
    v.push(Visual::Oscilloscope(Oscilloscope::new()));
    v.push(Visual::Vectorscope(Vectorscope::new()));
    v
}

/// Draw one frame of a style into a mesh.
///
/// Whatever the audio, the mesh stays well formed (no index past the vertices,
/// no partial triangle) and grows within the per-frame budgets, on top of what it
/// held. A spectrum area always adds something.
pub fn draw_into<
    F: Fn(i64) -> Point,
    E: Fn(u64, u64) -> i64,
    P: Fn(i64, i64) -> i64,
    W: Fn(i64) -> i64,
    S: Fn(i64) -> i64,
>(
    visual: &mut Visual,
    frame: &FrameData,
    curves: &Curves<E, P, W, S>,
    mesh: &mut MeshBuilder<F>,
) -> (shapes: Vec<Shape>)
    requires
        old(visual).wf(),
        frame.wf(),
        curves.wf(),
        old(mesh).wf(),
        old(mesh).count() + VERTEX_BUDGET <= VERTS_MAX,
    ensures
        final(visual).wf(),
        final(visual).label() == old(visual).label(),
        presentable(marks(shapes@)),
        Visual::drawn(
            *old(visual),
            *final(visual),
            frame,
            Screen { width: old(mesh).width_px, height: old(mesh).height_px },
            curves,
            shapes@,
        ),
        final(mesh).wf(),
        final(mesh).same_frame(old(mesh)),
        final(mesh).painted(old(mesh), marks(shapes@), shapes@.len() as int),
        final(mesh).count() <= old(mesh).count() + VERTEX_BUDGET,
        final(mesh).indices@.len() <= old(mesh).indices@.len() + 3 * TRIANGLE_BUDGET,
        final(mesh).grown_from(old(mesh)),
        *old(visual) is SpectrumArea ==> final(mesh).count() >= old(mesh).count() + 4
            && final(mesh).indices@.len() >= old(mesh).indices@.len() + 6,
{
    let (width, height): (u32, u32) = mesh.size_px();
    let shapes: Vec<Shape> = visual.draw(frame, Screen { width, height }, curves);
    mesh.paint(&shapes);
    proof {
        let list = marks(shapes@);
        if list.len() >= 1 {
            let first = MeshBuilder::law_painting_appends(old(mesh), mesh, list, list.len() as int);
        }
        if *old(visual) is SpectrumArea {
            law_area_never_empty(
                frame.stops@,
                visual->SpectrumArea_0.range.hi as int,
                frame.bands@,
                height as int,
                old(mesh),
                mesh,
            );
        }
    }
    shapes
}

/// Each visual draws as its own kind does, and stays of that kind.
pub proof fn law_visuals_draw_their_own<
    E: Fn(u64, u64) -> i64,
    P: Fn(i64, i64) -> i64,
    W: Fn(i64) -> i64,
    S: Fn(i64) -> i64,
>(
    before: Visual,
    after: Visual,
    frame: &FrameData,
    screen: Screen,
    curves: &Curves<E, P, W, S>,
    shapes: Seq<Shape>,
)
    requires
        Visual::drawn(before, after, frame, screen, curves, shapes),
    ensures
        before matches Visual::Bars(a) ==> (after matches Visual::Bars(b) && Bars::drawn(
            a,
            b,
            frame,
            screen,
            curves,
            shapes,
        )),
        before matches Visual::RidgeBed(a) ==> (after matches Visual::RidgeBed(b)
            && RidgeBed::drawn(a, b, frame, screen, curves, shapes)),
        before matches Visual::SpectrumArea(a) ==> (after matches Visual::SpectrumArea(b)
            && SpectrumArea::drawn(a, b, frame, screen, curves, shapes)),
        before matches Visual::RadialBurst(a) ==> (after matches Visual::RadialBurst(b)
            && RadialBurst::drawn(a, b, frame, screen, curves, shapes)),
        before matches Visual::Oscilloscope(a) ==> (after matches Visual::Oscilloscope(b)
            && Oscilloscope::drawn(a, b, frame, screen, curves, shapes)),
        before matches Visual::Vectorscope(a) ==> (after matches Visual::Vectorscope(b)
            && Vectorscope::drawn(a, b, frame, screen, curves, shapes)),
        before.label() == after.label(),
{
}

/// The background is a gray of 18 of 255 on every channel without bass, and turns
/// towards a deep violet with it.
pub proof fn law_surface_colors()
    ensures
        SURFACE_HEX == 65_536 * 18 + 256 * 18 + 18,
        SURFACE_BASS_HEX == 65_536 * 49 + 256 * 27 + 146,
{
}

/// The visuals come in their order, each of its own kind and as it starts: with no
/// time passed, the range at its narrowest, and nothing held from before.
pub proof fn law_all_visuals(v: Vec<Visual>)
    requires
        call_ensures(all, (), v),
    ensures
        v@.len() == 6,
        v@[0] matches Visual::Bars(b) && b.clock.last is None && b.range.hi == 277_777_777
            && forall|i: int| 0 <= i < 64 ==> #[trigger] b.peaks@[i] == 0,
        v@[1] matches Visual::RidgeBed(b) && b.clock.last is None && b.range.hi == 277_777_777
            && b.history@.len() == 0,
        v@[2] matches Visual::SpectrumArea(b) && b.clock.last is None && b.range.hi == 277_777_777,
        v@[3] matches Visual::RadialBurst(b) && b.clock.last is None && b.range.hi == 277_777_777
            && b.rotation == 0,
        v@[4] matches Visual::Oscilloscope(b) && b.pts@.len() == 0,
        v@[5] matches Visual::Vectorscope(b) && b.pts@.len() == 0,
{
    assert(v@[0].fresh() && v@[1].fresh() && v@[2].fresh() && v@[3].fresh() && v@[4].fresh()
        && v@[5].fresh());
}

} // verus!
