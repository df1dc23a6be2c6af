//! Bloom: a bright pass, a separable blur and an additive composite, planned as
//! a chain of full-screen passes between offscreen targets.
//!
//! The scene renders into an offscreen target, its bright parts are taken out at
//! half resolution, blurred along each axis, and added back over the scene into
//! the surface.

use crate::number::{Sample, ONE};
use vstd::prelude::*;

verus! {

/// Luminance a pixel must exceed to glow: the dim base of a visual should not,
/// its bright crest should.
pub const THRESHOLD: i64 = 550_000_000;

/// How strongly the blurred bright pass is added back.
pub const INTENSITY: i64 = 850_000_000;

/// The intensity asked for: a finite number that is not negative, else the
/// default.
pub fn requested_intensity(var: Option<Sample>) -> (v: i64)
    ensures
        v == match var {
            Some(s) => if s.finite() && !s.below(Sample { bits: 0 }) {
                s.fixed()
            } else {
                INTENSITY as int
            },
            None => INTENSITY as int,
        },
{
    match var {
        Some(s) => if s.is_finite() && !s.less(Sample { bits: 0 }) {
            s.to_fixed()
        } else {
            INTENSITY
        },
        None => INTENSITY,
    }
}

/// Half of a side, and at least a pixel.
pub open spec fn half_of(side: int) -> int {
    if side < 2 {
        1
    } else {
        side / 2
    }
}

/// Size of the half-resolution targets.
pub fn half_size(width: u32, height: u32) -> (half: (u32, u32))
    ensures
        half.0 == half_of(width as int),
        half.1 == half_of(height as int),
        half.0 >= 1,
        half.1 >= 1,
{
    (
        if width < 2 {
            1
        } else {
            width / 2
        },
        if height < 2 {
            1
        } else {
            height / 2
        },
    )
}

/// Where a pass reads from or draws into.
#[derive(Clone, Copy, PartialEq, Eq, Structural, Debug)]
pub enum Target {
    /// The scene, at full resolution.
    Scene,
    /// Its bright parts, at half resolution.
    Bright,
    /// The bright parts blurred along rows, at half resolution.
    BlurA,
    /// The bright parts blurred along both axes, at half resolution.
    BlurB,
    /// The image that is presented.
    Surface,
}

/// What a pass does to each pixel.
#[derive(Clone, Copy, PartialEq, Eq, Structural, Debug)]
pub enum Step {
    Threshold,
    BlurRows,
    BlurColumns,
    Composite,
}

/// One full-screen pass.
#[derive(Clone, Copy, PartialEq, Eq, Structural, Debug)]
pub struct BloomPass {
    pub step: Step,
    pub source: Target,
    /// A second source, for the composite.
    pub glow: Option<Target>,
    pub target: Target,
}

/// The passes, in order.
pub open spec fn passes() -> Seq<BloomPass> {
    seq![
        BloomPass {
            step: Step::Threshold,
            source: Target::Scene,
            glow: None,
            target: Target::Bright,
        },
        BloomPass {
            step: Step::BlurRows,
            source: Target::Bright,
            glow: None,
            target: Target::BlurA,
        },
        BloomPass {
            step: Step::BlurColumns,
            source: Target::BlurA,
            glow: None,
            target: Target::BlurB,
        },
        BloomPass {
            step: Step::Composite,
            source: Target::Scene,
            glow: Some(Target::BlurB),
            target: Target::Surface,
        },
    ]
}

/// The passes, in order.
pub fn plan() -> (plan: [BloomPass; 4])
    ensures
        plan@ == passes(),
{
    let plan: [BloomPass; 4] = [
        BloomPass {
            step: Step::Threshold,
            source: Target::Scene,
            glow: None,
            target: Target::Bright,
        },
        BloomPass {
            step: Step::BlurRows,
            source: Target::Bright,
            glow: None,
            target: Target::BlurA,
        },
        BloomPass {
            step: Step::BlurColumns,
            source: Target::BlurA,
            glow: None,
            target: Target::BlurB,
        },
        BloomPass {
            step: Step::Composite,
            source: Target::Scene,
            glow: Some(Target::BlurB),
            target: Target::Surface,
        },
    ];
    assert(plan@ =~= passes());
    plan
}

/// Drawn before pass `i`: the scene, or by an earlier pass.
pub open spec fn drawn_before(t: Target, i: int) -> bool {
    t == Target::Scene || exists|j: int| 0 <= j < i && #[trigger] passes()[j].target == t
}

/// Only the last pass draws the presented image.
pub proof fn law_only_composite_presents(i: int)
    requires
        0 <= i < passes().len(),
    ensures
        passes()[i].target == Target::Surface <==> i == passes().len() - 1,
        passes()[i].step == Step::Composite <==> i == passes().len() - 1,
{
}

/// Every pass reads what has been drawn, never what it draws, and no target is
/// drawn twice.
pub proof fn law_passes_chain(i: int, j: int)
    requires
        0 <= i < passes().len(),
        0 <= j < passes().len(),
    ensures
        drawn_before(passes()[i].source, i),
        passes()[i].glow is Some ==> drawn_before(passes()[i].glow->0, i),
        passes()[i].source != passes()[i].target,
        passes()[i].glow != Some(passes()[i].target),
        passes()[i].target == passes()[j].target ==> i == j,
{
    assert(passes()[0].target == Target::Bright);
    assert(passes()[1].target == Target::BlurA);
    assert(passes()[2].target == Target::BlurB);
}

/// Size of a target, for a framebuffer.
pub open spec fn target_of(t: Target, width: int, height: int) -> (int, int) {
    match t {
        Target::Scene | Target::Surface => (
            if width < 1 {
                1
            } else {
                width
            },
            if height < 1 {
                1
            } else {
                height
            },
        ),
        _ => (half_of(width), half_of(height)),
    }
}

/// Size of a target, for a framebuffer; never empty.
pub fn target_size(t: Target, width: u32, height: u32) -> (size: (u32, u32))
    ensures
        size.0 == target_of(t, width as int, height as int).0,
        size.1 == target_of(t, width as int, height as int).1,
        size.0 >= 1,
        size.1 >= 1,
{
    match t {
        Target::Scene | Target::Surface => (
            if width < 1 {
                1
            } else {
                width
            },
            if height < 1 {
                1
            } else {
                height
            },
        ),
        _ => half_size(width, height),
    }
}

/// What a pass is told, in its own uniform buffer.
#[derive(Clone, Copy, PartialEq, Eq, Structural, Debug)]
pub struct Params {
    pub threshold: i64,
    pub intensity: i64,
    /// Step between blur samples, as fractions of the source's sides.
    pub dir_x: i64,
    pub dir_y: i64,
}

/// What a pass is told. Each has parameters of its own: all of them are written
/// before any pass runs, so passes that shared a buffer would all see what was
/// written last.
pub fn pass_params(step: Step, half_w: u32, half_h: u32, intensity: i64) -> (p: Params)
    requires
        half_w >= 1,
        half_h >= 1,
    ensures
        p.threshold == if step == Step::Threshold {
            THRESHOLD as int
        } else {
            0
        },
        p.intensity == if step == Step::Composite {
            intensity as int
        } else {
            0
        },
        p.dir_x == if step == Step::BlurRows {
            ONE as int / half_w as int
        } else {
            0
        },
        p.dir_y == if step == Step::BlurColumns {
            ONE as int / half_h as int
        } else {
            0
        },
{
    match step {
        Step::Threshold => Params { threshold: THRESHOLD, intensity: 0, dir_x: 0, dir_y: 0 },
        Step::BlurRows => Params {
            threshold: 0,
            intensity: 0,
            dir_x: ONE / half_w as i64,
            dir_y: 0,
        },
        Step::BlurColumns => Params {
            threshold: 0,
            intensity: 0,
            dir_x: 0,
            dir_y: ONE / half_h as i64,
        },
        Step::Composite => Params { threshold: 0, intensity, dir_x: 0, dir_y: 0 },
    }
}

/// Glow is worked out at half the size of the screen, each side a pixel at least;
/// scene and surface are as large as the screen.
pub proof fn law_target_sizes(width: int, height: int, t: Target)
    requires
        width >= 0,
        height >= 0,
    ensures
        ({
            let (w, h) = target_of(t, width, height);
            let half = !(t is Scene) && !(t is Surface);
            &&& w >= 1
            &&& h >= 1
            &&& half && width >= 2 ==> 2 * w <= width < 2 * w + 2
            &&& half && height >= 2 ==> 2 * h <= height < 2 * h + 2
            &&& half && width < 2 ==> w == 1
            &&& half && height < 2 ==> h == 1
            &&& !half && width >= 1 ==> w == width
            &&& !half && height >= 1 ==> h == height
        }),
{
}

/// The glow is thresholded from the scene, blurred along its rows and then along its
/// columns, and added back to the scene on the surface.
pub proof fn law_glow_comes_from_scene()
    ensures
        passes().len() == 4,
        passes()[0].step is Threshold && passes()[0].source is Scene,
        passes()[1].step is BlurRows && passes()[1].source == passes()[0].target,
        passes()[2].step is BlurColumns && passes()[2].source == passes()[1].target,
        passes()[3].step is Composite && passes()[3].source is Scene,
        passes()[3].glow == Some(passes()[2].target),
        passes()[3].target is Surface,
        passes()[0].glow is None && passes()[1].glow is None && passes()[2].glow is None,
{
}

/// The strength of the glow is the one asked for where that is a finite number not
/// below zero, and 0.85 otherwise.
pub proof fn law_intensity(s: Sample, given: i64, plain: i64)
    requires
        call_ensures(requested_intensity, (Some(s),), given),
        call_ensures(requested_intensity, (None,), plain),
    ensures
        plain == 850_000_000,
        !s.finite() || s.bits > 0x8000_0000 ==> given == 850_000_000,
        s.finite() && s.bits < 0x8000_0000 ==> given == s.fixed(),
{
}

/// Each step of the glow gets what it needs and nothing else: the threshold 0.55, the
/// blurs a step of one pixel along their own direction, and the last the strength.
pub proof fn law_pass_params(step: Step, half_w: u32, half_h: u32, intensity: i64, p: Params)
    requires
        half_w >= 1,
        half_h >= 1,
        call_ensures(pass_params, (step, half_w, half_h, intensity), p),
    ensures
        p.threshold == (if step is Threshold {
            550_000_000int
        } else {
            0
        }),
        p.intensity == (if step is Composite {
            intensity as int
        } else {
            0
        }),
        step is BlurRows ==> 0 <= 1_000_000_000 - half_w * p.dir_x < half_w && p.dir_y == 0,
        step is BlurColumns ==> 0 <= 1_000_000_000 - half_h * p.dir_y < half_h && p.dir_x == 0,
        !(step is BlurRows) && !(step is BlurColumns) ==> p.dir_x == 0 && p.dir_y == 0,
{
    let (w, h) = (half_w as int, half_h as int);
    vstd::arithmetic::div_mod::lemma_fundamental_div_mod(1_000_000_000, w);
    vstd::arithmetic::div_mod::lemma_mod_bound(1_000_000_000, w);
    vstd::arithmetic::div_mod::lemma_fundamental_div_mod(1_000_000_000, h);
    vstd::arithmetic::div_mod::lemma_mod_bound(1_000_000_000, h);
}

} // verus!
