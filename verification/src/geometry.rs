//! Screen-space geometry.
//!
//! Coordinates are normalized device coordinates (NDC) in billionths. Widths,
//! radii and feather amounts are given in pixels, also in billionths, and
//! converted here: specifying them in NDC is what lets thin strokes fall below
//! one pixel on short windows and start shimmering.

use crate::color::in_gamut;
use crate::number::{
    clamp, clamped, floor_root, is_floor_root, lemma_floor_root_at_least, lemma_trunc, mul_div,
    square_root, trunc, ONE,
};
use crate::spline::Point;
use vstd::prelude::*;

verus! {

/// Minimum stroke width in pixels.
///
/// Below roughly one pixel a stroke's coverage varies with its sub-pixel
/// position, so a moving hairline shimmers. Narrower requests are widened to
/// this and their alpha scaled down by the same factor.
pub const MIN_STROKE_PX: i64 = 1_250_000_000;

/// Width of the alpha ramp on every edge, in pixels.
pub const FEATHER_PX: i64 = 1_000_000_000;

/// Miter length limit, as a multiple of half the stroke width.
pub const MITER_LIMIT: i64 = 4_000_000_000;

/// Half a turn, in radians.
pub const PI: i64 = 3_141_592_654;

/// Largest framebuffer side, in pixels.
pub const MAX_SIDE: u32 = 65_536;

/// Largest coordinate handed to a primitive.
pub const REACH: i64 = 2_000_000_000_000;

/// Largest stroke width, in pixels.
pub const WIDTH_MAX: i64 = 1_000_000_000_000_000;

/// Furthest a vertex can be pushed out from its anchor.
pub const OFFSET_MAX: i64 = 4_500_000_000_000_000;

/// Coordinates a primitive accepts.
pub open spec fn near(p: Point) -> bool {
    -REACH <= p.x <= REACH && -REACH <= p.y <= REACH
}

/// A direction: both components in `-ONE..=ONE`.
pub open spec fn short(p: Point) -> bool {
    -ONE <= p.x <= ONE && -ONE <= p.y <= ONE
}

/// A point from integer coordinates.
pub open spec fn point(x: int, y: int) -> Point {
    Point { x: x as i64, y: y as i64 }
}

// -- pixels -----------------------------------------------------------------
/// Width over height, never below a thousandth.
pub open spec fn aspect_of(width: int, height: int) -> int {
    let a = width * ONE / height;
    if a < 1_000_000 {
        1_000_000
    } else {
        a
    }
}

/// NDC-y units per pixel. The y axis spans two units over the height.
pub open spec fn pixel(height: int) -> int {
    2 * ONE / height
}

/// A length in NDC-y units, in pixels.
pub open spec fn pixels(units: int, height: int) -> int {
    trunc(units * height, 2)
}

/// Width over height of a framebuffer, never below a thousandth.
pub fn aspect(width: u32, height: u32) -> (r: i64)
    requires
        1 <= width <= MAX_SIDE,
        1 <= height <= MAX_SIDE,
    ensures
        r == aspect_of(width as int, height as int),
        1_000_000 <= r <= 65_536 * ONE,
{
    let ghost n = width * ONE;
    assert(n / (height as int) <= n) by (nonlinear_arith)
        requires
            n >= 0,
            height >= 1,
    ;
    let a: i64 = width as i64 * ONE / height as i64;
    if a < 1_000_000 {
        1_000_000
    } else {
        a
    }
}

/// NDC-y units per pixel.
pub fn px(height: u32) -> (r: i64)
    requires
        1 <= height <= MAX_SIDE,
    ensures
        r == pixel(height as int),
        30_000 <= r <= 2 * ONE,
{
    assert(30_000 <= 2_000_000_000int / (height as int) <= 2_000_000_000) by (nonlinear_arith)
        requires
            1 <= height <= 65_536,
    ;
    2 * ONE / height as i64
}

/// Convert a length in NDC-y units to pixels.
pub fn to_px(units: i64, height: u32) -> (r: i64)
    requires
        1 <= height <= MAX_SIDE,
        -0x4000_0000_0000_0000 <= units * height <= 0x4000_0000_0000_0000,
    ensures
        r == pixels(units as int, height as int),
        -0x2000_0000_0000_0000 <= r <= 0x2000_0000_0000_0000,
{
    proof {
        lemma_trunc(units * height, 2, 0x2000_0000_0000_0000);
    }
    mul_div(units, height as i64, 2)
}

/// The aspect ratio times the height is at most the largest side.
pub proof fn lemma_aspect(width: int, height: int)
    requires
        1 <= width <= MAX_SIDE,
        1 <= height <= MAX_SIDE,
    ensures
        aspect_of(width, height) * height <= 65_536 * ONE,
        1_000_000 <= aspect_of(width, height) <= 65_536 * ONE,
{
    let n = width * ONE;
    let q = n / height;
    assert(q * height <= n && q <= n) by (nonlinear_arith)
        requires
            q == n / height,
            n >= 0,
            height >= 1,
    ;
    if q < 1_000_000 {
        assert(1_000_000 * height <= 65_536 * 1_000_000);
    }
}

/// A horizontal extent on screen, in NDC-y units.
pub open spec fn screen_width(dx: int, aspect: int) -> int {
    trunc(dx * aspect, ONE as int)
}

// -- color encoding ---------------------------------------------------------
/// Straight alpha to premultiplied.
pub open spec fn premultiplied(c: [i64; 4]) -> [i64; 4] {
    [
        (c[0] * c[3] / (ONE as int)) as i64,
        (c[1] * c[3] / (ONE as int)) as i64,
        (c[2] * c[3] / (ONE as int)) as i64,
        c[3],
    ]
}

/// Straight alpha to premultiplied with zero destination alpha, which the
/// premultiplied blend state composites additively.
pub open spec fn premultiplied_additive(c: [i64; 4]) -> [i64; 4] {
    [
        (c[0] * c[3] / (ONE as int)) as i64,
        (c[1] * c[3] / (ONE as int)) as i64,
        (c[2] * c[3] / (ONE as int)) as i64,
        0,
    ]
}

/// Fully transparent in premultiplied space: contributes nothing under either
/// blend mode.
pub const CLEAR: [i64; 4] = [0, 0, 0, 0];

/// Vertex color of a straight-alpha color.
pub open spec fn encoded(c: [i64; 4], additive: bool) -> [i64; 4] {
    if additive {
        premultiplied_additive(c)
    } else {
        premultiplied(c)
    }
}

/// A component of what a vertex color `src` leaves over `dst` under premultiplied
/// blending, given the color's alpha.
pub open spec fn composite(src: int, alpha: int, dst: int) -> int {
    src + dst * (ONE - alpha) / (ONE as int)
}

/// A fringe vertex leaves everything as it is, and an additive color adds its
/// light to what is there, under one and the same blend state.
pub proof fn law_blending(c: [i64; 4], dst: int, k: int)
    requires
        0 <= k < 3,
    ensures
        composite(CLEAR[k] as int, CLEAR[3] as int, dst) == dst,
        composite(encoded(c, true)[k] as int, encoded(c, true)[3] as int, dst) == dst + encoded(
            c,
            true,
        )[k],
        encoded(c, true)[k] == encoded(c, false)[k],
{
    assert(dst * ONE / (ONE as int) == dst);
}

proof fn lemma_product(a: int, b: int)
    requires
        0 <= a <= ONE,
        0 <= b <= ONE,
    ensures
        0 <= a * b <= 1_000_000_000_000_000_000,
        0 <= a * b / (ONE as int) <= a,
        0 <= a * b / (ONE as int) <= b,
{
    let p = a * b;
    assert(0 <= p <= a * 1_000_000_000 && p <= b * 1_000_000_000) by (nonlinear_arith)
        requires
            p == a * b,
            0 <= a <= 1_000_000_000,
            0 <= b <= 1_000_000_000,
    ;
}

/// Premultiplied vertex color of a straight-alpha color.
pub fn encode(c: [i64; 4], additive: bool) -> (r: [i64; 4])
    requires
        in_gamut(c@),
    ensures
        r == encoded(c, additive),
        in_gamut(r@),
        forall|k: int| 0 <= k < 3 ==> #[trigger] r[k] <= c[k] && r[k] <= c[3],
{
    assert(0 <= c@[0] <= ONE && 0 <= c@[1] <= ONE && 0 <= c@[2] <= ONE && 0 <= c@[3] <= ONE);
    proof {
        lemma_product(c[0] as int, c[3] as int);
        lemma_product(c[1] as int, c[3] as int);
        lemma_product(c[2] as int, c[3] as int);
    }
    let r: [i64; 4] = [
        c[0] * c[3] / ONE,
        c[1] * c[3] / ONE,
        c[2] * c[3] / ONE,
        if additive {
            0
        } else {
            c[3]
        },
    ];
    assert(r@ =~= encoded(c, additive)@);
    r
}

/// A color with its alpha scaled by `by`.
pub open spec fn faded(c: [i64; 4], by: int) -> [i64; 4] {
    [c[0], c[1], c[2], (c[3] * by / (ONE as int)) as i64]
}

/// Scale a color's alpha.
pub fn fade(c: [i64; 4], by: i64) -> (r: [i64; 4])
    requires
        in_gamut(c@),
        0 <= by <= ONE,
    ensures
        r == faded(c, by as int),
        in_gamut(r@),
{
    assert(0 <= c@[0] <= ONE && 0 <= c@[1] <= ONE && 0 <= c@[2] <= ONE && 0 <= c@[3] <= ONE);
    proof {
        lemma_product(c[3] as int, by as int);
    }
    let r: [i64; 4] = [c[0], c[1], c[2], c[3] * by / ONE];
    assert(r@ =~= faded(c, by as int)@);
    r
}

// -- stroke widths ----------------------------------------------------------
/// Geometry width and alpha scale for a requested width.
pub open spec fn resolved(width: int) -> (int, int) {
    if 0 < width < MIN_STROKE_PX {
        (MIN_STROKE_PX as int, width * ONE / (MIN_STROKE_PX as int))
    } else if width < MIN_STROKE_PX {
        (MIN_STROKE_PX as int, ONE as int)
    } else {
        (width, ONE as int)
    }
}

/// Effective geometry width and alpha scale for a requested pixel width.
pub fn resolve_width(width: i64) -> (r: (i64, i64))
    ensures
        (r.0 as int, r.1 as int) == resolved(width as int),
        r.0 >= MIN_STROKE_PX,
        0 <= r.1 <= ONE,
{
    if width > 0 && width < MIN_STROKE_PX {
        (MIN_STROKE_PX, width * ONE / MIN_STROKE_PX)
    } else if width < MIN_STROKE_PX {
        (MIN_STROKE_PX, ONE)
    } else {
        (width, ONE)
    }
}

/// Widening a sub-pixel stroke holds the emitted light constant: width times
/// alpha is what was asked for, to within one unit of alpha, and no stroke is
/// ever narrower than the minimum.
pub proof fn law_stroke_light(width: int)
    requires
        width > 0,
    ensures
        ({
            let (geo, alpha) = resolved(width);
            &&& geo >= MIN_STROKE_PX
            &&& geo >= width
            &&& geo * alpha <= width * ONE < geo * alpha + geo
        }),
{
    if width < MIN_STROKE_PX {
        let n = width * ONE;
        let d = MIN_STROKE_PX as int;
        vstd::arithmetic::div_mod::lemma_fundamental_div_mod(n, d);
        vstd::arithmetic::div_mod::lemma_mod_bound(n, d);
    }
}

// -- directions -------------------------------------------------------------
/// Unit vector along `(x, y)`, whatever their scale; zero where that is shorter
/// than a billion steps of it.
pub open spec fn aimed(x: int, y: int) -> Point {
    let len = floor_root(x * x + y * y);
    if len < ONE {
        point(0, 0)
    } else {
        point(trunc(x * ONE, len), trunc(y * ONE, len))
    }
}

/// Smaller than one, in billionths of a billionth.
pub open spec fn fine(v: int) -> bool {
    -1_000_000_000_000_000_000 < v < 1_000_000_000_000_000_000
}

/// Unit vector along a displacement in billionths of a billionth, zero where
/// that is shorter than a billionth. From a length of one on, billionths are
/// fine enough.
pub open spec fn aimed_fine(x: int, y: int) -> Point {
    if fine(x) && fine(y) {
        aimed(x, y)
    } else {
        aimed(trunc(x, ONE as int), trunc(y, ONE as int))
    }
}

/// Unit vector along `(dx, dy)`, zero where that has no length.
pub open spec fn unit(dx: int, dy: int) -> Point {
    aimed_fine(dx * ONE, dy * ONE)
}

/// Unit direction from `a` to `b` on screen: x scaled by the aspect ratio.
pub open spec fn heading(a: Point, b: Point, aspect: int) -> Point {
    aimed_fine((b.x - a.x) * aspect, (b.y - a.y) * ONE)
}

/// One long, to within three billionths.
pub open spec fn unit_long(d: Point) -> bool {
    (ONE - 3) * (ONE - 3) <= d.x * d.x + d.y * d.y <= (ONE + 1) * (ONE + 1)
}

/// A quarter turn counter-clockwise.
pub open spec fn left(d: Point) -> Point {
    point(-d.y, d.x as int)
}

/// A quarter turn clockwise: the outward side of a counter-clockwise outline.
pub open spec fn right(d: Point) -> Point {
    point(d.y as int, -d.x)
}

proof fn lemma_component(d: int, e: int, r: int)
    requires
        is_floor_root(d * d + e * e, r),
    ensures
        -r <= d <= r,
{
    let a = if d < 0 {
        -d
    } else {
        d
    };
    if a > r {
        assert((r + 1) * (r + 1) <= d * d) by (nonlinear_arith)
            requires
                a >= r + 1,
                r >= 0,
                a == d || a == -d,
        ;
        assert(e * e >= 0) by (nonlinear_arith);
    }
}

/// A nonzero direction is one long, to within three billionths, and is zero for
/// less than a billion steps.
proof fn lemma_aimed(x: int, y: int)
    ensures
        short(aimed(x, y)),
        x * x + y * y < ONE * ONE ==> aimed(x, y) == point(0, 0),
        x * x + y * y >= ONE * ONE ==> unit_long(aimed(x, y)),
{
    let q = x * x + y * y;
    assert(q >= 0 && y * y + x * x == q) by (nonlinear_arith)
        requires
            q == x * x + y * y,
    ;
    assert(0int * 0int <= q);
    lemma_floor_root_at_least(q, 0);
    let len = floor_root(q);
    lemma_component(x, y, len);
    lemma_component(y, x, len);
    if len >= ONE {
        assert(q >= ONE * ONE) by (nonlinear_arith)
            requires
                q >= len * len,
                len >= 1_000_000_000,
        ;
        lemma_unit_part(x, len);
        lemma_unit_part(y, len);
        lemma_unit_long(x, y, len);
    } else {
        assert(q < ONE * ONE) by (nonlinear_arith)
            requires
                q < (len + 1) * (len + 1),
                0 <= len < 1_000_000_000,
        ;
    }
}

proof fn lemma_unit_long(x: int, y: int, len: int)
    requires
        is_floor_root(x * x + y * y, len),
        len >= ONE,
        -len <= x <= len,
        -len <= y <= len,
    ensures
        unit_long(point(trunc(x * ONE, len), trunc(y * ONE, len))),
{
    let (a, b) = (if x < 0 {
        -x
    } else {
        x
    }, if y < 0 {
        -y
    } else {
        y
    });
    let (u, v) = (a * ONE / len, b * ONE / len);
    vstd::arithmetic::div_mod::lemma_fundamental_div_mod(a * ONE, len);
    vstd::arithmetic::div_mod::lemma_mod_bound(a * ONE, len);
    vstd::arithmetic::div_mod::lemma_fundamental_div_mod(b * ONE, len);
    vstd::arithmetic::div_mod::lemma_mod_bound(b * ONE, len);
    assert(len * u <= a * ONE < len * u + len);
    assert(len * v <= b * ONE < len * v + len);
    assert(0 <= u <= ONE && 0 <= v <= ONE) by (nonlinear_arith)
        requires
            len * u <= a * 1_000_000_000 < len * u + len,
            len * v <= b * 1_000_000_000 < len * v + len,
            0 <= a <= len,
            0 <= b <= len,
            len >= 1,
    ;
    let q = x * x + y * y;
    assert(a * a + b * b == q) by (nonlinear_arith)
        requires
            q == x * x + y * y,
            a == x || a == -x,
            b == y || b == -y,
    ;
    let w = u * u + v * v;
    assert(w <= (ONE + 1) * (ONE + 1)) by {
        let top = (ONE + 1) * len;
        assert((len * u) * (len * u) <= (a * ONE) * (a * ONE)) by (nonlinear_arith)
            requires
                0 <= len * u <= a * ONE,
        ;
        assert((len * v) * (len * v) <= (b * ONE) * (b * ONE)) by (nonlinear_arith)
            requires
                0 <= len * v <= b * ONE,
        ;
        assert((len * len) * w == (len * u) * (len * u) + (len * v) * (len * v))
            by (nonlinear_arith)
            requires
                w == u * u + v * v,
        ;
        assert((a * ONE) * (a * ONE) + (b * ONE) * (b * ONE) == (ONE * ONE) * q)
            by (nonlinear_arith)
            requires
                a * a + b * b == q,
        ;
        assert((ONE * ONE) * q <= top * top) by (nonlinear_arith)
            requires
                0 <= q < (len + 1) * (len + 1),
                len >= 1_000_000_000,
                top == 1_000_000_001 * len,
        ;
        assert(w <= 1_000_000_001 * 1_000_000_001) by (nonlinear_arith)
            requires
                (len * len) * w <= top * top,
                top == 1_000_000_001 * len,
                len >= 1,
        ;
    }
    assert(w >= (ONE - 3) * (ONE - 3)) by {
        let z = (u + 1) * (u + 1) + (v + 1) * (v + 1);
        assert(len * (u + 1) == len * u + len && len * (v + 1) == len * v + len)
            by (nonlinear_arith);
        assert((a * ONE) * (a * ONE) <= (len * (u + 1)) * (len * (u + 1))) by (nonlinear_arith)
            requires
                0 <= a * ONE <= len * (u + 1),
        ;
        assert((b * ONE) * (b * ONE) <= (len * (v + 1)) * (len * (v + 1))) by (nonlinear_arith)
            requires
                0 <= b * ONE <= len * (v + 1),
        ;
        assert((len * len) * z == (len * (u + 1)) * (len * (u + 1)) + (len * (v + 1)) * (len * (v
            + 1))) by (nonlinear_arith)
            requires
                z == (u + 1) * (u + 1) + (v + 1) * (v + 1),
        ;
        assert((a * ONE) * (a * ONE) + (b * ONE) * (b * ONE) == (ONE * ONE) * q)
            by (nonlinear_arith)
            requires
                a * a + b * b == q,
        ;
        assert(z >= ONE * ONE) by (nonlinear_arith)
            requires
                (len * len) * z >= (ONE * ONE) * q,
                q >= len * len,
                len >= 1,
        ;
        assert(z == w + 2 * u + 2 * v + 2) by (nonlinear_arith)
            requires
                z == (u + 1) * (u + 1) + (v + 1) * (v + 1),
                w == u * u + v * v,
        ;
    }
    let d = point(trunc(x * ONE, len), trunc(y * ONE, len));
    assert(d.x * d.x == u * u && d.y * d.y == v * v) by (nonlinear_arith)
        requires
            d.x == u || d.x == -u,
            d.y == v || d.y == -v,
    ;
}

/// A fine displacement keeps its length across the change of scale: it has a
/// direction from a billionth on, and none below.
proof fn lemma_aimed_fine(x: int, y: int)
    ensures
        short(aimed_fine(x, y)),
        x * x + y * y < ONE * ONE ==> aimed_fine(x, y) == point(0, 0),
        x * x + y * y >= ONE * ONE ==> unit_long(aimed_fine(x, y)),
{
    if fine(x) && fine(y) {
        lemma_aimed(x, y);
    } else {
        let (a, b) = (trunc(x, ONE as int), trunc(y, ONE as int));
        lemma_aimed(a, b);
        assert(a * a + b * b >= ONE * ONE) by (nonlinear_arith)
            requires
                a >= 1_000_000_000 || a <= -1_000_000_000 || b >= 1_000_000_000 || b
                    <= -1_000_000_000,
        ;
        assert(x * x + y * y >= ONE * ONE) by (nonlinear_arith)
            requires
                x >= 1_000_000_000 || x <= -1_000_000_000 || y >= 1_000_000_000 || y
                    <= -1_000_000_000,
        ;
    }
}

/// Unit vector along a displacement at any scale.
fn aim(x: i64, y: i64) -> (r: Point)
    requires
        -0x1000_0000_0000_0000 <= x <= 0x1000_0000_0000_0000,
        -0x1000_0000_0000_0000 <= y <= 0x1000_0000_0000_0000,
    ensures
        r == aimed(x as int, y as int),
{
    let ghost q = x * x + y * y;
    proof {
        assert(0 <= x * x <= 0x1000_0000_0000_0000 * 0x1000_0000_0000_0000) by (nonlinear_arith)
            requires
                -0x1000_0000_0000_0000 <= x <= 0x1000_0000_0000_0000,
        ;
        assert(0 <= y * y <= 0x1000_0000_0000_0000 * 0x1000_0000_0000_0000) by (nonlinear_arith)
            requires
                -0x1000_0000_0000_0000 <= y <= 0x1000_0000_0000_0000,
        ;
        assert(0x1000_0000_0000_0000 * 0x1000_0000_0000_0000
            == 0x100_0000_0000_0000_0000_0000_0000_0000) by (nonlinear_arith);
    }
    let wx: i128 = x as i128;
    let wy: i128 = y as i128;
    let len: u64 = square_root((wx * wx + wy * wy) as u128);
    proof {
        lemma_component(x as int, y as int, len as int);
        assert(y * y + x * x == q);
        lemma_component(y as int, x as int, len as int);
        assert(len < 0x7FFF_FFFF_FFFF_FFFF) by {
            if len >= 0x7FFF_FFFF_FFFF_FFFF {
                assert(len * len >= 0x7FFF_FFFF_FFFF_FFFF * 0x7FFF_FFFF_FFFF_FFFF)
                    by (nonlinear_arith)
                    requires
                        len >= 0x7FFF_FFFF_FFFF_FFFF,
                ;
                assert(0x7FFF_FFFF_FFFF_FFFF * 0x7FFF_FFFF_FFFF_FFFF
                    > 0x200_0000_0000_0000_0000_0000_0000_0000) by (nonlinear_arith);
            }
        }
    }
    if len < 1_000_000_000 {
        return Point { x: 0, y: 0 };
    }
    let l: i64 = len as i64;
    proof {
        lemma_unit_part(x as int, l as int);
        lemma_unit_part(y as int, l as int);
    }
    Point { x: mul_div(x, ONE, l), y: mul_div(y, ONE, l) }
}

/// Unit vector along a screen-space displacement.
pub fn unit_of(dx: i64, dy: i64) -> (r: Point)
    requires
        -0x800_0000_0000_0000 <= dx <= 0x800_0000_0000_0000,
        -0x800_0000_0000_0000 <= dy <= 0x800_0000_0000_0000,
    ensures
        r == unit(dx as int, dy as int),
        short(r),
        dx == 0 && dy == 0 <==> r == point(0, 0),
        dx != 0 || dy != 0 ==> unit_long(r),
{
    proof {
        law_unit(dx as int, dy as int);
        assert(trunc(dx * ONE, ONE as int) == dx);
        assert(trunc(dy * ONE, ONE as int) == dy);
    }
    if -ONE < dx && dx < ONE && -ONE < dy && dy < ONE {
        aim(dx * ONE, dy * ONE)
    } else {
        aim(dx, dy)
    }
}

/// Every displacement but zero has a direction, one long.
pub proof fn law_unit(dx: int, dy: int)
    ensures
        short(unit(dx, dy)),
        dx == 0 && dy == 0 <==> unit(dx, dy) == point(0, 0),
        dx != 0 || dy != 0 ==> unit_long(unit(dx, dy)),
{
    let (x, y) = (dx * ONE, dy * ONE);
    lemma_aimed_fine(x, y);
    if dx == 0 && dy == 0 {
        assert(x * x + y * y == 0) by (nonlinear_arith)
            requires
                x == 0,
                y == 0,
        ;
    } else {
        assert(x * x + y * y >= ONE * ONE) by (nonlinear_arith)
            requires
                x >= 1_000_000_000 || x <= -1_000_000_000 || y >= 1_000_000_000 || y
                    <= -1_000_000_000,
        ;
        let none = point(0, 0);
        assert(none.x * none.x + none.y * none.y == 0) by (nonlinear_arith)
            requires
                none.x == 0,
                none.y == 0,
        ;
    }
}

proof fn lemma_unit_part(d: int, l: int)
    requires
        l >= 1,
        -l <= d <= l,
    ensures
        -ONE * l <= d * ONE <= ONE * l,
        -0x7FFF_FFFF_FFFF_FFFF * l <= d * ONE <= 0x7FFF_FFFF_FFFF_FFFF * l,
        -ONE <= trunc(d * ONE, l) <= ONE,
{
    lemma_trunc(d * ONE, l, ONE as int);
}

/// Two points have a direction from one to the other, one long, from a billionth
/// of screen distance on.
pub proof fn law_heading(a: Point, b: Point, aspect: int)
    ensures
        short(heading(a, b, aspect)),
        ({
            let (x, y) = ((b.x - a.x) * aspect, (b.y - a.y) * ONE);
            &&& x * x + y * y < ONE * ONE ==> heading(a, b, aspect) == point(0, 0)
            &&& x * x + y * y >= ONE * ONE ==> unit_long(heading(a, b, aspect))
        }),
{
    lemma_aimed_fine((b.x - a.x) * aspect, (b.y - a.y) * ONE);
}

/// Direction from one point to another on screen.
pub fn heading_of(a: Point, b: Point, aspect: i64) -> (r: Point)
    requires
        near(a),
        near(b),
        1_000_000 <= aspect <= 65_536 * ONE,
    ensures
        r == heading(a, b, aspect as int),
        short(r),
        r == point(0, 0) || unit_long(r),
{
    let w: i64 = b.x - a.x;
    let h: i64 = b.y - a.y;
    proof {
        assert(-4_000 * 65_536 * 1_000_000_000 * 1_000_000_000 <= w * aspect <= 4_000 * 65_536
            * 1_000_000_000 * 1_000_000_000) by (nonlinear_arith)
            requires
                -4_000_000_000_000 <= w <= 4_000_000_000_000,
                0 <= aspect <= 65_536_000_000_000,
        ;
        lemma_trunc(w * aspect, ONE as int, 262_144_000_000_000_000);
        law_heading(a, b, aspect as int);
    }
    let x: i128 = w as i128 * aspect as i128;
    if -1_000_000_000_000_000_000 < x && x < 1_000_000_000_000_000_000 && -ONE < h && h < ONE {
        aim(x as i64, h * ONE)
    } else {
        aim(mul_div(w, aspect, ONE), h)
    }
}

/// A quarter turn counter-clockwise.
pub fn left_of(d: Point) -> (r: Point)
    requires
        short(d),
    ensures
        r == left(d),
        short(r),
{
    Point { x: -d.y, y: d.x }
}

/// A quarter turn clockwise.
pub fn right_of(d: Point) -> (r: Point)
    requires
        short(d),
    ensures
        r == right(d),
        short(r),
{
    Point { x: d.y, y: -d.x }
}

/// The point at signed distance `d` from `p` along `dir`; x is divided by the
/// aspect ratio so the distance is the same on screen in both axes.
pub open spec fn offset_point(p: Point, dir: Point, d: int, aspect: int) -> Point {
    point(p.x + trunc(dir.x * d, aspect), p.y + trunc(dir.y * d, ONE as int))
}

/// Step from a point along a direction.
pub fn step_from(p: Point, dir: Point, d: i64, aspect: i64) -> (r: Point)
    requires
        near(p),
        short(dir),
        -OFFSET_MAX <= d <= OFFSET_MAX,
        1_000_000 <= aspect <= 65_536 * ONE,
    ensures
        r == offset_point(p, dir, d as int, aspect as int),
{
    proof {
        assert(-4_500_000_000_000_000_000_000_000 <= dir.x * d
            <= 4_500_000_000_000_000_000_000_000) by (nonlinear_arith)
            requires
                -1_000_000_000 <= dir.x <= 1_000_000_000,
                -4_500_000_000_000_000 <= d <= 4_500_000_000_000_000,
        ;
        assert(-4_500_000_000_000_000_000_000_000 <= dir.y * d
            <= 4_500_000_000_000_000_000_000_000) by (nonlinear_arith)
            requires
                -1_000_000_000 <= dir.y <= 1_000_000_000,
                -4_500_000_000_000_000 <= d <= 4_500_000_000_000_000,
        ;
        lemma_trunc(dir.y * d, ONE as int, 4_500_000_000_000_000);
        assert(4_500_000_000_000_000_000 * aspect >= 4_500_000_000_000_000_000_000_000)
            by (nonlinear_arith)
            requires
                aspect >= 1_000_000,
        ;
        assert(-4_500_000_000_000_000_000 * aspect <= dir.x * d) by (nonlinear_arith)
            requires
                aspect >= 1_000_000,
                dir.x * d >= -4_500_000_000_000_000_000_000_000,
        ;
        lemma_trunc(dir.x * d, aspect as int, 4_500_000_000_000_000_000);
    }
    Point { x: p.x + mul_div(dir.x, d, aspect), y: p.y + mul_div(dir.y, d, ONE) }
}

// -- joins ------------------------------------------------------------------
/// Normals with the previous valid one carried across zero-length spans, so a
/// repeated point cannot collapse a ribbon. Before the first valid one the
/// normal points straight up.
pub open spec fn carried(normals: Seq<Point>, i: int) -> Point
    decreases i,
{
    if normals[i] != point(0, 0) {
        normals[i]
    } else if i <= 0 {
        point(0, ONE as int)
    } else {
        carried(normals, i - 1)
    }
}

/// Stroke normal of span `i` of a polyline.
pub open spec fn span_normal(pts: Seq<Point>, aspect: int, i: int) -> Point {
    left(heading(pts[i], pts[i + 1], aspect))
}

/// Raw stroke normals of a polyline, zero across repeated points.
pub open spec fn raw_normals(pts: Seq<Point>, aspect: int) -> Seq<Point> {
    Seq::new((pts.len() - 1) as nat, |i: int| span_normal(pts, aspect, i))
}

/// Stroke normals of a polyline, one per span.
pub open spec fn stroke_normals(pts: Seq<Point>, aspect: int) -> Seq<Point> {
    Seq::new((pts.len() - 1) as nat, |i: int| carried(raw_normals(pts, aspect), i))
}

/// Stroke normals of a polyline, one per span.
pub fn normals_of(pts: &[Point], aspect: i64) -> (normals: Vec<Point>)
    requires
        pts@.len() >= 2,
        forall|i: int| 0 <= i < pts@.len() ==> near(#[trigger] pts@[i]),
        1_000_000 <= aspect <= 65_536 * ONE,
    ensures
        normals@ == stroke_normals(pts@, aspect as int),
        forall|i: int| 0 <= i < normals@.len() ==> short(#[trigger] normals@[i]),
{
    let mut normals: Vec<Point> = Vec::with_capacity(pts.len() - 1);
    let mut last_good: Point = Point { x: 0, y: ONE };
    let ghost raw = raw_normals(pts@, aspect as int);
    let spans: usize = pts.len() - 1;
    let mut i: usize = 0;
    while i < spans
        invariant
            spans + 1 == pts@.len(),
            i <= spans,
            normals@.len() == i,
            raw == raw_normals(pts@, aspect as int),
            1_000_000 <= aspect <= 65_536 * ONE,
            forall|j: int| 0 <= j < pts@.len() ==> near(#[trigger] pts@[j]),
            forall|j: int| 0 <= j < i ==> #[trigger] normals@[j] == carried(raw, j),
            forall|j: int| 0 <= j < i ==> short(#[trigger] normals@[j]),
            short(last_good),
            i == 0 ==> last_good == point(0, ONE as int),
            i > 0 ==> last_good == carried(raw, i - 1),
        decreases spans - i,
    {
        let n: Point = left_of(heading_of(pts[i], pts[i + 1], aspect));
        assert(raw[i as int] == n);
        if n.x != 0 || n.y != 0 {
            last_good = n;
        }
        normals.push(last_good);
        i = i + 1;
    }
    assert(normals@ =~= stroke_normals(pts@, aspect as int));
    normals
}

/// Offset direction and length scale where normals `a` and `b` meet.
///
/// The miter length is one over the cosine of half the turn; it is truncated
/// at [`MITER_LIMIT`], and an exact reversal falls back to the incoming normal.
pub open spec fn miter(a: Point, b: Point) -> (Point, int) {
    let mx = a.x + b.x;
    let my = a.y + b.y;
    let len = floor_root(mx * mx + my * my);
    if len < 1000 {
        (a, ONE as int)
    } else {
        let m = unit(mx, my);
        let dot = trunc(m.x * a.x + m.y * a.y, ONE as int);
        let cos_half = clamped(if dot < 0 {
            -dot
        } else {
            dot
        }, 100_000, 0x7FFF_FFFF_FFFF_FFFF);
        let scale = ONE * ONE / cos_half;
        (m, if scale > MITER_LIMIT {
            MITER_LIMIT as int
        } else {
            scale
        })
    }
}

/// Miter join of two unit normals.
pub fn miter_of(a: Point, b: Point) -> (r: (Point, i64))
    requires
        short(a),
        short(b),
    ensures
        (r.0, r.1 as int) == miter(a, b),
        short(r.0),
        0 <= r.1 <= MITER_LIMIT,
{
    let mx: i64 = a.x + b.x;
    let my: i64 = a.y + b.y;
    proof {
        assert(0 <= mx * mx <= 4_000_000_000_000_000_000) by (nonlinear_arith)
            requires
                -2_000_000_000 <= mx <= 2_000_000_000,
        ;
        assert(0 <= my * my <= 4_000_000_000_000_000_000) by (nonlinear_arith)
            requires
                -2_000_000_000 <= my <= 2_000_000_000,
        ;
    }
    let len: u64 = square_root((mx * mx + my * my) as u128);
    if len < 1000 {
        return (a, ONE);
    }
    let m: Point = unit_of(mx, my);
    proof {
        assert(-1_000_000_000_000_000_000 <= m.x * a.x <= 1_000_000_000_000_000_000)
            by (nonlinear_arith)
            requires
                -1_000_000_000 <= m.x <= 1_000_000_000,
                -1_000_000_000 <= a.x <= 1_000_000_000,
        ;
        assert(-1_000_000_000_000_000_000 <= m.y * a.y <= 1_000_000_000_000_000_000)
            by (nonlinear_arith)
            requires
                -1_000_000_000 <= m.y <= 1_000_000_000,
                -1_000_000_000 <= a.y <= 1_000_000_000,
        ;
    }
    let d: i64 = m.x * a.x + m.y * a.y;
    let dot: i64 = mul_div(d, 1, ONE);
    proof {
        lemma_trunc(d as int, ONE as int, 2_000_000_000);
    }
    let size: i64 = if dot < 0 {
        -dot
    } else {
        dot
    };
    let cos_half: i64 = clamp(size, 100_000, 0x7FFF_FFFF_FFFF_FFFF);
    let scale: i64 = 1_000_000_000_000_000_000 / cos_half;
    assert(ONE * ONE == 1_000_000_000_000_000_000);
    assert(0 <= 1_000_000_000_000_000_000int / (cos_half as int)) by (nonlinear_arith)
        requires
            cos_half >= 1,
    ;
    (m, if scale > MITER_LIMIT {
        MITER_LIMIT
    } else {
        scale
    })
}

/// A join never reaches further than the miter limit, whatever the corner.
pub proof fn law_miter_limited(a: Point, b: Point)
    requires
        short(a),
        short(b),
    ensures
        0 <= miter(a, b).1 <= MITER_LIMIT,
{
    let mx = a.x + b.x;
    let my = a.y + b.y;
    if floor_root(mx * mx + my * my) >= 1000 {
        let m = unit(mx, my);
        let dot = trunc(m.x * a.x + m.y * a.y, ONE as int);
        let cos_half = clamped(if dot < 0 {
            -dot
        } else {
            dot
        }, 100_000, 0x7FFF_FFFF_FFFF_FFFF);
        let n = ONE * ONE;
        assert(0 <= n / cos_half) by (nonlinear_arith)
            requires
                n >= 0,
                cos_half >= 1,
        ;
    }
}

/// Offset direction and scale at point `i` of a stroke: the end normals at the
/// ends, a miter in between.
pub open spec fn join(normals: Seq<Point>, i: int) -> (Point, int) {
    if i == 0 {
        (normals[0], ONE as int)
    } else if i == normals.len() {
        (normals[normals.len() - 1], ONE as int)
    } else {
        miter(normals[i - 1], normals[i])
    }
}

proof fn lemma_carried_short(normals: Seq<Point>, i: int)
    requires
        0 <= i < normals.len(),
        forall|j: int| 0 <= j < normals.len() ==> short(#[trigger] normals[j]),
    ensures
        short(carried(normals, i)),
    decreases i,
{
    assert(short(normals[i]));
    if normals[i] == point(0, 0) && i > 0 {
        lemma_carried_short(normals, i - 1);
    }
}

/// Every offset of a stroke is along a direction of at most unit components, and
/// within the miter limit.
pub proof fn lemma_join(pts: Seq<Point>, aspect: int, i: int)
    requires
        pts.len() >= 2,
        0 <= i < pts.len(),
    ensures
        short(join(stroke_normals(pts, aspect), i).0),
        0 <= join(stroke_normals(pts, aspect), i).1 <= MITER_LIMIT,
{
    let raw = raw_normals(pts, aspect);
    let normals = stroke_normals(pts, aspect);
    assert forall|j: int| 0 <= j < raw.len() implies short(#[trigger] raw[j]) by {
        let (a, b) = (pts[j], pts[j + 1]);
        law_heading(a, b, aspect);
    }
    assert forall|j: int| 0 <= j < normals.len() implies short(#[trigger] normals[j]) by {
        lemma_carried_short(raw, j);
    }
    if 0 < i < normals.len() {
        let (a, b) = (normals[i - 1], normals[i]);
        law_miter_limited(a, b);
        law_unit(a.x + b.x, a.y + b.y);
    }
}

/// A step along a short direction changes the height by no more than its length.
pub proof fn lemma_step_height(p: Point, dir: Point, d: int, aspect: int, far: int)
    requires
        near(p),
        short(dir),
        -far <= d <= far,
        0 <= far <= 0x100_0000_0000_0000,
    ensures
        p.y - far <= offset_point(p, dir, d, aspect).y <= p.y + far,
{
    let n = dir.y * d;
    assert(-far * 1_000_000_000 <= n <= far * 1_000_000_000) by (nonlinear_arith)
        requires
            n == dir.y * d,
            -1_000_000_000 <= dir.y <= 1_000_000_000,
            -far <= d <= far,
    ;
    lemma_trunc(n, ONE as int, far);
}

/// Join at point `i` of a stroke.
pub fn join_at(normals: &Vec<Point>, i: usize) -> (r: (Point, i64))
    requires
        normals@.len() >= 1,
        i <= normals@.len(),
        forall|j: int| 0 <= j < normals@.len() ==> short(#[trigger] normals@[j]),
    ensures
        (r.0, r.1 as int) == join(normals@, i as int),
        short(r.0),
        0 <= r.1 <= MITER_LIMIT,
{
    if i == 0 {
        (normals[0], ONE)
    } else if i == normals.len() {
        (normals[normals.len() - 1], ONE)
    } else {
        miter_of(normals[i - 1], normals[i])
    }
}

/// A pixel is the share of one in the height of the screen, which is two units.
pub proof fn law_pixel(height: int)
    requires
        height >= 1,
    ensures
        pixel(height) * height <= 2_000_000_000 < pixel(height) * height + height,
{
    let n = 2_000_000_000int;
    vstd::arithmetic::div_mod::lemma_fundamental_div_mod(n, height);
    vstd::arithmetic::div_mod::lemma_mod_bound(n, height);
    assert(height * (n / height) == (n / height) * height) by (nonlinear_arith);
}

/// A length in units is half the height of the screen in pixels for each unit.
pub proof fn law_pixels(units: int, height: int)
    ensures
        -2 < units * height - 2 * pixels(units, height) < 2,
        units * height >= 0 ==> pixels(units, height) >= 0,
        units * height <= 0 ==> pixels(units, height) <= 0,
{
}

/// The aspect ratio is the width over the height.
pub proof fn law_aspect(width: int, height: int)
    requires
        1 <= width <= 65_536,
        1 <= height <= 65_536,
    ensures
        width >= height / 1000 + 1 ==> aspect_of(width, height) * height <= width * 1_000_000_000
            < aspect_of(width, height) * height + height,
{
    let n = width * 1_000_000_000;
    vstd::arithmetic::div_mod::lemma_fundamental_div_mod(n, height);
    vstd::arithmetic::div_mod::lemma_mod_bound(n, height);
    assert(height * (n / height) == (n / height) * height) by (nonlinear_arith);
    if width >= height / 1000 + 1 {
        assert(n / height >= 1_000_000) by (nonlinear_arith)
            requires
                height * (n / height) + height > n,
                n == width * 1_000_000_000,
                1000 * width > height,
                height >= 1,
        ;
    }
}

/// A color is premultiplied by its own alpha, channel by channel: at full alpha it
/// stays as it is, and at none it is nothing. An additive one adds the same light
/// and covers nothing.
pub proof fn law_encoded(c: [i64; 4], additive: bool, k: int)
    requires
        in_gamut(c@),
        0 <= k < 3,
    ensures
        ({
            let e = encoded(c, additive);
            &&& 0 <= c[k] * c[3] - 1_000_000_000 * e[k] < 1_000_000_000
            &&& c[3] == 1_000_000_000 ==> e[k] == c[k]
            &&& c[3] == 0 ==> e[k] == 0
            &&& additive ==> e[3] == 0
            &&& !additive ==> e[3] == c[3]
        }),
{
    assert(0 <= c@[k] <= ONE && 0 <= c@[3] <= ONE);
    let (a, b) = (c[k] as int, c[3] as int);
    assert(0 <= a * b <= 1_000_000_000 * 1_000_000_000) by (nonlinear_arith)
        requires
            0 <= a <= 1_000_000_000,
            0 <= b <= 1_000_000_000,
    ;
    if b == 1_000_000_000 {
        assert(a * b == a * 1_000_000_000);
    }
    if b == 0 {
        assert(a * b == 0) by (nonlinear_arith)
            requires
                b == 0,
        ;
    }
}

/// Fading scales the alpha alone, and keeps the color.
pub proof fn law_faded(c: [i64; 4], by: int, k: int)
    requires
        in_gamut(c@),
        0 <= by <= 1_000_000_000,
        0 <= k < 3,
    ensures
        faded(c, by)[k] == c[k],
        0 <= c[3] * by - 1_000_000_000 * faded(c, by)[3] < 1_000_000_000,
        by == 1_000_000_000 ==> faded(c, by) == c,
{
    assert(0 <= c@[3] <= ONE);
    let a = c[3] as int;
    assert(0 <= a * by <= 1_000_000_000 * 1_000_000_000) by (nonlinear_arith)
        requires
            0 <= a <= 1_000_000_000,
            0 <= by <= 1_000_000_000,
    ;
    if by == 1_000_000_000 {
        assert(a * by == a * 1_000_000_000);
        assert(faded(c, by)@ =~= c@);
    }
}

/// A stroke below a pixel and a quarter is drawn that wide and as much fainter; any
/// other as wide as it is, in full.
pub proof fn law_thin_strokes(width: int)
    requires
        width > 0,
    ensures
        width >= 1_250_000_000 ==> resolved(width) == (width, 1_000_000_000int),
        width < 1_250_000_000 ==> resolved(width).0 == 1_250_000_000 && 0 <= width * 1_000_000_000
            - 1_250_000_000 * resolved(width).1 < 1_250_000_000,
{
}

/// Size of a coordinate.
pub open spec fn span(v: int) -> int {
    if v < 0 {
        -v
    } else {
        v
    }
}

proof fn lemma_aimed_along(x: int, y: int)
    ensures
        ({
            let d = aimed(x, y);
            &&& x >= 0 ==> d.x >= 0
            &&& x <= 0 ==> d.x <= 0
            &&& y >= 0 ==> d.y >= 0
            &&& y <= 0 ==> d.y <= 0
            &&& -(span(x) + span(y)) <= d.x * y - d.y * x <= span(x) + span(y)
        }),
{
    let q = x * x + y * y;
    assert(q >= 0 && y * y + x * x == q) by (nonlinear_arith)
        requires
            q == x * x + y * y,
    ;
    assert(0int * 0int <= q);
    lemma_floor_root_at_least(q, 0);
    let len = floor_root(q);
    lemma_component(x, y, len);
    lemma_component(y, x, len);
    if len >= ONE {
        lemma_unit_part(x, len);
        lemma_unit_part(y, len);
        let (u, v) = (trunc(x * ONE, len), trunc(y * ONE, len));
        lemma_part_error(x, len);
        lemma_part_error(y, len);
        let (e, f) = (len * u - x * ONE, len * v - y * ONE);
        let cross = u * y - v * x;
        assert(len * cross == e * y - f * x) by (nonlinear_arith)
            requires
                e == len * u - x * ONE,
                f == len * v - y * ONE,
                cross == u * y - v * x,
        ;
        let (g, h) = (len * span(y), len * span(x));
        assert(-g <= e * y <= g) by (nonlinear_arith)
            requires
                g == len * span(y),
                -len <= e <= len,
                span(y) == y || span(y) == -y,
                span(y) >= 0,
        ;
        assert(-h <= f * x <= h) by (nonlinear_arith)
            requires
                h == len * span(x),
                -len <= f <= len,
                span(x) == x || span(x) == -x,
                span(x) >= 0,
        ;
        let s = span(x) + span(y);
        assert(-s <= cross <= s) by (nonlinear_arith)
            requires
                -(g + h) <= len * cross <= g + h,
                g == len * span(y),
                h == len * span(x),
                s == span(x) + span(y),
                len >= 1,
        ;
        assert(aimed(x, y).x == u && aimed(x, y).y == v);
    } else {
        let d = aimed(x, y);
        assert(d.x * y - d.y * x == 0) by (nonlinear_arith)
            requires
                d.x == 0,
                d.y == 0,
        ;
    }
}

proof fn lemma_part_error(d: int, l: int)
    requires
        l >= 1,
        -l <= d <= l,
    ensures
        -l < l * trunc(d * ONE, l) - d * ONE < l,
        d >= 0 ==> trunc(d * ONE, l) >= 0,
        d <= 0 ==> trunc(d * ONE, l) <= 0,
{
    let n = if d < 0 {
        -d * ONE
    } else {
        d * ONE
    };
    vstd::arithmetic::div_mod::lemma_fundamental_div_mod(n, l);
    vstd::arithmetic::div_mod::lemma_mod_bound(n, l);
    let q = n / l;
    assert(q >= 0) by (nonlinear_arith)
        requires
            l * q + l > n,
            n >= 0,
            l >= 1,
    ;
    assert(l * (-q) == -(l * q)) by (nonlinear_arith);
}

/// A unit vector points along its displacement: the same way in both coordinates,
/// and in their proportion.
pub proof fn law_unit_along(dx: int, dy: int)
    ensures
        ({
            let d = unit(dx, dy);
            &&& dx >= 0 ==> d.x >= 0
            &&& dx <= 0 ==> d.x <= 0
            &&& dy >= 0 ==> d.y >= 0
            &&& dy <= 0 ==> d.y <= 0
            &&& -(span(dx) + span(dy)) <= d.x * dy - d.y * dx <= span(dx) + span(dy)
        }),
{
    let (x, y) = (dx * ONE, dy * ONE);
    let d = unit(dx, dy);
    assert(trunc(x, ONE as int) == dx && trunc(y, ONE as int) == dy);
    if fine(x) && fine(y) {
        lemma_aimed_along(x, y);
        let c = d.x * dy - d.y * dx;
        assert(d.x * y - d.y * x == c * 1_000_000_000) by (nonlinear_arith)
            requires
                c == d.x * dy - d.y * dx,
                x == dx * 1_000_000_000,
                y == dy * 1_000_000_000,
        ;
    } else {
        lemma_aimed_along(dx, dy);
    }
}

/// A heading points from the one point to the other as they lie on screen, where `x`
/// is wider by the aspect ratio.
pub proof fn law_heading_along(a: Point, b: Point, aspect: int)
    ensures
        ({
            let d = heading(a, b, aspect);
            let (x, y) = ((b.x - a.x) * aspect, (b.y - a.y) * 1_000_000_000);
            &&& x >= 0 ==> d.x >= 0
            &&& x <= 0 ==> d.x <= 0
            &&& y >= 0 ==> d.y >= 0
            &&& y <= 0 ==> d.y <= 0
            &&& -(span(x) + span(y) + 1_000_000_000_000_000_000) <= d.x * y - d.y * x <= span(x)
                + span(y) + 1_000_000_000_000_000_000
        }),
{
    let (x, y) = ((b.x - a.x) * aspect, (b.y - a.y) * 1_000_000_000);
    let d = heading(a, b, aspect);
    if fine(x) && fine(y) {
        lemma_aimed_along(x, y);
    } else {
        let (p, q) = (trunc(x, ONE as int), trunc(y, ONE as int));
        lemma_aimed_along(p, q);
        lemma_aimed(p, q);
        let r = x - p * 1_000_000_000;
        assert(q == b.y - a.y);
        let c = d.x * q - d.y * p;
        assert(d.x * y - d.y * x == c * 1_000_000_000 - d.y * r) by (nonlinear_arith)
            requires
                c == d.x * q - d.y * p,
                y == q * 1_000_000_000,
                x == p * 1_000_000_000 + r,
        ;
        assert(-1_000_000_000 < r < 1_000_000_000);
        assert(-1_000_000_000_000_000_000 <= d.y * r <= 1_000_000_000_000_000_000)
            by (nonlinear_arith)
            requires
                -1_000_000_000 <= d.y <= 1_000_000_000,
                -1_000_000_000 <= r <= 1_000_000_000,
        ;
    }
}

/// The left of a direction is a quarter turn counter-clockwise from it, and the right
/// one clockwise.
pub proof fn law_quarter_turns(d: Point)
    requires
        short(d),
    ensures
        left(d).x * d.x + left(d).y * d.y == 0,
        d.x * left(d).y - d.y * left(d).x == d.x * d.x + d.y * d.y,
        right(d).x == -left(d).x,
        right(d).y == -left(d).y,
{
    let l = left(d);
    assert(l.x * d.x + l.y * d.y == 0 && d.x * l.y - d.y * l.x == d.x * d.x + d.y * d.y)
        by (nonlinear_arith)
        requires
            l.x == -d.y,
            l.y == d.x,
    ;
}

/// The normal of a span is the left of its heading; a span without length takes the
/// one before it, and straight up where there is none.
pub proof fn law_normals(pts: Seq<Point>, aspect: int, i: int)
    requires
        0 <= i < pts.len() - 1,
    ensures
        ({
            let n = stroke_normals(pts, aspect);
            let d = heading(pts[i], pts[i + 1], aspect);
            &&& n.len() == pts.len() - 1
            &&& d != point(0, 0) ==> n[i] == left(d)
            &&& d == point(0, 0) && i > 0 ==> n[i] == n[i - 1]
            &&& d == point(0, 0) && i == 0 ==> n[i] == point(0, 1_000_000_000)
        }),
{
    let d = heading(pts[i], pts[i + 1], aspect);
    law_heading(pts[i], pts[i + 1], aspect);
    let raw = raw_normals(pts, aspect);
    assert(raw[i] == left(d));
    assert(d != point(0, 0) ==> raw[i] != point(0, 0)) by {
        if d.x != 0 {
            assert(left(d).y != 0);
        }
        if d.y != 0 {
            assert(left(d).x != 0);
        }
    }
}

/// A miter points half-way between the two normals, and is as long as it takes to
/// keep the stroke's width around the corner: one over the cosine of half the turn,
/// up to four. An exact reversal keeps the incoming normal.
pub proof fn law_miter(a: Point, b: Point)
    requires
        short(a),
        short(b),
    ensures
        ({
            let (m, scale) = miter(a, b);
            let (x, y) = (a.x + b.x, a.y + b.y);
            let dot = trunc(m.x * a.x + m.y * a.y, 1_000_000_000);
            let cos = if span(dot) < 100_000 {
                100_000
            } else {
                span(dot)
            };
            &&& x * x + y * y < 1_000_000 ==> m == a && scale == 1_000_000_000
            &&& x * x + y * y >= 1_000_000 ==> m == unit(x, y) && scale <= 4_000_000_000 && scale
                * cos <= 1_000_000_000_000_000_000
            &&& x * x + y * y >= 1_000_000 && scale < 4_000_000_000 ==> (scale + 1) * cos
                > 1_000_000_000_000_000_000
        }),
{
    let (x, y) = (a.x + b.x, a.y + b.y);
    let q = x * x + y * y;
    assert(q >= 0) by (nonlinear_arith)
        requires
            q == x * x + y * y,
    ;
    assert(0int * 0int <= q);
    lemma_floor_root_at_least(q, 0);
    let len = floor_root(q);
    if len < 1000 {
        assert(q < 1_000_000) by (nonlinear_arith)
            requires
                q < (len + 1) * (len + 1),
                0 <= len < 1000,
        ;
    } else {
        assert(q >= 1_000_000) by (nonlinear_arith)
            requires
                q >= len * len,
                len >= 1000,
        ;
        let m = unit(x, y);
        law_unit(x, y);
        let d = m.x * a.x + m.y * a.y;
        assert(-2_000_000_000_000_000_000 <= d <= 2_000_000_000_000_000_000) by (nonlinear_arith)
            requires
                d == m.x * a.x + m.y * a.y,
                -1_000_000_000 <= m.x <= 1_000_000_000,
                -1_000_000_000 <= m.y <= 1_000_000_000,
                -1_000_000_000 <= a.x <= 1_000_000_000,
                -1_000_000_000 <= a.y <= 1_000_000_000,
        ;
        let dot = trunc(d, 1_000_000_000);
        let cos = if span(dot) < 100_000 {
            100_000
        } else {
            span(dot)
        };
        let n = 1_000_000_000_000_000_000int;
        vstd::arithmetic::div_mod::lemma_fundamental_div_mod(n, cos);
        vstd::arithmetic::div_mod::lemma_mod_bound(n, cos);
        let s = n / cos;
        assert(cos * s == s * cos && (s + 1) * cos == s * cos + cos) by (nonlinear_arith);
        assert(ONE * ONE == n);
        if s > 4_000_000_000 {
            assert(4_000_000_000 * cos <= s * cos) by (nonlinear_arith)
                requires
                    s >= 4_000_000_000,
                    cos >= 0,
            ;
        }
    }
}

/// A stroke is offset along its own normal at its two ends, and along the miter of
/// the two normals that meet at every point between.
pub proof fn law_joins(normals: Seq<Point>, i: int)
    requires
        normals.len() >= 1,
        0 <= i <= normals.len(),
    ensures
        i == 0 ==> join(normals, i) == (normals[0], 1_000_000_000int),
        i == normals.len() && i > 0 ==> join(normals, i) == (normals.last(), 1_000_000_000int),
        0 < i < normals.len() ==> join(normals, i) == miter(normals[i - 1], normals[i]),
{
}

/// A step goes as far as it says along its direction on screen: in `y` by its share
/// of the distance, and in `x` by its share divided by the aspect ratio.
pub proof fn law_step(p: Point, dir: Point, d: int, aspect: int)
    requires
        near(p),
        short(dir),
        -OFFSET_MAX <= d <= OFFSET_MAX,
        1_000_000 <= aspect <= 65_536 * ONE,
    ensures
        ({
            let q = offset_point(p, dir, d, aspect);
            &&& -1_000_000_000 < 1_000_000_000 * (q.y - p.y) - dir.y * d < 1_000_000_000
            &&& -aspect < aspect * (q.x - p.x) - dir.x * d < aspect
        }),
{
    let (u, v) = (dir.x * d, dir.y * d);
    assert(-4_500_000_000_000_000_000_000_000 <= u <= 4_500_000_000_000_000_000_000_000
        && -4_500_000_000_000_000_000_000_000 <= v <= 4_500_000_000_000_000_000_000_000)
        by (nonlinear_arith)
        requires
            u == dir.x * d,
            v == dir.y * d,
            -1_000_000_000 <= dir.x <= 1_000_000_000,
            -1_000_000_000 <= dir.y <= 1_000_000_000,
            -4_500_000_000_000_000 <= d <= 4_500_000_000_000_000,
    ;
    let n = span(u);
    let q = n / aspect;
    vstd::arithmetic::div_mod::lemma_fundamental_div_mod(n, aspect);
    vstd::arithmetic::div_mod::lemma_mod_bound(n, aspect);
    assert(0 <= q <= 4_500_000_000_000_000_000) by (nonlinear_arith)
        requires
            aspect * q <= n,
            aspect * q + aspect > n,
            0 <= n <= 4_500_000_000_000_000_000_000_000,
            aspect >= 1_000_000,
    ;
    assert(aspect * (-q) == -(aspect * q)) by (nonlinear_arith);
    assert(trunc(u, aspect) == q || trunc(u, aspect) == -q);
}

} // verus!
