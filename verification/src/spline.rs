//! Monotone cubic resampling of a polyline.
//!
//! A spectrum curve drawn with an unconstrained cubic dips below the baseline
//! between a tall band and a silent one. The Fritsch–Carlson construction limits
//! the tangents so the curve stays monotone on every span, and therefore never
//! leaves the interval its two end points span. Both facts are proved below.

use crate::number::{wide_div, ONE};
use vstd::prelude::*;

verus! {

/// A point in normalized device coordinates, in fixed point.
#[derive(Clone, Copy, PartialEq, Eq, Structural, Debug)]
pub struct Point {
    pub x: i64,
    pub y: i64,
}

/// Largest number of subdivisions per span.
pub const SUBDIV_MAX: usize = 0x4000_0000;

/// Points the spline accepts: any, with `x` non-decreasing.
pub open spec fn drawable(pts: Seq<Point>) -> bool {
    forall|i: int, j: int| 0 <= i <= j < pts.len() ==> pts[i].x <= pts[j].x
}

/// Absolute value.
pub open spec fn size(v: int) -> int {
    if v < 0 {
        -v
    } else {
        v
    }
}

/// `v * num / den`, rounded toward zero.
pub open spec fn scaled(v: int, num: int, den: int) -> int {
    if v < 0 {
        -((-v) * num / den)
    } else {
        v * num / den
    }
}

/// Secant slope from `a` to `b`, zero across a vertical step.
pub open spec fn slope(a: Point, b: Point) -> int {
    if b.x - a.x > 1 {
        scaled(b.y - a.y, ONE as int, b.x - a.x)
    } else {
        0
    }
}

/// Slope of span `i`.
pub open spec fn span_slope(pts: Seq<Point>, i: int) -> int {
    slope(pts[i], pts[i + 1])
}

/// Both rising or both falling.
pub open spec fn same_way(a: int, b: int) -> bool {
    (a > 0 && b > 0) || (a < 0 && b < 0)
}

/// Tangent at point `i` before limiting: the average of the neighbouring
/// secants, zero at a local extremum, and the only secant at an end.
pub open spec fn first_tangent(pts: Seq<Point>, i: int) -> int {
    if i == 0 {
        span_slope(pts, 0)
    } else if i == pts.len() - 1 {
        span_slope(pts, pts.len() - 2)
    } else if same_way(span_slope(pts, i - 1), span_slope(pts, i)) {
        scaled(span_slope(pts, i - 1) + span_slope(pts, i), 1, 2)
    } else {
        0
    }
}

/// `r` is the square root of `q`, rounded up.
pub open spec fn is_root(q: int, r: int) -> bool {
    r >= 1 && (r - 1) * (r - 1) < q <= r * r
}

/// The square root of a positive `q`, rounded up.
pub open spec fn root(q: int) -> int {
    choose|r: int| is_root(q, r)
}

/// Tangents whose squares are added up directly are below this.
pub const SHORT: i128 = 0x4000_0000_0000_0000;

/// Length of a tangent pair, rounded up; that of a long pair is twice the length
/// of its halves, themselves rounded up.
pub open spec fn length(a: int, b: int) -> int
    decreases size(a) + size(b),
{
    if size(a) < SHORT && size(b) < SHORT {
        root(a * a + b * b)
    } else {
        2 * length(size(a) / 2 + 1, size(b) / 2 + 1)
    }
}

/// A tangent pair inside the circle of radius 3 around slope `s`.
pub open spec fn inside(s: int, a: int, b: int) -> bool {
    a * a + b * b <= 9 * (s * s)
}

/// The tangent pair of a span of slope `s`, pulled back onto the circle of
/// radius 3 when it lies outside it. Outside it the cubic is not monotone.
pub open spec fn limited_pair(s: int, a: int, b: int) -> (int, int) {
    if s == 0 {
        (0, 0)
    } else if inside(s, a, b) {
        (a, b)
    } else {
        let r = length(a, b);
        (scaled(a, 3 * size(s), r), scaled(b, 3 * size(s), r))
    }
}

/// Tangents at every point after the first `i` spans have been limited.
pub open spec fn limited(pts: Seq<Point>, i: nat) -> Seq<int>
    decreases i,
{
    if i == 0 {
        Seq::new(pts.len(), |j: int| first_tangent(pts, j))
    } else {
        let m = limited(pts, (i - 1) as nat);
        let pair = limited_pair(span_slope(pts, i - 1), m[i - 1], m[i as int]);
        m.update(i - 1, pair.0).update(i as int, pair.1)
    }
}

/// The final tangents.
pub open spec fn tangents(pts: Seq<Point>) -> Seq<int> {
    limited(pts, (pts.len() - 1) as nat)
}

/// Rise of the cubic Hermite span after `k` of `n` steps, scaled by `n^3`:
/// total rise `d`, end tangents `a` and `b` already multiplied by the width.
pub open spec fn rise(d: int, a: int, b: int, k: int, n: int) -> int {
    d * (3 * (k * k * n) - 2 * (k * k * k)) + a * (k * (n - k) * (n - k)) - b * (k * k * (n - k))
}

/// `x` of point `k` of `n` between `p` and `q`.
pub open spec fn span_x(p: Point, q: Point, k: int, n: int) -> int {
    p.x + (q.x - p.x) * k / n
}

/// Tangent `m` over a span of width `w`, as a rise.
pub open spec fn reach(m: int, w: int) -> int {
    size(m) * w / (ONE as int)
}

/// `y` of point `k` of `n` between `p` and `q` with tangents `a` and `b`.
pub open spec fn span_y(p: Point, q: Point, a: int, b: int, k: int, n: int) -> int {
    let w = q.x - p.x;
    let f = rise(size(q.y - p.y), reach(a, w), reach(b, w), k, n) / (n * n * n);
    if q.y < p.y {
        p.y - f
    } else {
        p.y + f
    }
}

/// Output points per span.
pub open spec fn steps(subdiv: usize) -> int {
    if subdiv == 0 {
        1
    } else {
        subdiv as int
    }
}

/// `out` is the resampling of `pts` with `n` points per span.
pub open spec fn resampled(pts: Seq<Point>, n: int, out: Seq<Point>) -> bool {
    &&& out.len() == (pts.len() - 1) * n + 1
    &&& forall|i: int, k: int|
        0 <= i < pts.len() - 1 && 0 <= k < n ==> {
            let p = #[trigger] out[i * n + k];
            &&& p.x == span_x(pts[i], pts[i + 1], k, n)
            &&& p.y == span_y(pts[i], pts[i + 1], tangents(pts)[i], tangents(pts)[i + 1], k, n)
        }
    &&& out.last() == pts.last()
}

// -- arithmetic ---------------------------------------------------------------
proof fn lemma_root_unique(q: int, r: int)
    requires
        is_root(q, r),
    ensures
        root(q) == r,
{
    let s = root(q);
    assert(is_root(q, s));
    if s < r {
        assert(s * s <= (r - 1) * (r - 1)) by (nonlinear_arith)
            requires
                1 <= s <= r - 1,
        ;
    }
    if r < s {
        assert(r * r <= (s - 1) * (s - 1)) by (nonlinear_arith)
            requires
                1 <= r <= s - 1,
        ;
    }
}

proof fn lemma_square_mono(a: int, b: int)
    requires
        size(a) <= size(b),
    ensures
        a * a <= b * b,
        a * a >= 0,
{
    assert(a * a == size(a) * size(a)) by (nonlinear_arith)
        requires
            size(a) == a || size(a) == -a,
    ;
    assert(b * b == size(b) * size(b)) by (nonlinear_arith)
        requires
            size(b) == b || size(b) == -b,
    ;
    assert(size(a) * size(a) <= size(b) * size(b)) by (nonlinear_arith)
        requires
            0 <= size(a) <= size(b),
    ;
}

/// Square root, rounded up.
fn root_up(q: u128) -> (r: u64)
    requires
        1 <= q <= 0x4000_0000_0000_0000_0000_0000_0000_0000,
    ensures
        is_root(q as int, r as int),
        r == root(q as int),
{
    let mut lo: u64 = 0;
    let mut hi: u64 = 0x8000_0000_0000_0000;
    assert(0x8000_0000_0000_0000 * 0x8000_0000_0000_0000
        == 0x4000_0000_0000_0000_0000_0000_0000_0000) by (nonlinear_arith);
    while lo + 1 < hi
        invariant
            lo < hi <= 0x8000_0000_0000_0000,
            lo * lo < q <= hi * hi,
        decreases hi - lo,
    {
        let mid: u64 = lo + (hi - lo) / 2;
        assert(0 <= mid * mid <= 0x8000_0000_0000_0000 * 0x8000_0000_0000_0000)
            by (nonlinear_arith)
            requires
                0 <= mid <= 0x8000_0000_0000_0000,
        ;
        if (mid as u128) * (mid as u128) < q {
            lo = mid;
        } else {
            hi = mid;
        }
    }
    assert(hi - 1 == lo);
    proof {
        lemma_root_unique(q as int, hi as int);
    }
    hi
}

/// Largest slope between two points.
pub const SLOPE_MAX: i128 = 9_223_372_036_854_775_808_000_000_000;

proof fn lemma_slope_bound(a: Point, b: Point)
    ensures
        size(slope(a, b)) <= SLOPE_MAX,
        slope(a, b) > 0 ==> b.y > a.y,
        slope(a, b) < 0 ==> b.y < a.y,
        b.x > a.x + 1 ==> size(slope(a, b)) * (b.x - a.x) <= size(b.y - a.y) * ONE,
{
    let d = size(b.y - a.y);
    let w = b.x - a.x;
    if w > 1 {
        let n = d * ONE;
        assert(n / w <= 9_223_372_036_854_775_808_000_000_000) by (nonlinear_arith)
            requires
                0 <= n <= 18_446_744_073_709_551_616_000_000_000,
                w >= 2,
        ;
        assert(0 <= n / w && n / w * w <= n) by (nonlinear_arith)
            requires
                0 <= n,
                w >= 2,
        ;
        if d == 0 {
            assert(n / w == 0) by (nonlinear_arith)
                requires
                    n == 0,
                    w >= 2,
            ;
        }
    }
}

/// A tangent that points the way its span does, or not at all.
pub open spec fn agrees(m: int, s: int) -> bool {
    m == 0 || same_way(m, s)
}

proof fn lemma_scaled(a: int, num: int, den: int)
    requires
        0 <= num <= den,
        den > 0,
    ensures
        size(scaled(a, num, den)) <= size(a),
        scaled(a, num, den) == 0 || same_way(scaled(a, num, den), a),
        size(scaled(a, num, den)) * den <= size(a) * num,
        size(scaled(a, num, den)) == size(a) * num / den,
{
    let m = size(a);
    assert(0 <= m * num / den <= m && m * num / den * den <= m * num) by (nonlinear_arith)
        requires
            0 <= m,
            0 <= num <= den,
            den > 0,
    ;
}

proof fn lemma_square_size(a: int)
    ensures
        a * a == size(a) * size(a),
        a * a >= 0,
{
    lemma_square_mono(a, a);
    assert(a * a == size(a) * size(a)) by (nonlinear_arith)
        requires
            size(a) == a || size(a) == -a,
    ;
}

/// Limiting a pair never lengthens a tangent or turns it round, and leaves the
/// pair inside the circle.
proof fn lemma_limited_pair(s: int, a: int, b: int)
    requires
        size(s) <= SLOPE_MAX,
        size(a) <= SLOPE_MAX,
        size(b) <= SLOPE_MAX,
        agrees(a, s),
        agrees(b, s),
    ensures
        ({
            let pair = limited_pair(s, a, b);
            &&& inside(s, pair.0, pair.1)
            &&& size(pair.0) <= size(a)
            &&& size(pair.1) <= size(b)
            &&& pair.0 == 0 || same_way(pair.0, a)
            &&& pair.1 == 0 || same_way(pair.1, b)
        }),
{
    lemma_square_size(a);
    lemma_square_size(b);
    lemma_square_size(s);
    if s != 0 && !inside(s, a, b) {
        let q = a * a + b * b;
        let r = length(a, b);
        let c = 3 * size(s);
        assert(q >= 1) by (nonlinear_arith)
            requires
                q > 9 * (s * s),
                s * s >= 0,
        ;
        lemma_length(a, b);
        assert(9 * (s * s) == c * c) by (nonlinear_arith)
            requires
                s * s == size(s) * size(s),
                c == 3 * size(s),
        ;
        assert(c <= r) by (nonlinear_arith)
            requires
                c * c < q <= r * r,
                r >= 1,
                c >= 0,
        ;
        lemma_scaled(a, c, r);
        lemma_scaled(b, c, r);
        let x = scaled(a, c, r);
        let y = scaled(b, c, r);
        lemma_square_size(x);
        lemma_square_size(y);
        lemma_circle(size(x), size(y), size(a), size(b), c, r);
    }
}

/// `x * r <= a * c` and `y * r <= b * c` with `a^2 + b^2 <= r^2` give
/// `x^2 + y^2 <= c^2`.
proof fn lemma_circle(x: int, y: int, a: int, b: int, c: int, r: int)
    requires
        0 <= x,
        0 <= y,
        0 <= a,
        0 <= b,
        0 <= c,
        0 < r,
        x * r <= a * c,
        y * r <= b * c,
        a * a + b * b <= r * r,
    ensures
        x * x + y * y <= c * c,
{
    assert((x * r) * (x * r) <= (a * c) * (a * c)) by (nonlinear_arith)
        requires
            0 <= x * r <= a * c,
    ;
    assert((y * r) * (y * r) <= (b * c) * (b * c)) by (nonlinear_arith)
        requires
            0 <= y * r <= b * c,
    ;
    assert((x * x + y * y) * (r * r) == (x * r) * (x * r) + (y * r) * (y * r)) by (nonlinear_arith);
    assert((a * c) * (a * c) + (b * c) * (b * c) == (a * a + b * b) * (c * c)) by (nonlinear_arith);
    assert((a * a + b * b) * (c * c) <= (r * r) * (c * c)) by (nonlinear_arith)
        requires
            a * a + b * b <= r * r,
    ;
    let left = x * x + y * y;
    let right = c * c;
    let sq = r * r;
    assert(sq > 0) by (nonlinear_arith)
        requires
            sq == r * r,
            r > 0,
    ;
    assert(left * sq <= right * sq) by (nonlinear_arith)
        requires
            left * sq <= sq * right,
    ;
    assert(left <= right) by (nonlinear_arith)
        requires
            left * sq <= right * sq,
            sq > 0,
    ;
}

proof fn lemma_root_exists(q: int)
    requires
        q >= 1,
    ensures
        is_root(q, root(q)),
{
    assert(q <= q * q) by (nonlinear_arith)
        requires
            q >= 1,
    ;
    lemma_root_search(q, q);
}

proof fn lemma_root_search(q: int, hi: int)
    requires
        1 <= hi,
        1 <= q <= hi * hi,
    ensures
        is_root(q, root(q)),
    decreases hi,
{
    if (hi - 1) * (hi - 1) < q {
        assert(is_root(q, hi));
        lemma_root_unique(q, hi);
    } else {
        lemma_root_search(q, hi - 1);
    }
}

/// No pair is longer than its length.
proof fn lemma_length(a: int, b: int)
    requires
        a * a + b * b >= 1,
    ensures
        a * a + b * b <= length(a, b) * length(a, b),
        length(a, b) >= 1,
    decreases size(a) + size(b),
{
    if size(a) < SHORT && size(b) < SHORT {
        lemma_root_exists(a * a + b * b);
    } else {
        let x = size(a) / 2 + 1;
        let y = size(b) / 2 + 1;
        lemma_square_size(a);
        lemma_square_size(b);
        assert(x * x >= 1 && y * y >= 1) by (nonlinear_arith)
            requires
                x >= 1,
                y >= 1,
        ;
        lemma_length(x, y);
        let r = length(x, y);
        assert(size(a) * size(a) <= 4 * (x * x)) by (nonlinear_arith)
            requires
                0 <= size(a) <= 2 * x,
        ;
        assert(size(b) * size(b) <= 4 * (y * y)) by (nonlinear_arith)
            requires
                0 <= size(b) <= 2 * y,
        ;
        assert((2 * r) * (2 * r) == 4 * (r * r)) by (nonlinear_arith);
    }
}

/// What the tangents satisfy after the first `i` spans have been limited.
pub open spec fn tamed(pts: Seq<Point>, m: Seq<int>, i: int) -> bool {
    &&& m.len() == pts.len()
    &&& forall|j: int| 0 <= j < m.len() ==> size(#[trigger] m[j]) <= SLOPE_MAX
    &&& forall|j: int|
        0 <= j < pts.len() - 1 ==> agrees(m[j], #[trigger] span_slope(pts, j)) && agrees(
            m[j + 1],
            span_slope(pts, j),
        )
    &&& forall|j: int|
        0 <= j < i ==> inside(#[trigger] span_slope(pts, j), m[j], m[j + 1])
}

proof fn lemma_first_tangents(pts: Seq<Point>)
    requires
        drawable(pts),
        pts.len() >= 2,
    ensures
        tamed(pts, limited(pts, 0), 0),
{
    let m = limited(pts, 0);
    assert forall|j: int| 0 <= j < m.len() implies size(#[trigger] m[j]) <= SLOPE_MAX by {
        if j > 0 {
            lemma_slope_bound(pts[j - 1], pts[j]);
        }
        if j < pts.len() - 1 {
            lemma_slope_bound(pts[j], pts[j + 1]);
        }
        lemma_slope_bound(pts[pts.len() - 2], pts[pts.len() - 1]);
    }
    assert forall|j: int| 0 <= j < pts.len() - 1 implies agrees(
        m[j],
        #[trigger] span_slope(pts, j),
    ) && agrees(m[j + 1], span_slope(pts, j)) by {
        lemma_half_way(pts, j);
        lemma_half_way(pts, j + 1);
    }
}

proof fn lemma_half_way(pts: Seq<Point>, j: int)
    requires
        0 <= j < pts.len(),
        pts.len() >= 2,
    ensures
        j < pts.len() - 1 ==> agrees(first_tangent(pts, j), span_slope(pts, j)),
        j > 0 ==> agrees(first_tangent(pts, j), span_slope(pts, j - 1)),
{
}

proof fn lemma_limit_step(pts: Seq<Point>, i: int)
    requires
        drawable(pts),
        0 <= i < pts.len() - 1,
        tamed(pts, limited(pts, i as nat), i),
    ensures
        tamed(pts, limited(pts, (i + 1) as nat), i + 1),
{
    let old_m = limited(pts, i as nat);
    let m = limited(pts, (i + 1) as nat);
    let s = span_slope(pts, i);
    lemma_slope_bound(pts[i], pts[i + 1]);
    assert(size(old_m[i]) <= SLOPE_MAX);
    assert(size(old_m[i + 1]) <= SLOPE_MAX);
    assert(agrees(old_m[i], s) && agrees(old_m[i + 1], s));
    lemma_limited_pair(s, old_m[i], old_m[i + 1]);
    let pair = limited_pair(s, old_m[i], old_m[i + 1]);
    assert(m == old_m.update(i, pair.0).update(i + 1, pair.1));
    assert forall|j: int| 0 <= j < pts.len() - 1 implies agrees(
        m[j],
        #[trigger] span_slope(pts, j),
    ) && agrees(m[j + 1], span_slope(pts, j)) by {
        assert(agrees(old_m[j], span_slope(pts, j)));
        assert(agrees(old_m[j + 1], span_slope(pts, j)));
    }
    assert forall|j: int| 0 <= j < i + 1 implies inside(
        #[trigger] span_slope(pts, j),
        m[j],
        m[j + 1],
    ) by {
        if j == i - 1 {
            assert(inside(span_slope(pts, j), old_m[j], old_m[j + 1]));
            lemma_square_mono(m[j + 1], old_m[j + 1]);
        }
    }
}

/// The final tangents of drawable points are tamed on every span.
proof fn lemma_tamed(pts: Seq<Point>, i: nat)
    requires
        drawable(pts),
        pts.len() >= 2,
        i <= pts.len() - 1,
    ensures
        tamed(pts, limited(pts, i), i as int),
    decreases i,
{
    if i == 0 {
        lemma_first_tangents(pts);
    } else {
        lemma_tamed(pts, (i - 1) as nat);
        lemma_limit_step(pts, i - 1);
    }
}

// -- monotonicity ---------------------------------------------------------------
/// Slope of the cubic `u` of `u + v` along the span, up to a positive factor.
spec fn pace(d: int, a: int, b: int, u: int, v: int) -> int {
    a * (v * v) + 2 * ((3 * d - a - b) * (u * v)) + b * (u * u)
}

proof fn lemma_complete_square(a: int, b: int, c: int, u: int, v: int)
    ensures
        a * (a * (v * v) + 2 * (c * (u * v)) + b * (u * u)) == (a * v + c * u) * (a * v + c * u) + (a
            * b - c * c) * (u * u),
{
    let av = a * v;
    let cu = c * u;
    let x = a * (v * v);
    let y = c * (u * v);
    let z = b * (u * u);
    assert((av + cu) * (av + cu) == av * av + 2 * (av * cu) + cu * cu) by (nonlinear_arith);
    assert(av * av == a * x) by (nonlinear_arith)
        requires
            av == a * v,
            x == a * (v * v),
    ;
    assert(av * cu == a * y) by (nonlinear_arith)
        requires
            av == a * v,
            cu == c * u,
            y == c * (u * v),
    ;
    assert(cu * cu == (c * c) * (u * u)) by (nonlinear_arith)
        requires
            cu == c * u,
    ;
    assert(a * z == (a * b) * (u * u)) by (nonlinear_arith)
        requires
            z == b * (u * u),
    ;
    lemma_split(a * b, c * c, u * u);
    assert(a * (x + 2 * y + z) == a * x + 2 * (a * y) + a * z) by (nonlinear_arith);
}

proof fn lemma_split(p: int, q: int, r: int)
    ensures
        (p - q) * r == p * r - q * r,
        (p + q) * r == p * r + q * r,
        r * (p - q) == r * p - r * q,
        r * (p + q) == r * p + r * q,
{
    assert((p - q) * r == p * r - q * r) by (nonlinear_arith);
    assert((p + q) * r == p * r + q * r) by (nonlinear_arith);
    assert(r * (p - q) == r * p - r * q) by (nonlinear_arith);
    assert(r * (p + q) == r * p + r * q) by (nonlinear_arith);
}

proof fn lemma_simpson(w: int, x: int, y: int, z: int)
    ensures
        w * (x + 4 * y + z) == w * x + 4 * (w * y) + w * z,
{
    assert(w * (x + 4 * y + z) == w * x + 4 * (w * y) + w * z) by (nonlinear_arith);
}

proof fn lemma_pace_nonnegative(d: int, a: int, b: int, u: int, v: int)
    requires
        0 <= d,
        0 <= a,
        0 <= b,
        0 <= u,
        0 <= v,
        a * a + b * b <= 9 * (d * d),
    ensures
        pace(d, a, b, u, v) >= 0,
{
    let c = 3 * d - a - b;
    assert(a * (v * v) >= 0) by (nonlinear_arith)
        requires
            a >= 0,
    ;
    assert(b * (u * u) >= 0) by (nonlinear_arith)
        requires
            b >= 0,
    ;
    assert(u * v >= 0) by (nonlinear_arith)
        requires
            u >= 0,
            v >= 0,
    ;
    if c >= 0 {
        assert(c * (u * v) >= 0) by (nonlinear_arith)
            requires
                c >= 0,
                u * v >= 0,
        ;
    } else {
        let s = a + b;
        assert(s * s <= 2 * (a * a + b * b)) by (nonlinear_arith)
            requires
                s == a + b,
        ;
        assert(s <= 9 * d) by (nonlinear_arith)
            requires
                s * s <= 18 * (d * d),
                d >= 0,
                s >= 0,
        ;
        assert((s - 3 * d) * (s - 9 * d) <= 0) by (nonlinear_arith)
            requires
                3 * d < s <= 9 * d,
        ;
        assert((s - 3 * d) * (s - 9 * d) == s * s - 12 * (s * d) + 27 * (d * d)) by (nonlinear_arith);
        assert(s * s == a * a + b * b + 2 * (a * b)) by (nonlinear_arith)
            requires
                s == a + b,
        ;
        assert(c * c == s * s - 6 * (s * d) + 9 * (d * d)) by (nonlinear_arith)
            requires
                c == 3 * d - s,
        ;
        assert(c * c <= a * b);
        assert(c * c > 0) by (nonlinear_arith)
            requires
                c < 0,
        ;
        if a == 0 {
            assert(a * b == 0);
        }
        let p = pace(d, a, b, u, v);
        lemma_complete_square(a, b, c, u, v);
        assert((a * v + c * u) * (a * v + c * u) >= 0) by (nonlinear_arith);
        assert((a * b - c * c) * (u * u) >= 0) by (nonlinear_arith)
            requires
                a * b - c * c >= 0,
        ;
        assert(p >= 0) by (nonlinear_arith)
            requires
                a * p >= 0,
                a > 0,
        ;
    }
}

/// Simpson's rule is exact on a quadratic: one step's rise from three paces.
proof fn lemma_step_rise(d: int, a: int, b: int, k: int, n: int)
    ensures
        24 * (rise(d, a, b, k + 1, n) - rise(d, a, b, k, n)) == pace(
            d,
            a,
            b,
            2 * k,
            2 * n - 2 * k,
        ) + 4 * pace(d, a, b, 2 * k + 1, 2 * n - 2 * k - 1) + pace(
            d,
            a,
            b,
            2 * k + 2,
            2 * n - 2 * k - 2,
        ),
{
    let e = n - k;
    let g = k + 1;
    let (u0, v0) = (2 * k, 2 * e);
    let (u1, v1) = (2 * k + 1, 2 * e - 1);
    let (u2, v2) = (2 * k + 2, 2 * e - 2);
    // Everything over the monomials in k and e.
    let k2 = k * k;
    let e2 = e * e;
    let ke = k * e;
    assert(u0 * u0 == 4 * k2 && v0 * v0 == 4 * e2 && u0 * v0 == 4 * ke) by (nonlinear_arith)
        requires
            u0 == 2 * k,
            v0 == 2 * e,
            k2 == k * k,
            e2 == e * e,
            ke == k * e,
    ;
    assert(u1 * u1 == 4 * k2 + 4 * k + 1 && v1 * v1 == 4 * e2 - 4 * e + 1 && u1 * v1 == 4 * ke - 2
        * k + 2 * e - 1) by (nonlinear_arith)
        requires
            u1 == 2 * k + 1,
            v1 == 2 * e - 1,
            k2 == k * k,
            e2 == e * e,
            ke == k * e,
    ;
    assert(u2 * u2 == 4 * k2 + 8 * k + 4 && v2 * v2 == 4 * e2 - 8 * e + 4 && u2 * v2 == 4 * ke - 4
        * k + 4 * e - 4) by (nonlinear_arith)
        requires
            u2 == 2 * k + 2,
            v2 == 2 * e - 2,
            k2 == k * k,
            e2 == e * e,
            ke == k * e,
    ;
    let suu = u0 * u0 + 4 * (u1 * u1) + u2 * u2;
    let svv = v0 * v0 + 4 * (v1 * v1) + v2 * v2;
    let suv = u0 * v0 + 4 * (u1 * v1) + u2 * v2;
    let c = 3 * d - a - b;
    let total = pace(d, a, b, u0, v0) + 4 * pace(d, a, b, u1, v1) + pace(d, a, b, u2, v2);
    lemma_simpson(a, v0 * v0, v1 * v1, v2 * v2);
    lemma_simpson(c, u0 * v0, u1 * v1, u2 * v2);
    lemma_simpson(b, u0 * u0, u1 * u1, u2 * u2);
    assert(total == a * svv + 2 * (c * suv) + b * suu);
    assert(suu == 24 * k2 + 24 * k + 8);
    assert(svv == 24 * e2 - 24 * e + 8);
    assert(suv == 24 * ke - 12 * k + 12 * e - 8);
    // The rise, by its three coefficients.
    let hd = 3 * (g * g * n) - 2 * (g * g * g) - (3 * (k * k * n) - 2 * (k * k * k));
    let ha = g * (n - g) * (n - g) - k * (n - k) * (n - k);
    let hb = g * g * (n - g) - k * k * (n - k);
    assert(hd == 6 * ke + 3 * e - 3 * k - 2) by (nonlinear_arith)
        requires
            hd == 3 * (g * g * n) - 2 * (g * g * g) - (3 * (k * k * n) - 2 * (k * k * k)),
            g == k + 1,
            n == k + e,
            ke == k * e,
    ;
    assert(ha == e2 - 2 * ke - 2 * e + k + 1) by (nonlinear_arith)
        requires
            ha == g * (n - g) * (n - g) - k * (n - k) * (n - k),
            g == k + 1,
            n == k + e,
            ke == k * e,
            e2 == e * e,
    ;
    assert(hb == 2 * ke - k2 - 2 * k + e - 1) by (nonlinear_arith)
        requires
            hb == g * g * (n - g) - k * k * (n - k),
            g == k + 1,
            n == k + e,
            ke == k * e,
            k2 == k * k,
    ;
    let delta = rise(d, a, b, g, n) - rise(d, a, b, k, n);
    lemma_split(3 * (g * g * n) - 2 * (g * g * g), 3 * (k * k * n) - 2 * (k * k * k), d);
    lemma_split(g * (n - g) * (n - g), k * (n - k) * (n - k), a);
    lemma_split(g * g * (n - g), k * k * (n - k), b);
    assert(delta == d * hd + a * ha - b * hb);
    assert(6 * suv == 24 * hd);
    assert(svv - 2 * suv == 24 * ha);
    assert(suu - 2 * suv == -(24 * hb));
    assert(2 * (c * suv) == d * (6 * suv) - a * (2 * suv) - b * (2 * suv)) by (nonlinear_arith)
        requires
            c == 3 * d - a - b,
    ;
    assert(a * svv - a * (2 * suv) == a * (svv - 2 * suv)) by (nonlinear_arith);
    assert(b * suu - b * (2 * suv) == b * (suu - 2 * suv)) by (nonlinear_arith);
    assert(total == d * (24 * hd) + a * (24 * ha) + b * (-(24 * hb)));
    assert(24 * delta == d * (24 * hd) + a * (24 * ha) + b * (-(24 * hb))) by (nonlinear_arith)
        requires
            delta == d * hd + a * ha - b * hb,
    ;
}

proof fn lemma_rise_monotone(d: int, a: int, b: int, j: int, k: int, n: int)
    requires
        0 <= d,
        0 <= a,
        0 <= b,
        a * a + b * b <= 9 * (d * d),
        0 <= j <= k <= n,
    ensures
        rise(d, a, b, j, n) <= rise(d, a, b, k, n),
    decreases k - j,
{
    if j < k {
        lemma_rise_monotone(d, a, b, j, k - 1, n);
        lemma_step_rise(d, a, b, k - 1, n);
        lemma_pace_nonnegative(d, a, b, 2 * (k - 1), 2 * n - 2 * (k - 1));
        lemma_pace_nonnegative(d, a, b, 2 * (k - 1) + 1, 2 * n - 2 * (k - 1) - 1);
        lemma_pace_nonnegative(d, a, b, 2 * (k - 1) + 2, 2 * n - 2 * (k - 1) - 2);
    }
}

proof fn lemma_rise_ends(d: int, a: int, b: int, n: int)
    ensures
        rise(d, a, b, 0, n) == 0,
        rise(d, a, b, n, n) == d * (n * n * n),
{
    assert(rise(d, a, b, 0, n) == 0) by (nonlinear_arith)
        requires
            rise(d, a, b, 0, n) == d * (3 * (0 * 0 * n) - 2 * (0 * 0 * 0)) + a * (0 * (n - 0) * (n
                - 0)) - b * (0 * 0 * (n - 0)),
    ;
    assert(rise(d, a, b, n, n) == d * (n * n * n)) by (nonlinear_arith)
        requires
            rise(d, a, b, n, n) == d * (3 * (n * n * n) - 2 * (n * n * n)) + a * (n * (n - n) * (n
                - n)) - b * (n * n * (n - n)),
    ;
}

/// End tangents of a span, as rises, stay inside the circle around its height.
proof fn lemma_span_circle(pts: Seq<Point>, i: int)
    requires
        drawable(pts),
        0 <= i < pts.len() - 1,
    ensures
        ({
            let w = pts[i + 1].x - pts[i].x;
            let d = size(pts[i + 1].y - pts[i].y);
            let a = reach(tangents(pts)[i], w);
            let b = reach(tangents(pts)[i + 1], w);
            &&& 0 <= a
            &&& 0 <= b
            &&& a * a + b * b <= 9 * (d * d)
            &&& a <= 3 * d
            &&& b <= 3 * d
        }),
{
    lemma_tamed(pts, (pts.len() - 1) as nat);
    let m = tangents(pts)[i];
    let t = tangents(pts)[i + 1];
    let w = pts[i + 1].x - pts[i].x;
    let d = size(pts[i + 1].y - pts[i].y);
    let s = span_slope(pts, i);
    let a = reach(m, w);
    let b = reach(t, w);
    lemma_slope_bound(pts[i], pts[i + 1]);
    lemma_reach(m, w);
    lemma_reach(t, w);
    assert(inside(s, m, t));
    lemma_square_size(m);
    lemma_square_size(t);
    lemma_square_size(s);
    if w <= 1 {
        assert(s * s == 0) by (nonlinear_arith)
            requires
                s == 0,
        ;
        assert(size(m) == 0 && size(t) == 0) by (nonlinear_arith)
            requires
                size(m) * size(m) + size(t) * size(t) <= 0,
                size(m) >= 0,
                size(t) >= 0,
        ;
        assert(size(m) * w == 0 && size(t) * w == 0) by (nonlinear_arith)
            requires
                size(m) == 0,
                size(t) == 0,
        ;
        assert(a == 0 && b == 0);
        assert(d * d >= 0) by (nonlinear_arith);
        assert(a * a + b * b == 0);
    } else {
        let c = 3 * (size(s) * w);
        let e = ONE as int;
        assert((size(m) * w) * (size(m) * w) + (size(t) * w) * (size(t) * w) == (size(m) * size(m)
            + size(t) * size(t)) * (w * w)) by (nonlinear_arith);
        assert((size(m) * size(m) + size(t) * size(t)) * (w * w) <= (9 * (size(s) * size(s))) * (w
            * w)) by (nonlinear_arith)
            requires
                size(m) * size(m) + size(t) * size(t) <= 9 * (size(s) * size(s)),
        ;
        assert((9 * (size(s) * size(s))) * (w * w) == c * c) by (nonlinear_arith)
            requires
                c == 3 * (size(s) * w),
        ;
        assert(0 <= c) by (nonlinear_arith)
            requires
                c == 3 * (size(s) * w),
                size(s) >= 0,
                w >= 0,
        ;
        lemma_two_squares(a, b, size(m) * w, size(t) * w, c, 3 * d, e);
        assert((3 * d) * (3 * d) == 9 * (d * d)) by (nonlinear_arith);
    }
    assert(a <= 3 * d) by (nonlinear_arith)
        requires
            a * a + b * b <= 9 * (d * d),
            a >= 0,
            d >= 0,
    ;
    assert(b <= 3 * d) by (nonlinear_arith)
        requires
            a * a + b * b <= 9 * (d * d),
            b >= 0,
            d >= 0,
    ;
}

proof fn lemma_reach(m: int, w: int)
    requires
        w >= 0,
    ensures
        0 <= reach(m, w),
        reach(m, w) * ONE <= size(m) * w,
{
    let n = size(m) * w;
    assert(n >= 0) by (nonlinear_arith)
        requires
            n == size(m) * w,
            size(m) >= 0,
            w >= 0,
    ;
}

/// `x * e <= p`, `y * e <= q`, `p^2 + q^2 <= c^2` and `c <= h * e` give
/// `x^2 + y^2 <= h^2`.
proof fn lemma_two_squares(x: int, y: int, p: int, q: int, c: int, h: int, e: int)
    requires
        0 <= x,
        0 <= y,
        0 < e,
        0 <= c,
        x * e <= p,
        y * e <= q,
        p * p + q * q <= c * c,
        c <= h * e,
    ensures
        x * x + y * y <= h * h,
{
    assert((x * e) * (x * e) <= p * p) by (nonlinear_arith)
        requires
            x * e <= p,
            0 <= x,
            0 < e,
    ;
    assert((y * e) * (y * e) <= q * q) by (nonlinear_arith)
        requires
            y * e <= q,
            0 <= y,
            0 < e,
    ;
    assert(c * c <= (h * e) * (h * e)) by (nonlinear_arith)
        requires
            0 <= c <= h * e,
    ;
    let left = x * x + y * y;
    let right = h * h;
    let sq = e * e;
    assert((x * e) * (x * e) + (y * e) * (y * e) == left * sq) by (nonlinear_arith)
        requires
            left == x * x + y * y,
            sq == e * e,
    ;
    assert((h * e) * (h * e) == right * sq) by (nonlinear_arith)
        requires
            right == h * h,
            sq == e * e,
    ;
    assert(sq > 0) by (nonlinear_arith)
        requires
            sq == e * e,
            e > 0,
    ;
    assert(left <= right) by (nonlinear_arith)
        requires
            left * sq <= right * sq,
            sq > 0,
    ;
}

/// On every span the curve is monotone: from step `j` to a later step `k` it
/// moves toward the span's end point or stays, and it starts and ends on the
/// span's end points.
pub proof fn law_span_monotone(pts: Seq<Point>, i: int, j: int, k: int, n: int)
    requires
        drawable(pts),
        0 <= i < pts.len() - 1,
        0 <= j <= k <= n,
        n >= 1,
    ensures
        ({
            let (p, q) = (pts[i], pts[i + 1]);
            let (a, b) = (tangents(pts)[i], tangents(pts)[i + 1]);
            &&& p.y <= q.y ==> span_y(p, q, a, b, j, n) <= span_y(p, q, a, b, k, n)
            &&& p.y >= q.y ==> span_y(p, q, a, b, j, n) >= span_y(p, q, a, b, k, n)
            &&& span_y(p, q, a, b, 0, n) == p.y
            &&& span_y(p, q, a, b, n, n) == q.y
        }),
{
    lemma_span_circle(pts, i);
    let (p, q) = (pts[i], pts[i + 1]);
    let w = q.x - p.x;
    let d = size(q.y - p.y);
    let a = reach(tangents(pts)[i], w);
    let b = reach(tangents(pts)[i + 1], w);
    let c = n * n * n;
    assert(c > 0) by (nonlinear_arith)
        requires
            c == n * n * n,
            n >= 1,
    ;
    lemma_rise_monotone(d, a, b, j, k, n);
    vstd::arithmetic::div_mod::lemma_div_is_ordered(
        rise(d, a, b, j, n),
        rise(d, a, b, k, n),
        c,
    );
    lemma_rise_ends(d, a, b, n);
    assert(0int / c == 0) by {
        vstd::arithmetic::div_mod::lemma_div_of0(c);
    }
    assert((d * c) / c == d) by {
        vstd::arithmetic::div_mod::lemma_div_by_multiple(d, c);
    }
    if d == 0 {
        lemma_rise_monotone(d, a, b, 0, j, n);
        lemma_rise_monotone(d, a, b, k, n, n);
        vstd::arithmetic::div_mod::lemma_div_is_ordered(0, rise(d, a, b, j, n), c);
        vstd::arithmetic::div_mod::lemma_div_is_ordered(rise(d, a, b, k, n), d * c, c);
    }
}

/// The resampled curve never overshoots the data: every output point lies
/// between the heights of the two points whose span it belongs to, and the
/// curve passes through every input point.
pub proof fn law_no_overshoot(pts: Seq<Point>, n: int, out: Seq<Point>)
    requires
        drawable(pts),
        pts.len() >= 2,
        n >= 1,
        resampled(pts, n, out),
    ensures
        forall|i: int, k: int|
            0 <= i < pts.len() - 1 && 0 <= k < n ==> {
                let p = #[trigger] out[i * n + k];
                &&& pts[i].y <= pts[i + 1].y ==> pts[i].y <= p.y <= pts[i + 1].y
                &&& pts[i].y >= pts[i + 1].y ==> pts[i].y >= p.y >= pts[i + 1].y
                &&& pts[i].x <= p.x <= pts[i + 1].x
            },
        forall|i: int| 0 <= i < pts.len() ==> out[#[trigger] (i * n)] == pts[i],
{
    assert forall|i: int, k: int| 0 <= i < pts.len() - 1 && 0 <= k < n implies {
        let p = #[trigger] out[i * n + k];
        &&& pts[i].y <= pts[i + 1].y ==> pts[i].y <= p.y <= pts[i + 1].y
        &&& pts[i].y >= pts[i + 1].y ==> pts[i].y >= p.y >= pts[i + 1].y
        &&& pts[i].x <= p.x <= pts[i + 1].x
    } by {
        law_span_monotone(pts, i, 0, k, n);
        law_span_monotone(pts, i, k, n, n);
        lemma_share(pts[i + 1].x - pts[i].x, k, n);
    }
    assert forall|i: int| 0 <= i < pts.len() implies out[#[trigger] (i * n)] == pts[i] by {
        if i < pts.len() - 1 {
            assert(out[i * n + 0].x == span_x(pts[i], pts[i + 1], 0, n));
            law_span_monotone(pts, i, 0, 0, n);
            lemma_share(pts[i + 1].x - pts[i].x, 0, n);
        }
    }
}

proof fn lemma_share(w: int, k: int, n: int)
    requires
        0 <= w,
        0 <= k <= n,
        n >= 1,
    ensures
        0 <= w * k / n <= w,
        k == 0 ==> w * k / n == 0,
{
    assert(0 <= w * k <= w * n) by (nonlinear_arith)
        requires
            0 <= w,
            0 <= k <= n,
    ;
    vstd::arithmetic::div_mod::lemma_div_is_ordered(0, w * k, n);
    vstd::arithmetic::div_mod::lemma_div_is_ordered(w * k, w * n, n);
    vstd::arithmetic::div_mod::lemma_div_by_multiple(w, n);
    vstd::arithmetic::div_mod::lemma_div_of0(n);
}

// -- resampling -----------------------------------------------------------------
fn span_slope_of(a: Point, b: Point) -> (r: i128)
    requires
        a.x <= b.x,
    ensures
        r == slope(a, b),
        size(r as int) <= SLOPE_MAX,
{
    proof {
        lemma_slope_bound(a, b);
    }
    let w: i128 = b.x as i128 - a.x as i128;
    if w > 1 {
        if b.y < a.y {
            let d: i128 = a.y as i128 - b.y as i128;
            -(d * 1_000_000_000 / w)
        } else {
            let d: i128 = b.y as i128 - a.y as i128;
            d * 1_000_000_000 / w
        }
    } else {
        0
    }
}

fn size_of_tangent(v: i128) -> (r: u128)
    requires
        size(v as int) <= SLOPE_MAX,
    ensures
        r == size(v as int),
{
    if v < 0 {
        (-v) as u128
    } else {
        v as u128
    }
}

/// Length of a tangent pair, rounded up.
fn length_of(a: u128, b: u128) -> (r: u128)
    requires
        a * a + b * b >= 1,
        a <= 2 * SLOPE_MAX,
        b <= 2 * SLOPE_MAX,
    ensures
        r == length(a as int, b as int),
        a <= r,
        b <= r,
        r <= 2 * (a + b),
        a + b >= 16 ==> r <= 2 * (a + b) - 16,
    decreases a + b,
{
    proof {
        lemma_length(a as int, b as int);
        let r = length(a as int, b as int);
        assert(a <= r && b <= r) by (nonlinear_arith)
            requires
                a * a + b * b <= r * r,
                a >= 0,
                b >= 0,
                r >= 1,
        ;
    }
    if a < 0x4000_0000_0000_0000 && b < 0x4000_0000_0000_0000 {
        proof {
            lemma_square_mono(a as int, 0x4000_0000_0000_0000);
            lemma_square_mono(b as int, 0x4000_0000_0000_0000);
            assert(0x4000_0000_0000_0000int * 0x4000_0000_0000_0000
                == 0x1000_0000_0000_0000_0000_0000_0000_0000) by (nonlinear_arith);
        }
        let r: u128 = root_up(a * a + b * b) as u128;
        assert(r <= a + b) by (nonlinear_arith)
            requires
                (r - 1) * (r - 1) < a * a + b * b,
                a >= 0,
                b >= 0,
        ;
        r
    } else {
        let (x, y): (u128, u128) = (a / 2 + 1, b / 2 + 1);
        assert(x * x >= 1 && y * y >= 1) by (nonlinear_arith)
            requires
                x >= 1,
                y >= 1,
        ;
        let half: u128 = length_of(x, y);
        2 * half
    }
}

fn shrink(a: i128, num: u128, den: u128) -> (r: i128)
    requires
        size(a as int) <= SLOPE_MAX,
        0 <= num <= den <= 0x4000_0000_0000_0000_0000_0000_0000_0000,
        den > 0,
    ensures
        r == scaled(a as int, num as int, den as int),
{
    let m: u128 = size_of_tangent(a);
    proof {
        lemma_scaled(a as int, num as int, den as int);
        assert(m * num <= m * den) by (nonlinear_arith)
            requires
                0 <= m,
                num <= den,
        ;
        assert(m * den < 0x8000_0000_0000_0000_0000_0000_0000_0000 * den) by (nonlinear_arith)
            requires
                m < 0x8000_0000_0000_0000_0000_0000_0000_0000,
                den > 0,
        ;
    }
    let v: i128 = wide_div(m, num, den).0 as i128;
    if a < 0 {
        -v
    } else {
        v
    }
}

/// Whether a tangent pair lies inside the circle of radius `c`.
fn within_circle(a: u128, b: u128, c: u128) -> (r: bool)
    requires
        a <= SLOPE_MAX,
        b <= SLOPE_MAX,
        c <= 3 * SLOPE_MAX,
    ensures
        r == (a * a + b * b <= c * c),
{
    if a < 0x4000_0000_0000_0000 && b < 0x4000_0000_0000_0000 && c < 0x4000_0000_0000_0000 {
        proof {
            lemma_square_mono(a as int, 0x4000_0000_0000_0000);
            lemma_square_mono(b as int, 0x4000_0000_0000_0000);
            lemma_square_mono(c as int, 0x4000_0000_0000_0000);
            assert(0x4000_0000_0000_0000int * 0x4000_0000_0000_0000
                == 0x1000_0000_0000_0000_0000_0000_0000_0000) by (nonlinear_arith);
        }
        return a * a + b * b <= c * c;
    }
    let (a1, a0): (u128, u128) = square(a);
    let (b1, b0): (u128, u128) = square(b);
    let (c1, c0): (u128, u128) = square(c);
    let low: u128 = a0 + b0;
    let carry: u128 = if low >= 0x4000_0000_0000_0000_0000_0000_0000_0000 {
        1
    } else {
        0
    };
    let high: u128 = a1 + b1 + carry;
    let rest: u128 = low - carry * 0x4000_0000_0000_0000_0000_0000_0000_0000;
    high < c1 || (high == c1 && rest <= c0)
}

/// A square, as a quotient and a remainder.
fn square(v: u128) -> (qr: (u128, u128))
    requires
        v <= 3 * SLOPE_MAX,
    ensures
        v * v == qr.0 * 0x4000_0000_0000_0000_0000_0000_0000_0000 + qr.1,
        qr.1 < 0x4000_0000_0000_0000_0000_0000_0000_0000,
        qr.0 <= v,
{
    proof {
        assert(v * v <= v * 0x4000_0000_0000_0000_0000_0000_0000_0000) by (nonlinear_arith)
            requires
                0 <= v <= 0x4000_0000_0000_0000_0000_0000_0000_0000,
        ;
        assert(v * v < 0x8000_0000_0000_0000_0000_0000_0000_0000
            * 0x4000_0000_0000_0000_0000_0000_0000_0000) by (nonlinear_arith)
            requires
                0 <= v <= 0x4000_0000_0000_0000_0000_0000_0000_0000,
        ;
    }
    wide_div(v, v, 0x4000_0000_0000_0000_0000_0000_0000_0000)
}

fn limit_pair(s: i128, a: i128, b: i128) -> (r: (i128, i128))
    requires
        size(s as int) <= SLOPE_MAX,
        size(a as int) <= SLOPE_MAX,
        size(b as int) <= SLOPE_MAX,
        agrees(a as int, s as int),
        agrees(b as int, s as int),
    ensures
        r.0 == limited_pair(s as int, a as int, b as int).0,
        r.1 == limited_pair(s as int, a as int, b as int).1,
{
    if s == 0 {
        return (0, 0);
    }
    let am: u128 = size_of_tangent(a);
    let bm: u128 = size_of_tangent(b);
    let c: u128 = 3 * size_of_tangent(s);
    proof {
        lemma_square_size(s as int);
        lemma_square_size(a as int);
        lemma_square_size(b as int);
        assert(9 * (size(s as int) * size(s as int)) == c * c) by (nonlinear_arith)
            requires
                c == 3 * size(s as int),
        ;
    }
    if within_circle(am, bm, c) {
        (a, b)
    } else {
        proof {
            assert(c * c >= 0) by (nonlinear_arith);
            lemma_length_signs(a as int, b as int);
            lemma_length(am as int, bm as int);
        }
        let r: u128 = length_of(am, bm);
        proof {
            let q = am * am + bm * bm;
            assert(c <= r) by (nonlinear_arith)
                requires
                    c * c < q <= r * r,
                    r >= 1,
                    c >= 0,
            ;
        }
        (shrink(a, c, r), shrink(b, c, r))
    }
}

/// The length of a pair does not depend on its signs.
proof fn lemma_length_signs(a: int, b: int)
    ensures
        length(a, b) == length(size(a), size(b)),
{
    lemma_square_size(a);
    lemma_square_size(b);
}

proof fn lemma_cube(a: int, b: int, c: int, n: int)
    requires
        0 <= a <= n,
        0 <= b <= n,
        0 <= c <= n,
        n <= SUBDIV_MAX,
    ensures
        0 <= a * b <= 0x1000_0000_0000_0000,
        0 <= a * b * c <= 0x400_0000_0000_0000_0000_0000,
{
    assert(0 <= a * b <= 0x4000_0000 * 0x4000_0000) by (nonlinear_arith)
        requires
            0 <= a <= 0x4000_0000,
            0 <= b <= 0x4000_0000,
    ;
    let ab = a * b;
    assert(0 <= ab * c <= 0x1000_0000_0000_0000 * 0x4000_0000) by (nonlinear_arith)
        requires
            0 <= ab <= 0x1000_0000_0000_0000,
            0 <= c <= 0x4000_0000,
    ;
}

/// A share `c` of `n` of something no larger than `d` is a small multiple of it.
proof fn lemma_weighted(d: int, c: int, n: int)
    requires
        0 <= d <= 0x4_0000_0000_0000_0000,
        0 <= c <= 3 * n,
        0 < n,
    ensures
        0 <= d * c < 0x8000_0000_0000_0000_0000_0000_0000_0000 * n,
        0 <= d * c / n <= 3 * d,
{
    assert(0 <= d * c <= (3 * d) * n) by (nonlinear_arith)
        requires
            0 <= d,
            0 <= c <= 3 * n,
    ;
    assert((3 * d) * n < 0x8000_0000_0000_0000_0000_0000_0000_0000 * n) by (nonlinear_arith)
        requires
            3 * d < 0x8000_0000_0000_0000_0000_0000_0000_0000,
            0 < n,
    ;
    vstd::arithmetic::div_mod::lemma_div_is_ordered(0, d * c, n);
    vstd::arithmetic::div_mod::lemma_div_is_ordered(d * c, (3 * d) * n, n);
    vstd::arithmetic::div_mod::lemma_div_by_multiple(3 * d, n);
    vstd::arithmetic::div_mod::lemma_div_of0(n);
}

/// Rise of a cubic span after `k` of `n` steps.
fn rise_of(d: u128, a: u128, b: u128, k: usize, n: usize) -> (f: u64)
    requires
        d <= u64::MAX,
        0 <= k < n <= SUBDIV_MAX,
        a * a + b * b <= 9 * (d * d),
        a <= 3 * d,
        b <= 3 * d,
    ensures
        f == rise(d as int, a as int, b as int, k as int, n as int) / (n * n * n),
        f <= d,
{
    let (kk, nn): (u128, u128) = (k as u128, n as u128);
    let e: u128 = nn - kk;
    proof {
        lemma_cube(kk as int, kk as int, nn as int, nn as int);
        lemma_cube(kk as int, kk as int, kk as int, nn as int);
        lemma_cube(kk as int, e as int, e as int, nn as int);
        lemma_cube(kk as int, kk as int, e as int, nn as int);
        lemma_cube(nn as int, nn as int, nn as int, nn as int);
        lemma_cubes(kk as int, nn as int);
    }
    let kkn: u128 = kk * kk * nn;
    let kkk: u128 = kk * kk * kk;
    let kee: u128 = kk * e * e;
    let kke: u128 = kk * kk * e;
    let nnn: u128 = nn * nn * nn;
    let hd: u128 = 3 * kkn - 2 * kkk;
    proof {
        lemma_weighted(d as int, hd as int, nnn as int);
        lemma_weighted(a as int, kee as int, nnn as int);
        lemma_weighted(b as int, kke as int, nnn as int);
    }
    let (q1, r1): (u128, u128) = wide_div(d, hd, nnn);
    let (q2, r2): (u128, u128) = wide_div(a, kee, nnn);
    let (q3, r3): (u128, u128) = wide_div(b, kke, nnn);
    let rest: i128 = r1 as i128 + r2 as i128 - r3 as i128;
    let carry: i128 = if rest < 0 {
        -1
    } else if rest >= nnn as i128 {
        1
    } else {
        0
    };
    let ghost f = rise(d as int, a as int, b as int, k as int, n as int);
    let ghost whole = q1 + q2 - q3;
    proof {
        assert(f == d * hd + a * kee - b * kke);
        assert(f == whole * nnn + rest) by (nonlinear_arith)
            requires
                f == d * hd + a * kee - b * kke,
                d * hd == q1 * nnn + r1,
                a * kee == q2 * nnn + r2,
                b * kke == q3 * nnn + r3,
                whole == q1 + q2 - q3,
                rest == r1 + r2 - r3,
        ;
        let left = rest - carry * nnn;
        assert(carry * nnn == if carry == 1 {
            nnn as int
        } else if carry == 0 {
            0
        } else {
            -nnn
        }) by (nonlinear_arith)
            requires
                carry == 1 || carry == 0 || carry == -1,
        ;
        assert(f == (whole + carry) * nnn + left) by (nonlinear_arith)
            requires
                f == whole * nnn + rest,
                left == rest - carry * nnn,
        ;
        vstd::arithmetic::div_mod::lemma_fundamental_div_mod_converse(
            f,
            nnn as int,
            whole + carry,
            left,
        );
        lemma_rise_monotone(d as int, a as int, b as int, 0, k as int, n as int);
        lemma_rise_monotone(d as int, a as int, b as int, k as int, n as int, n as int);
        lemma_rise_ends(d as int, a as int, b as int, n as int);
        vstd::arithmetic::div_mod::lemma_div_is_ordered(0, f, nnn as int);
        vstd::arithmetic::div_mod::lemma_div_is_ordered(f, d * nnn, nnn as int);
        vstd::arithmetic::div_mod::lemma_div_by_multiple(d as int, nnn as int);
        vstd::arithmetic::div_mod::lemma_div_of0(nnn as int);
    }
    (q1 as i128 + q2 as i128 - q3 as i128 + carry) as u64
}

/// The weights of a cubic span are shares of a cube.
proof fn lemma_cubes(k: int, n: int)
    requires
        0 <= k < n,
    ensures
        k * k * k <= k * k * n <= n * n * n,
        k * (n - k) * (n - k) <= n * n * n,
        k * k * (n - k) <= n * n * n,
        0 < n * n * n,
{
    let e = n - k;
    assert(0 <= k * k <= n * n) by (nonlinear_arith)
        requires
            0 <= k <= n,
    ;
    let kk = k * k;
    let nn = n * n;
    assert(kk * k <= kk * n && kk * e <= kk * n && kk * n <= nn * n) by (nonlinear_arith)
        requires
            0 <= kk <= nn,
            0 <= k <= n,
            0 <= e <= n,
    ;
    assert(0 <= k * e <= nn) by (nonlinear_arith)
        requires
            0 <= k <= n,
            0 <= e <= n,
            nn == n * n,
    ;
    let ke = k * e;
    assert(ke * e <= nn * n) by (nonlinear_arith)
        requires
            0 <= ke <= nn,
            0 <= e <= n,
    ;
    assert(0 < nn * n) by (nonlinear_arith)
        requires
            nn == n * n,
            0 < n,
    ;
}

/// Tangent `m` over a span of width `w`, as a rise.
fn reach_of(m: i128, w: u128) -> (r: u128)
    requires
        size(m as int) <= SLOPE_MAX,
        w <= u64::MAX,
    ensures
        r == reach(m as int, w as int),
{
    let size: u128 = size_of_tangent(m);
    assert(0 <= size * w < 0x8000_0000_0000_0000_0000_0000_0000_0000 * 1_000_000_000)
        by (nonlinear_arith)
        requires
            0 <= size <= 9_223_372_036_854_775_808_000_000_000,
            0 <= w <= 0xFFFF_FFFF_FFFF_FFFF,
    ;
    wide_div(size, w, 1_000_000_000).0
}

/// Point `k` of `n` on span `i`.
fn span_point(pts: &[Point], i: usize, a: i128, b: i128, k: usize, n: usize) -> (r: Point)
    requires
        drawable(pts@),
        0 <= i < pts@.len() - 1,
        a == tangents(pts@)[i as int],
        b == tangents(pts@)[i + 1],
        0 <= k < n <= SUBDIV_MAX,
    ensures
        r.x == span_x(pts[i as int], pts[i + 1], k as int, n as int),
        r.y == span_y(pts[i as int], pts[i + 1], a as int, b as int, k as int, n as int),
{
    let p: Point = pts[i];
    let q: Point = pts[i + 1];
    proof {
        assert(p.x <= q.x);
        lemma_tamed(pts@, (pts@.len() - 1) as nat);
        assert(size(tangents(pts@)[i as int]) <= SLOPE_MAX);
        assert(size(tangents(pts@)[i + 1]) <= SLOPE_MAX);
        lemma_span_circle(pts@, i as int);
        lemma_share(q.x - p.x, k as int, n as int);
    }
    let w: u128 = (q.x as i128 - p.x as i128) as u128;
    assert(0 <= w * k <= 0xFFFF_FFFF_FFFF_FFFF * 0x4000_0000) by (nonlinear_arith)
        requires
            0 <= w <= 0xFFFF_FFFF_FFFF_FFFF,
            0 <= k <= 0x4000_0000,
    ;
    let x: i64 = (p.x as i128 + (w * k as u128 / n as u128) as i128) as i64;
    let falls: bool = q.y < p.y;
    let d: u128 = if falls {
        (p.y as i128 - q.y as i128) as u128
    } else {
        (q.y as i128 - p.y as i128) as u128
    };
    let f: i128 = rise_of(d, reach_of(a, w), reach_of(b, w), k, n) as i128;
    let y: i64 = if falls {
        (p.y as i128 - f) as i64
    } else {
        (p.y as i128 + f) as i64
    };
    Point { x, y }
}

/// Secant slopes of every span.
fn span_slopes(pts: &[Point]) -> (slopes: Vec<i128>)
    requires
        drawable(pts@),
        pts@.len() >= 2,
    ensures
        slopes@.len() == pts@.len() - 1,
        forall|j: int| 0 <= j < slopes@.len() ==> #[trigger] slopes@[j] == span_slope(pts@, j),
        forall|j: int| 0 <= j < slopes@.len() ==> size(#[trigger] slopes@[j] as int) <= SLOPE_MAX,
{
    let n: usize = pts.len();
    let mut slopes: Vec<i128> = Vec::with_capacity(n - 1);
    let mut i: usize = 0;
    while i < n - 1
        invariant
            n == pts@.len() >= 2,
            drawable(pts@),
            i <= n - 1,
            slopes@.len() == i,
            forall|j: int| 0 <= j < i ==> #[trigger] slopes@[j] == span_slope(pts@, j),
            forall|j: int| 0 <= j < i ==> size(#[trigger] slopes@[j] as int) <= SLOPE_MAX,
        decreases n - i,
    {
        assert(pts@[i as int].x <= pts@[i + 1].x);
        slopes.push(span_slope_of(pts[i], pts[i + 1]));
        i = i + 1;
    }
    slopes
}

/// Tangent between two neighbouring secants. Opposite signs mean a local
/// extremum; a flat tangent there keeps the curve from overshooting past the
/// data point.
fn between_slopes(a: i128, b: i128) -> (t: i128)
    requires
        size(a as int) <= SLOPE_MAX,
        size(b as int) <= SLOPE_MAX,
    ensures
        t == (if same_way(a as int, b as int) {
            scaled(a + b, 1, 2)
        } else {
            0
        }),
{
    if a > 0 && b > 0 {
        (a + b) / 2
    } else if a < 0 && b < 0 {
        -((-a + -b) / 2)
    } else {
        0
    }
}

/// Tangents before limiting.
fn first_tangents(pts: &[Point], slopes: &Vec<i128>) -> (m: Vec<i128>)
    requires
        pts@.len() >= 2,
        slopes@.len() == pts@.len() - 1,
        forall|j: int| 0 <= j < slopes@.len() ==> #[trigger] slopes@[j] == span_slope(pts@, j),
        forall|j: int| 0 <= j < slopes@.len() ==> size(#[trigger] slopes@[j] as int) <= SLOPE_MAX,
    ensures
        m@.len() == pts@.len(),
        forall|j: int| 0 <= j < m@.len() ==> #[trigger] m@[j] == first_tangent(pts@, j),
{
    let n: usize = pts.len();
    let mut m: Vec<i128> = Vec::with_capacity(n);
    m.push(slopes[0]);
    let mut i: usize = 1;
    while i < n - 1
        invariant
            n == pts@.len() >= 2,
            1 <= i <= n - 1,
            slopes@.len() == n - 1,
            forall|j: int| 0 <= j < n - 1 ==> #[trigger] slopes@[j] == span_slope(pts@, j),
            forall|j: int| 0 <= j < n - 1 ==> size(#[trigger] slopes@[j] as int) <= SLOPE_MAX,
            m@.len() == i,
            forall|j: int| 0 <= j < i ==> #[trigger] m@[j] == first_tangent(pts@, j),
        decreases n - i,
    {
        assert(slopes@[i - 1] == span_slope(pts@, i - 1));
        m.push(between_slopes(slopes[i - 1], slopes[i]));
        i = i + 1;
    }
    m.push(slopes[n - 2]);
    m
}

/// Tangents of a polyline of at least two points, limited on every span.
fn limit_tangents(pts: &[Point]) -> (m: Vec<i128>)
    requires
        drawable(pts@),
        pts@.len() >= 2,
    ensures
        m@.len() == pts@.len(),
        forall|j: int| 0 <= j < m@.len() ==> #[trigger] m@[j] == tangents(pts@)[j],
{
    let n: usize = pts.len();
    let slopes: Vec<i128> = span_slopes(pts);
    let mut m: Vec<i128> = first_tangents(pts, &slopes);
    let mut i: usize = 0;
    while i < n - 1
        invariant
            n == pts@.len() >= 2,
            drawable(pts@),
            i <= n - 1,
            slopes@.len() == n - 1,
            forall|j: int| 0 <= j < n - 1 ==> #[trigger] slopes@[j] == span_slope(pts@, j),
            forall|j: int| 0 <= j < n - 1 ==> size(#[trigger] slopes@[j] as int) <= SLOPE_MAX,
            m@.len() == n,
            limited(pts@, i as nat).len() == n,
            forall|j: int| 0 <= j < n ==> #[trigger] m@[j] == limited(pts@, i as nat)[j],
        decreases n - i,
    {
        let ghost was = limited(pts@, i as nat);
        proof {
            lemma_tamed(pts@, i as nat);
            assert(agrees(was[i as int], span_slope(pts@, i as int)));
            assert(agrees(was[i + 1], span_slope(pts@, i as int)));
            assert(size(was[i as int]) <= SLOPE_MAX && size(was[i + 1]) <= SLOPE_MAX);
        }
        let pair: (i128, i128) = limit_pair(slopes[i], m[i], m[i + 1]);
        m.set(i, pair.0);
        m.set(i + 1, pair.1);
        proof {
            reveal_with_fuel(limited, 2);
            assert(limited(pts@, (i + 1) as nat) =~= was.update(i as int, pair.0 as int).update(
                i + 1,
                pair.1 as int,
            ));
        }
        i = i + 1;
    }
    m
}

/// Resample a polyline through a monotone cubic spline.
///
/// `subdiv` is output points per input span, taken as 1 when 0. `out` is
/// cleared first. Fewer than two points are copied as they are.
pub fn resample_monotone(pts: &[Point], subdiv: usize, out: &mut Vec<Point>)
    requires
        drawable(pts@),
        subdiv <= SUBDIV_MAX,
        pts@.len() >= 2 ==> (pts@.len() - 1) * steps(subdiv) + 1 <= usize::MAX,
    ensures
        pts@.len() < 2 ==> final(out)@ == pts@,
        pts@.len() >= 2 ==> resampled(pts@, steps(subdiv), final(out)@),
        pts@.len() >= 2 ==> forall|i: int|
            0 <= i < pts@.len() ==> final(out)@[#[trigger] (i * steps(subdiv))] == pts@[i],
        drawable(final(out)@),
{
    out.clear();
    if pts.len() < 2 {
        if pts.len() == 1 {
            out.push(pts[0]);
        }
        assert(out@ =~= pts@);
        return;
    }
    let n: usize = if subdiv == 0 {
        1
    } else {
        subdiv
    };
    let count: usize = pts.len();
    let m: Vec<i128> = limit_tangents(pts);
    let mut i: usize = 0;
    while i < count - 1
        invariant
            drawable(pts@),
            count == pts@.len() >= 2,
            1 <= n <= SUBDIV_MAX,
            n == steps(subdiv),
            i <= count - 1,
            m@.len() == count,
            forall|j: int| 0 <= j < count ==> #[trigger] m@[j] == tangents(pts@)[j],
            out@.len() == i * n,
            forall|j: int, k: int|
                0 <= j < i && 0 <= k < n ==> {
                    let p = #[trigger] out@[j * n + k];
                    &&& p.x == span_x(pts@[j], pts@[j + 1], k, n as int)
                    &&& p.y == span_y(
                        pts@[j],
                        pts@[j + 1],
                        tangents(pts@)[j],
                        tangents(pts@)[j + 1],
                        k,
                        n as int,
                    )
                },
        decreases count - i,
    {
        let mut k: usize = 0;
        while k < n
            invariant
                drawable(pts@),
                count == pts@.len() >= 2,
                1 <= n <= SUBDIV_MAX,
                n == steps(subdiv),
                i < count - 1,
                k <= n,
                m@.len() == count,
                forall|j: int| 0 <= j < count ==> #[trigger] m@[j] == tangents(pts@)[j],
                out@.len() == i * n + k,
                forall|j: int, l: int|
                    0 <= l < n && ((0 <= j < i) || (j == i && l < k)) ==> {
                        let p = #[trigger] out@[j * n + l];
                        &&& p.x == span_x(pts@[j], pts@[j + 1], l, n as int)
                        &&& p.y == span_y(
                            pts@[j],
                            pts@[j + 1],
                            tangents(pts@)[j],
                            tangents(pts@)[j + 1],
                            l,
                            n as int,
                        )
                    },
            decreases n - k,
        {
            let ghost before = out@;
            let p: Point = span_point(pts, i, m[i], m[i + 1], k, n);
            out.push(p);
            proof {
                assert forall|j: int, l: int|
                    0 <= l < n && ((0 <= j < i) || (j == i && l < k + 1)) implies {
                    let p = #[trigger] out@[j * n + l];
                    &&& p.x == span_x(pts@[j], pts@[j + 1], l, n as int)
                    &&& p.y == span_y(
                        pts@[j],
                        pts@[j + 1],
                        tangents(pts@)[j],
                        tangents(pts@)[j + 1],
                        l,
                        n as int,
                    )
                } by {
                    lemma_slot(i as int, k as int, j, l, n as int);
                    if j < i || l < k {
                        assert(out@[j * n + l] == before[j * n + l]);
                    }
                }
            }
            k = k + 1;
        }
        assert(i * n + n == (i + 1) * n) by (nonlinear_arith);
        i = i + 1;
    }
    let ghost before = out@;
    out.push(pts[count - 1]);
    proof {
        assert forall|j: int, k: int| 0 <= j < count - 1 && 0 <= k < n implies {
            let p = #[trigger] out@[j * n + k];
            &&& p.x == span_x(pts@[j], pts@[j + 1], k, n as int)
            &&& p.y == span_y(
                pts@[j],
                pts@[j + 1],
                tangents(pts@)[j],
                tangents(pts@)[j + 1],
                k,
                n as int,
            )
        } by {
            lemma_slot(count - 1, 0, j, k, n as int);
            assert(out@[j * n + k] == before[j * n + k]);
        }
        assert(resampled(pts@, n as int, out@));
        law_no_overshoot(pts@, n as int, out@);
        law_runs_forward(pts@, n as int, out@);
    }
}

/// Slot `(j, l)` comes before slot `(i, k)` in an array of rows of `n`.
proof fn lemma_slot(i: int, k: int, j: int, l: int, n: int)
    requires
        0 <= l < n,
        0 <= k < n,
        0 <= j,
        0 <= i,
    ensures
        j < i ==> 0 <= j * n + l < i * n + k,
        j == i ==> j * n + l - l == i * n,
        j * n >= 0,
{
    assert(j * n >= 0) by (nonlinear_arith)
        requires
            j >= 0,
            n >= 0,
    ;
    if j < i {
        assert((j + 1) * n <= i * n) by (nonlinear_arith)
            requires
                j + 1 <= i,
                n >= 0,
        ;
        assert((j + 1) * n == j * n + n) by (nonlinear_arith);
    }
}

/// The resampling of `pts` with `n` points per span.
pub open spec fn curve(pts: Seq<Point>, n: int) -> Seq<Point> {
    choose|out: Seq<Point>| resampled(pts, n, out)
}

/// Position `j` of a resampled curve is step `j % n` of span `j / n`.
proof fn lemma_place(j: int, n: int, spans: int)
    requires
        0 <= j < spans * n,
        n >= 1,
    ensures
        0 <= j / n < spans,
        0 <= j % n < n,
        (j / n) * n + j % n == j,
{
    vstd::arithmetic::div_mod::lemma_fundamental_div_mod(j, n);
    vstd::arithmetic::div_mod::lemma_mod_bound(j, n);
    vstd::arithmetic::div_mod::lemma_div_pos_is_pos(j, n);
    let q = j / n;
    assert(q < spans) by (nonlinear_arith)
        requires
            n * q <= j,
            j < spans * n,
            n >= 1,
    ;
    assert(n * q == q * n) by (nonlinear_arith);
}

/// A resampled curve runs forward, as its points do: `x` never decreases.
pub proof fn law_runs_forward(pts: Seq<Point>, n: int, out: Seq<Point>)
    requires
        drawable(pts),
        pts.len() >= 2,
        n >= 1,
        resampled(pts, n, out),
    ensures
        drawable(out),
{
    let spans = pts.len() - 1;
    law_no_overshoot(pts, n, out);
    assert forall|j: int, k: int| 0 <= j <= k < out.len() implies out[j].x <= out[k].x by {
        if j < spans * n {
            lemma_place(j, n, spans);
            let (a, s) = (j / n, j % n);
            assert(out[a * n + s].x <= pts[a + 1].x);
            if k < spans * n {
                lemma_place(k, n, spans);
                let (b, t) = (k / n, k % n);
                vstd::arithmetic::div_mod::lemma_div_is_ordered(j, k, n);
                assert(pts[b].x <= out[b * n + t].x);
                if a < b {
                    assert(pts[a + 1].x <= pts[b].x);
                } else {
                    let w = pts[a + 1].x - pts[a].x;
                    assert(w * s <= w * t) by (nonlinear_arith)
                        requires
                            0 <= w,
                            s <= t,
                    ;
                    vstd::arithmetic::div_mod::lemma_div_is_ordered(w * s, w * t, n);
                    assert(out[a * n + s].x == span_x(pts[a], pts[a + 1], s, n));
                    assert(out[b * n + t].x == span_x(pts[b], pts[b + 1], t, n));
                }
            } else {
                assert(pts[a + 1].x <= pts[spans].x);
            }
        }
    }
}

/// There is only one resampling.
pub proof fn lemma_curve(pts: Seq<Point>, n: int, out: Seq<Point>)
    requires
        pts.len() >= 2,
        n >= 1,
        resampled(pts, n, out),
    ensures
        curve(pts, n) == out,
        resampled(pts, n, curve(pts, n)),
{
    let c = curve(pts, n);
    assert(resampled(pts, n, c));
    let spans = pts.len() - 1;
    assert forall|j: int| 0 <= j < out.len() implies c[j] == out[j] by {
        if j < spans * n {
            lemma_place(j, n, spans);
            assert(c[(j / n) * n + j % n] == out[(j / n) * n + j % n]);
        } else {
            assert(j == out.len() - 1);
        }
    }
    assert(c =~= out);
}

/// Every drawable polyline has a resampling.
pub proof fn lemma_curve_exists(pts: Seq<Point>, n: int)
    requires
        drawable(pts),
        pts.len() >= 2,
        n >= 1,
    ensures
        resampled(pts, n, curve(pts, n)),
{
    let spans = pts.len() - 1;
    let out = Seq::new(
        (spans * n + 1) as nat,
        |j: int|
            if j < spans * n {
                Point {
                    x: span_x(pts[j / n], pts[j / n + 1], j % n, n) as i64,
                    y: span_y(
                        pts[j / n],
                        pts[j / n + 1],
                        tangents(pts)[j / n],
                        tangents(pts)[j / n + 1],
                        j % n,
                        n,
                    ) as i64,
                }
            } else {
                pts.last()
            },
    );
    assert(spans * n >= 0) by (nonlinear_arith)
        requires
            spans >= 0,
            n >= 1,
    ;
    assert forall|i: int, k: int| 0 <= i < spans && 0 <= k < n implies {
        let p = #[trigger] out[i * n + k];
        &&& p.x == span_x(pts[i], pts[i + 1], k, n)
        &&& p.y == span_y(pts[i], pts[i + 1], tangents(pts)[i], tangents(pts)[i + 1], k, n)
    } by {
        let j = i * n + k;
        assert(0 <= j < spans * n) by (nonlinear_arith)
            requires
                j == i * n + k,
                0 <= i,
                i + 1 <= spans,
                0 <= k < n,
        ;
        vstd::arithmetic::div_mod::lemma_fundamental_div_mod_converse(j, n, i, k);
        law_span_monotone(pts, i, 0, k, n);
        law_span_monotone(pts, i, k, n, n);
        lemma_share(pts[i + 1].x - pts[i].x, k, n);
        assert(pts[i].x <= pts[i + 1].x);
    }
    assert(resampled(pts, n, out));
}

/// A resampled curve stays within any bounds its points keep, and its `x` runs
/// from the first point's to the last's.
pub proof fn law_stays_within(pts: Seq<Point>, n: int, lo: int, hi: int)
    requires
        drawable(pts),
        pts.len() >= 2,
        n >= 1,
        forall|i: int| 0 <= i < pts.len() ==> lo <= (#[trigger] pts[i]).y <= hi,
    ensures
        curve(pts, n).len() == (pts.len() - 1) * n + 1,
        forall|j: int|
            0 <= j < curve(pts, n).len() ==> lo <= (#[trigger] curve(pts, n)[j]).y <= hi
                && pts[0].x <= curve(pts, n)[j].x <= pts.last().x,
{
    let out = curve(pts, n);
    let spans = pts.len() - 1;
    lemma_curve_exists(pts, n);
    law_no_overshoot(pts, n, out);
    assert forall|j: int| 0 <= j < out.len() implies lo <= (#[trigger] out[j]).y <= hi && pts[0].x
        <= out[j].x <= pts.last().x by {
        if j < spans * n {
            lemma_place(j, n, spans);
            let i = j / n;
            let k = j % n;
            assert(out[i * n + k] == out[j]);
            assert(lo <= pts[i].y <= hi && lo <= pts[i + 1].y <= hi);
        } else {
            assert(j == out.len() - 1);
        }
    }
}

/// A copy of a list of points.
pub fn copy_points(pts: &Vec<Point>) -> (out: Vec<Point>)
    ensures
        out@ == pts@,
{
    let mut out: Vec<Point> = Vec::with_capacity(pts.len());
    let mut i: usize = 0;
    while i < pts.len()
        invariant
            i <= pts@.len(),
            out@ == pts@.take(i as int),
        decreases pts@.len() - i,
    {
        out.push(pts[i]);
        assert(out@ =~= pts@.take(i + 1));
        i = i + 1;
    }
    assert(pts@.take(pts@.len() as int) =~= pts@);
    out
}

/// A resampled curve passes through every one of its points, `n` steps apart.
pub proof fn law_curve_through(pts: Seq<Point>, n: int, b: int)
    requires
        drawable(pts),
        pts.len() >= 2,
        n >= 1,
        0 <= b < pts.len(),
    ensures
        curve(pts, n).len() == (pts.len() - 1) * n + 1,
        0 <= b * n < curve(pts, n).len(),
        curve(pts, n)[b * n] == pts[b],
{
    lemma_curve_exists(pts, n);
    law_no_overshoot(pts, n, curve(pts, n));
    let spans = pts.len() - 1;
    assert(0 <= b * n <= spans * n) by (nonlinear_arith)
        requires
            0 <= b <= spans,
            n >= 1,
    ;
}

/// The steps of a resampled curve are evenly spaced across, from each point to the
/// next.
pub proof fn law_curve_even(pts: Seq<Point>, n: int, out: Seq<Point>, i: int, k: int)
    requires
        resampled(pts, n, out),
        n >= 1,
        0 <= i < pts.len() - 1,
        0 <= k < n,
    ensures
        0 <= (pts[i + 1].x - pts[i].x) * k - n * (out[i * n + k].x - pts[i].x) < n,
{
    let m = (pts[i + 1].x - pts[i].x) * k;
    assert(out[i * n + k].x == span_x(pts[i], pts[i + 1], k, n));
    vstd::arithmetic::div_mod::lemma_fundamental_div_mod(m, n);
    vstd::arithmetic::div_mod::lemma_mod_bound(m, n);
}

/// Between two points the curve is the cubic that leaves the one and reaches the
/// other along their tangents: at `k` of `n` steps, with `u` left, it has climbed
/// `d k^2 (k + 3 u) + a k u^2 - b k^2 u` cubed steps, where `d` is the climb between
/// the points and `a` and `b` what the tangents would climb over the span. Returns
/// the climb and those two.
pub proof fn law_curve_is_cubic(pts: Seq<Point>, n: int, out: Seq<Point>, i: int, k: int) -> (r: (
    int,
    int,
    int,
))
    requires
        resampled(pts, n, out),
        n >= 1,
        drawable(pts),
        0 <= i < pts.len() - 1,
        0 <= k < n,
    ensures
        ({
            let (climbed, a, b) = r;
            let (p, q) = (pts[i], pts[i + 1]);
            let d = if q.y < p.y {
                p.y - q.y
            } else {
                q.y - p.y
            };
            let w = q.x - p.x;
            let u = n - k;
            let cubic = d * (k * k * (k + 3 * u)) + a * (k * u * u) - b * (k * k * u);
            &&& q.y < p.y ==> out[i * n + k].y == p.y - climbed
            &&& q.y >= p.y ==> out[i * n + k].y == p.y + climbed
            &&& 0 <= cubic - n * n * n * climbed < n * n * n
            &&& 0 <= size(tangents(pts)[i]) * w - 1_000_000_000 * a < 1_000_000_000
            &&& 0 <= size(tangents(pts)[i + 1]) * w - 1_000_000_000 * b < 1_000_000_000
        }),
{
    let (p, q) = (pts[i], pts[i + 1]);
    let (s, t) = (tangents(pts)[i], tangents(pts)[i + 1]);
    let w = q.x - p.x;
    assert(out[i * n + k].y == span_y(p, q, s, t, k, n));
    let (a, b) = (reach(s, w), reach(t, w));
    lemma_reach(s, w);
    lemma_reach(t, w);
    let d = size(q.y - p.y);
    let u = n - k;
    assert(3 * (k * k * n) - 2 * (k * k * k) == k * k * (k + 3 * u)) by (nonlinear_arith)
        requires
            u == n - k,
    ;
    let cubes = n * n * n;
    assert(cubes >= 1) by (nonlinear_arith)
        requires
            cubes == n * n * n,
            n >= 1,
    ;
    let f = rise(d, a, b, k, n);
    assert(k * (n - k) * (n - k) == k * u * u && k * k * (n - k) == k * k * u);
    vstd::arithmetic::div_mod::lemma_fundamental_div_mod(f, cubes);
    vstd::arithmetic::div_mod::lemma_mod_bound(f, cubes);
    (f / cubes, a, b)
}

/// The slope between two points is the climb for each unit of width; points as good
/// as above one another have none.
pub proof fn law_slope(a: Point, b: Point)
    requires
        b.x - a.x > 1,
    ensures
        b.y >= a.y ==> 0 <= 1_000_000_000 * (b.y - a.y) - (b.x - a.x) * slope(a, b) < b.x - a.x,
        b.y <= a.y ==> 0 <= (b.x - a.x) * slope(a, b) - 1_000_000_000 * (b.y - a.y) < b.x - a.x,
{
    let w = b.x - a.x;
    let n = size(b.y - a.y) * ONE;
    vstd::arithmetic::div_mod::lemma_fundamental_div_mod(n, w);
    vstd::arithmetic::div_mod::lemma_mod_bound(n, w);
    let q = n / w;
    assert(w * (-q) == -(w * q)) by (nonlinear_arith);
    if n == 0 {
        assert(q == 0) by (nonlinear_arith)
            requires
                w * q <= 0 < w * q + w,
                w > 1,
        ;
    }
}

/// The curve is level at the peaks and in the troughs of its points, and beside a
/// level span; everywhere else it climbs or falls as the spans beside it do, at most
/// three times as steeply.
pub proof fn law_tangents(pts: Seq<Point>, j: int)
    requires
        drawable(pts),
        pts.len() >= 2,
        0 <= j < pts.len() - 1,
    ensures
        ({
            let (a, b) = (tangents(pts)[j], tangents(pts)[j + 1]);
            let s = span_slope(pts, j);
            &&& tangents(pts).len() == pts.len()
            &&& s == 0 ==> a == 0 && b == 0
            &&& s > 0 ==> 0 <= a <= 3 * s && 0 <= b <= 3 * s
            &&& s < 0 ==> 3 * s <= a <= 0 && 3 * s <= b <= 0
            &&& a * a + b * b <= 9 * (s * s)
            &&& j > 0 && (span_slope(pts, j - 1) >= 0 >= s || span_slope(pts, j - 1) <= 0 <= s)
                ==> a == 0
        }),
{
    let last = pts.len() - 1;
    lemma_tamed(pts, last as nat);
    let m = tangents(pts);
    let s = span_slope(pts, j);
    let (a, b) = (m[j], m[j + 1]);
    assert(inside(s, a, b) && agrees(a, s) && agrees(b, s));
    if j > 0 {
        assert(agrees(m[j - 1], span_slope(pts, j - 1)) && agrees(m[j], span_slope(pts, j - 1)));
    }
    assert(a * a >= 0 && b * b >= 0) by (nonlinear_arith);
    assert(-3 * size(s) <= a <= 3 * size(s)) by (nonlinear_arith)
        requires
            a * a <= 9 * (s * s),
            size(s) == s || size(s) == -s,
            size(s) >= 0,
    ;
    assert(-3 * size(s) <= b <= 3 * size(s)) by (nonlinear_arith)
        requires
            b * b <= 9 * (s * s),
            size(s) == s || size(s) == -s,
            size(s) >= 0,
    ;
}

/// Before it is limited, a tangent is the mean of the slopes beside it where they
/// climb or fall alike, and that of the only span beside it at an end.
pub proof fn law_first_tangents(pts: Seq<Point>, j: int)
    requires
        pts.len() >= 2,
        0 <= j < pts.len(),
    ensures
        j == 0 ==> first_tangent(pts, j) == slope(pts[0], pts[1]),
        j == pts.len() - 1 ==> first_tangent(pts, j) == slope(pts[j - 1], pts[j]),
        0 < j < pts.len() - 1 && same_way(
            slope(pts[j - 1], pts[j]),
            slope(pts[j], pts[j + 1]),
        ) ==> -1 <= slope(pts[j - 1], pts[j]) + slope(pts[j], pts[j + 1]) - 2 * first_tangent(
            pts,
            j,
        ) <= 1,
{
}

/// Tangents that are gentle enough on every span stay as they are.
pub proof fn law_gentle_tangents_stay(pts: Seq<Point>, i: nat, j: int)
    requires
        pts.len() >= 2,
        i <= pts.len() - 1,
        0 <= j < pts.len(),
        forall|k: int|
            0 <= k < pts.len() - 1 ==> inside(
                #[trigger] span_slope(pts, k),
                first_tangent(pts, k),
                first_tangent(pts, k + 1),
            ),
    ensures
        limited(pts, i).len() == pts.len(),
        limited(pts, i)[j] == first_tangent(pts, j),
        i == pts.len() - 1 ==> tangents(pts)[j] == first_tangent(pts, j),
    decreases i,
{
    if i > 0 {
        let k = i - 1;
        law_gentle_tangents_stay(pts, k as nat, k);
        law_gentle_tangents_stay(pts, k as nat, k + 1);
        law_gentle_tangents_stay(pts, k as nat, j);
        let (a, b) = (first_tangent(pts, k), first_tangent(pts, k + 1));
        lemma_half_way(pts, k);
        lemma_half_way(pts, k + 1);
        assert(inside(span_slope(pts, k), a, b));
        assert(limited_pair(span_slope(pts, k), a, b) == (a, b));
    }
}

/// A pair of tangents that is too steep is scaled back, both alike, until the sum of
/// their squares is that of three times the slope.
pub proof fn law_steep_tangents_shrink(s: int, a: int, b: int)
    requires
        s != 0,
        !inside(s, a, b),
    ensures
        ({
            let (x, y) = limited_pair(s, a, b);
            let r = length(a, b);
            &&& r >= 1
            &&& a * a + b * b <= r * r
            &&& size(a) < 0x4000_0000_0000_0000 && size(b) < 0x4000_0000_0000_0000 ==> (r - 1) * (r
                - 1) < a * a + b * b
            &&& 0 <= size(a) * (3 * size(s)) - r * size(x) < r
            &&& 0 <= size(b) * (3 * size(s)) - r * size(y) < r
            &&& x == 0 || same_way(x, a)
            &&& y == 0 || same_way(y, b)
        }),
{
    let r = length(a, b);
    assert(a * a + b * b >= 1) by (nonlinear_arith)
        requires
            a * a + b * b > 9 * (s * s),
    ;
    lemma_length(a, b);
    if size(a) < SHORT && size(b) < SHORT {
        lemma_root_exists(a * a + b * b);
    }
    lemma_scaled_back(a, 3 * size(s), r);
    lemma_scaled_back(b, 3 * size(s), r);
}

proof fn lemma_scaled_back(a: int, num: int, r: int)
    requires
        r >= 1,
        num >= 0,
    ensures
        0 <= size(a) * num - r * size(scaled(a, num, r)) < r,
        scaled(a, num, r) == 0 || same_way(scaled(a, num, r), a),
{
    let n = size(a) * num;
    assert(n >= 0) by (nonlinear_arith)
        requires
            n == size(a) * num,
            size(a) >= 0,
            num >= 0,
    ;
    vstd::arithmetic::div_mod::lemma_fundamental_div_mod(n, r);
    vstd::arithmetic::div_mod::lemma_mod_bound(n, r);
    let q = n / r;
    assert(q >= 0) by (nonlinear_arith)
        requires
            r * q + r > n,
            n >= 0,
            r >= 1,
    ;
    if a == 0 {
        assert(n == 0) by (nonlinear_arith)
            requires
                n == size(a) * num,
                size(a) == 0,
        ;
        assert(q == 0) by (nonlinear_arith)
            requires
                r * q <= 0,
                q >= 0,
                r >= 1,
        ;
    }
}

} // verus!
