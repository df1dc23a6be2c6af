//! The mesh builder.
//!
//! Geometry is emitted as indexed triangles, drawn in a single call with
//! painter's-algorithm ordering: later geometry paints over earlier geometry.
//!
//! Every stroked or outlined edge carries its own one-pixel alpha-feathered
//! fringe: the outline is extruded outward by one pixel to vertices that are
//! fully transparent, and the hardware interpolator produces a smooth coverage
//! ramp across it.
//!
//! Vertex colors are stored premultiplied. A fringe vertex is transparent black,
//! which contributes nothing under either blend mode, and color with zero alpha
//! composites additively; that is how glow layers accumulate. Callers pass
//! ordinary straight-alpha colors.

use crate::color::in_gamut;
use crate::geometry::{
    aspect, aspect_of, encode, encoded, fade, faded, heading, heading_of, join, join_at,
    law_encoded, law_faded, law_step, law_thin_strokes, law_unit, left, left_of, lemma_aspect,
    lemma_join, lemma_step_height, near, normals_of, offset_point, pixel, pixels, point, px,
    resolve_width, resolved, right, right_of, screen_width, short, step_from, stroke_normals, to_px,
    unit, unit_of, CLEAR, MAX_SIDE, MITER_LIMIT, OFFSET_MAX, PI, REACH, WIDTH_MAX,
};
use crate::number::{clamp, clamped, lemma_trunc, lemma_trunc_monotone, mul_div, trunc, ONE};
use crate::spline::Point;
use vstd::prelude::*;

verus! {

/// One corner of a triangle.
#[derive(Clone, Copy, PartialEq, Eq, Debug)]
pub struct Vertex {
    pub position: Point,
    /// Premultiplied RGBA.
    pub color: [i64; 4],
}

/// Accumulates indexed triangles in normalized device coordinates.
///
/// Holds the framebuffer size so widths and radii can be given in pixels, and
/// `turn`, which maps an angle in radians to the cosine and sine of it.
pub struct MeshBuilder<F> {
    pub verts: Vec<Vertex>,
    pub indices: Vec<u32>,
    pub width_px: u32,
    pub height_px: u32,
    pub aspect: i64,
    pub turn: F,
}

/// Indices of the two triangles of a quad.
pub open spec fn quad_of(a: int, b: int, c: int, d: int) -> Seq<u32> {
    seq![a as u32, b as u32, c as u32, a as u32, c as u32, d as u32]
}

/// Largest vertex count the 32-bit indices can address.
pub const VERTS_MAX: usize = 0xFFFF_FFFF;

impl<F: Fn(i64) -> Point> MeshBuilder<F> {
    /// Every triangle is complete and refers to vertices that exist.
    pub open spec fn wf(&self) -> bool {
        &&& 1 <= self.width_px <= MAX_SIDE
        &&& 1 <= self.height_px <= MAX_SIDE
        &&& self.aspect == aspect_of(self.width_px as int, self.height_px as int)
        &&& 1_000_000 <= self.aspect <= 65_536 * ONE
        &&& self.verts@.len() <= VERTS_MAX
        &&& self.indices@.len() % 3 == 0
        &&& forall|i: int|
            0 <= i < self.indices@.len() ==> (#[trigger] self.indices@[i]) < self.verts@.len()
        &&& forall|a: i64| call_requires(self.turn, (a,))
    }

    /// Number of vertices.
    pub open spec fn count(&self) -> int {
        self.verts@.len() as int
    }

    /// Same framebuffer and the same `turn`.
    pub open spec fn same_frame(&self, other: &Self) -> bool {
        &&& self.width_px == other.width_px
        &&& self.height_px == other.height_px
        &&& self.aspect == other.aspect
        &&& self.turn == other.turn
    }

    /// `self` is `before` with `verts` and `indices` appended.
    pub open spec fn extends(&self, before: &Self, verts: Seq<Vertex>, indices: Seq<u32>) -> bool {
        &&& self.same_frame(before)
        &&& self.verts@ == before.verts@ + verts
        &&& self.indices@ == before.indices@ + indices
    }

    /// An empty mesh for a one-pixel framebuffer.
    pub fn new(turn: F) -> (mesh: Self)
        requires
            forall|a: i64| call_requires(turn, (a,)),
        ensures
            mesh.wf(),
            mesh.verts@.len() == 0,
            mesh.indices@.len() == 0,
            mesh.width_px == 1,
            mesh.height_px == 1,
            mesh.turn == turn,
    {
        MeshBuilder {
            verts: Vec::with_capacity(1 << 16),
            indices: Vec::with_capacity(1 << 17),
            width_px: 1,
            height_px: 1,
            aspect: aspect(1, 1),
            turn,
        }
    }

    /// Drop all geometry and set the framebuffer size; a zero side counts as
    /// one pixel.
    pub fn begin(&mut self, width_px: u32, height_px: u32)
        requires
            old(self).wf(),
            width_px <= MAX_SIDE,
            height_px <= MAX_SIDE,
        ensures
            final(self).wf(),
            final(self).verts@.len() == 0,
            final(self).indices@.len() == 0,
            final(self).width_px == (if width_px == 0 {
                1
            } else {
                width_px
            }),
            final(self).height_px == (if height_px == 0 {
                1
            } else {
                height_px
            }),
            final(self).turn == old(self).turn,
    {
        self.verts.clear();
        self.indices.clear();
        self.width_px = if width_px == 0 {
            1
        } else {
            width_px
        };
        self.height_px = if height_px == 0 {
            1
        } else {
            height_px
        };
        self.aspect = aspect(self.width_px, self.height_px);
    }

    /// Vertices so far.
    pub fn vertices(&self) -> (r: &[Vertex])
        ensures
            r@ == self.verts@,
    {
        self.verts.as_slice()
    }

    /// Triangle indices so far.
    pub fn indices(&self) -> (r: &[u32])
        ensures
            r@ == self.indices@,
    {
        self.indices.as_slice()
    }

    /// Width over height.
    pub fn aspect(&self) -> (r: i64)
        ensures
            r == self.aspect,
    {
        self.aspect
    }

    /// Framebuffer size in pixels.
    pub fn size_px(&self) -> (r: (u32, u32))
        ensures
            r == (self.width_px, self.height_px),
    {
        (self.width_px, self.height_px)
    }

    /// NDC-y units per pixel.
    pub fn px(&self) -> (r: i64)
        requires
            self.wf(),
        ensures
            r == pixel(self.height_px as int),
            30_000 <= r <= 2 * ONE,
    {
        px(self.height_px)
    }

    /// Convert a length in NDC-y units to pixels.
    pub fn to_px(&self, units: i64) -> (r: i64)
        requires
            self.wf(),
            -0x4000_0000_0000_0000 <= units * self.height_px <= 0x4000_0000_0000_0000,
        ensures
            r == pixels(units as int, self.height_px as int),
    {
        to_px(units, self.height_px)
    }

    // -- low level ----------------------------------------------------------
    fn push_vertex(&mut self, position: Point, premultiplied: [i64; 4]) -> (i: u32)
        requires
            old(self).wf(),
            old(self).count() < VERTS_MAX,
        ensures
            final(self).wf(),
            final(self).extends(
                old(self),
                seq![Vertex { position, color: premultiplied }],
                Seq::empty(),
            ),
            i == old(self).count(),
    {
        let i: u32 = self.verts.len() as u32;
        self.verts.push(Vertex { position, color: premultiplied });
        assert(self.indices@ =~= old(self).indices@ + Seq::<u32>::empty());
        assert(self.verts@ =~= old(self).verts@ + seq![Vertex { position, color: premultiplied }]);
        i
    }

    fn push_tri(&mut self, a: u32, b: u32, c: u32)
        requires
            old(self).wf(),
            a < old(self).count(),
            b < old(self).count(),
            c < old(self).count(),
        ensures
            final(self).wf(),
            final(self).extends(old(self), Seq::empty(), seq![a, b, c]),
    {
        self.indices.push(a);
        self.indices.push(b);
        self.indices.push(c);
        assert(self.verts@ =~= old(self).verts@ + Seq::<Vertex>::empty());
        assert(self.indices@ =~= old(self).indices@ + seq![a, b, c]);
    }

    fn push_quad(&mut self, a: u32, b: u32, c: u32, d: u32)
        requires
            old(self).wf(),
            a < old(self).count(),
            b < old(self).count(),
            c < old(self).count(),
            d < old(self).count(),
        ensures
            final(self).wf(),
            final(self).extends(
                old(self),
                Seq::empty(),
                quad_of(a as int, b as int, c as int, d as int),
            ),
    {
        self.push_tri(a, b, c);
        self.push_tri(a, c, d);
        assert(self.verts@ =~= old(self).verts@ + Seq::<Vertex>::empty());
        assert(self.indices@ =~= old(self).indices@ + quad_of(
            a as int,
            b as int,
            c as int,
            d as int,
        ));
    }

    /// A flat triangle.
    pub fn tri(&mut self, a: Point, b: Point, c: Point, color: [i64; 4])
        requires
            old(self).wf(),
            old(self).count() + 3 <= VERTS_MAX,
            in_gamut(color@),
        ensures
            final(self).wf(),
            final(self).extends(
                old(self),
                seq![
                    Vertex { position: a, color: encoded(color, false) },
                    Vertex { position: b, color: encoded(color, false) },
                    Vertex { position: c, color: encoded(color, false) },
                ],
                seq![
                    old(self).count() as u32,
                    (old(self).count() + 1) as u32,
                    (old(self).count() + 2) as u32,
                ],
            ),
    {
        let c4: [i64; 4] = encode(color, false);
        let ia: u32 = self.push_vertex(a, c4);
        let ib: u32 = self.push_vertex(b, c4);
        let ic: u32 = self.push_vertex(c, c4);
        self.push_tri(ia, ib, ic);
        assert(self.verts@ =~= old(self).verts@ + seq![
            Vertex { position: a, color: c4 },
            Vertex { position: b, color: c4 },
            Vertex { position: c, color: c4 },
        ]);
        assert(self.indices@ =~= old(self).indices@ + seq![ia, ib, ic]);
    }

    /// A flat quad.
    pub fn quad(&mut self, p0: Point, p1: Point, p2: Point, p3: Point, color: [i64; 4])
        requires
            old(self).wf(),
            old(self).count() + 4 <= VERTS_MAX,
            in_gamut(color@),
        ensures
            final(self).wf(),
            final(self).extends(
                old(self),
                quad_vertices(p0, p1, p2, p3, encoded(color, false)),
                quad_of(
                    old(self).count(),
                    old(self).count() + 1,
                    old(self).count() + 2,
                    old(self).count() + 3,
                ),
            ),
    {
        let c4: [i64; 4] = encode(color, false);
        let a: u32 = self.push_vertex(p0, c4);
        let b: u32 = self.push_vertex(p1, c4);
        let c: u32 = self.push_vertex(p2, c4);
        let d: u32 = self.push_vertex(p3, c4);
        self.push_quad(a, b, c, d);
        assert(self.verts@ =~= old(self).verts@ + quad_vertices(p0, p1, p2, p3, c4));
        assert(self.indices@ =~= old(self).indices@ + quad_of(
            a as int,
            b as int,
            c as int,
            d as int,
        ));
    }

    /// Hard-edged axis-aligned rectangle, for content that wants crisp
    /// pixel-snapped edges rather than a feathered ramp.
    pub fn rect(&mut self, x0: i64, y0: i64, x1: i64, y1: i64, color: [i64; 4])
        requires
            old(self).wf(),
            old(self).count() + 4 <= VERTS_MAX,
            in_gamut(color@),
        ensures
            final(self).wf(),
            final(self).extends(
                old(self),
                rect_vertices(x0 as int, y0 as int, x1 as int, y1 as int, color),
                quad_of(
                    old(self).count(),
                    old(self).count() + 1,
                    old(self).count() + 2,
                    old(self).count() + 3,
                ),
            ),
    {
        self.quad(
            Point { x: x0, y: y1 },
            Point { x: x1, y: y1 },
            Point { x: x1, y: y0 },
            Point { x: x0, y: y0 },
            color,
        );
    }
}

/// Four corners of one color.
pub open spec fn quad_vertices(
    p0: Point,
    p1: Point,
    p2: Point,
    p3: Point,
    color: [i64; 4],
) -> Seq<Vertex> {
    seq![
        Vertex { position: p0, color },
        Vertex { position: p1, color },
        Vertex { position: p2, color },
        Vertex { position: p3, color },
    ]
}

/// Corners of a flat rectangle, clockwise from the top left.
pub open spec fn rect_vertices(x0: int, y0: int, x1: int, y1: int, color: [i64; 4]) -> Seq<Vertex> {
    quad_vertices(
        point(x0, y1),
        point(x1, y1),
        point(x1, y0),
        point(x0, y0),
        encoded(color, false),
    )
}

// -- index patterns ---------------------------------------------------------
/// Index `j` of the six of a quad.
pub open spec fn quad_corner(a: int, b: int, c: int, d: int, j: int) -> int {
    if j == 0 || j == 3 {
        a
    } else if j == 1 {
        b
    } else if j == 2 || j == 4 {
        c
    } else {
        d
    }
}

/// Indices of a strip of `spans` quads over vertex pairs starting at `first`.
pub open spec fn strip_indices(first: int, spans: int) -> Seq<u32> {
    Seq::new(
        (6 * spans) as nat,
        |k: int|
            {
                let a = first + 2 * (k / 6);
                quad_corner(a, a + 2, a + 3, a + 1, k % 6) as u32
            },
    )
}

/// Indices of `steps` wedges around `center`, each a core triangle and a fringe
/// quad, over `n` core-and-fringe vertex pairs starting at `first`.
pub open spec fn fan_indices(center: int, first: int, steps: int, n: int) -> Seq<u32> {
    Seq::new((9 * steps) as nat, |k: int| fan_index(center, first, n, k / 9, k % 9) as u32)
}

/// Index `j` of the nine of wedge `i`.
pub open spec fn fan_index(center: int, first: int, n: int, i: int, j: int) -> int {
    let a = first + 2 * i;
    let b = first + 2 * (if i + 1 == n {
        0
    } else {
        i + 1
    });
    if j == 0 {
        center
    } else if j == 1 {
        a
    } else if j == 2 {
        b
    } else {
        quad_corner(a, b, b + 1, a + 1, j - 3)
    }
}

/// Indices of the ribbon between ribs of four, three quads per span.
pub open spec fn ribbon_indices(first: int, spans: int) -> Seq<u32> {
    Seq::new((18 * spans) as nat, |k: int| ribbon_index(first, k / 18, (k % 18) / 6, k % 6) as u32)
}

/// Index `j` of quad `q` of span `w`: rib `w` on one side, rib `w + 1` on the
/// other.
pub open spec fn ribbon_index(first: int, w: int, q: int, j: int) -> int {
    let a = first + 4 * w + q;
    quad_corner(a, a + 1, a + 5, a + 4, j)
}

proof fn lemma_strip_step(first: int, spans: int)
    requires
        0 <= spans,
    ensures
        strip_indices(first, spans + 1) == strip_indices(first, spans) + quad_of(
            first + 2 * spans,
            first + 2 * spans + 2,
            first + 2 * spans + 3,
            first + 2 * spans + 1,
        ),
{
    let a = first + 2 * spans;
    let l = strip_indices(first, spans + 1);
    let r = strip_indices(first, spans) + quad_of(a, a + 2, a + 3, a + 1);
    assert(l.len() == r.len());
    assert forall|k: int| 0 <= k < l.len() implies l[k] == r[k] by {
        if k >= 6 * spans {
            assert(k / 6 == spans && k % 6 == k - 6 * spans);
        }
    }
    assert(l =~= r);
}

proof fn lemma_fan_step(center: int, first: int, steps: int, n: int)
    requires
        0 <= steps < n,
    ensures
        ({
            let a = first + 2 * steps;
            let b = first + 2 * (if steps + 1 == n {
                0
            } else {
                steps + 1
            });
            fan_indices(center, first, steps + 1, n) == fan_indices(center, first, steps, n) + seq![
                center as u32,
                a as u32,
                b as u32,
            ] + quad_of(a, b, b + 1, a + 1)
        }),
{
    let a = first + 2 * steps;
    let b = first + 2 * (if steps + 1 == n {
        0
    } else {
        steps + 1
    });
    let l = fan_indices(center, first, steps + 1, n);
    let r = fan_indices(center, first, steps, n) + seq![center as u32, a as u32, b as u32]
        + quad_of(a, b, b + 1, a + 1);
    assert(l.len() == r.len());
    assert forall|k: int| 0 <= k < l.len() implies l[k] == r[k] by {
        if k >= 9 * steps {
            assert(k / 9 == steps && k % 9 == k - 9 * steps);
        }
    }
    assert(l =~= r);
}

proof fn lemma_ribbon_step(first: int, spans: int)
    requires
        0 <= spans,
    ensures
        ({
            let a = first + 4 * spans;
            ribbon_indices(first, spans + 1) == ribbon_indices(first, spans) + quad_of(
                a,
                a + 1,
                a + 5,
                a + 4,
            ) + quad_of(a + 1, a + 2, a + 6, a + 5) + quad_of(a + 2, a + 3, a + 7, a + 6)
        }),
{
    let a = first + 4 * spans;
    let l = ribbon_indices(first, spans + 1);
    let r = ribbon_indices(first, spans) + quad_of(a, a + 1, a + 5, a + 4) + quad_of(
        a + 1,
        a + 2,
        a + 6,
        a + 5,
    ) + quad_of(a + 2, a + 3, a + 7, a + 6);
    assert(l.len() == r.len());
    assert forall|k: int| 0 <= k < l.len() implies l[k] == r[k] by {
        if k >= 18 * spans {
            let m = k - 18 * spans;
            assert(k / 18 == spans && k % 18 == m);
            if m < 6 {
                assert(m / 6 == 0 && k % 6 == m);
            } else if m < 12 {
                assert(m / 6 == 1 && k % 6 == m - 6);
            } else {
                assert(m / 6 == 2 && k % 6 == m - 12);
            }
        }
    }
    assert(l =~= r);
}

/// Consecutive spans of a stroke share the four vertices of the rib between
/// them, so nothing overlaps at a joint and no alpha blends twice there.
pub proof fn law_joints_share_vertices(first: int, w: int, q: int)
    requires
        0 <= w,
        0 <= q < 3,
    ensures
        ribbon_index(first, w, q, 5) == ribbon_index(first, w + 1, q, 0),
        ribbon_index(first, w, q, 2) == ribbon_index(first, w + 1, q, 1),
{
}

/// Neighbouring quads of a filled strip share an edge's vertices, so there is
/// no seam between them.
pub proof fn law_strip_shares_vertices(first: int, spans: int, w: int)
    requires
        0 <= w,
        w + 1 < spans,
        0 <= first,
        first + 2 * spans + 2 <= u32::MAX,
    ensures
        strip_indices(first, spans)[6 * w + 1] == strip_indices(first, spans)[6 * (w + 1)],
        strip_indices(first, spans)[6 * w + 2] == strip_indices(first, spans)[6 * (w + 1) + 5],
{
    assert((6 * w + 1) / 6 == w && (6 * w + 1) % 6 == 1);
    assert((6 * w + 2) / 6 == w && (6 * w + 2) % 6 == 2);
    assert((6 * (w + 1)) / 6 == w + 1 && (6 * (w + 1)) % 6 == 0);
    assert((6 * (w + 1) + 5) / 6 == w + 1 && (6 * (w + 1) + 5) % 6 == 5);
}

// -- fills under a curve ----------------------------------------------------
/// Vertices of a fill between a curve and a baseline.
pub open spec fn under_vertices(
    pts: Seq<Point>,
    baseline: int,
    colors: Seq<[i64; 4]>,
) -> Seq<Vertex> {
    Seq::new(
        2 * pts.len(),
        |k: int|
            Vertex {
                position: if k % 2 == 0 {
                    pts[k / 2]
                } else {
                    point(pts[k / 2].x as int, baseline)
                },
                color: encoded(colors[k / 2], false),
            },
    )
}

impl<F: Fn(i64) -> Point> MeshBuilder<F> {
    /// Fill between a curve and a horizontal baseline as one connected strip,
    /// with one color per point. Fewer than two points draw nothing.
    ///
    /// Deliberately not feathered: every caller either strokes the same curve
    /// over this fill's top edge or butts it against another fill.
    pub fn fill_under(&mut self, pts: &[Point], baseline: i64, colors: &[[i64; 4]])
        requires
            old(self).wf(),
            colors@.len() == pts@.len(),
            forall|i: int| 0 <= i < colors@.len() ==> in_gamut((#[trigger] colors@[i])@),
            old(self).count() + 2 * pts@.len() <= VERTS_MAX,
        ensures
            final(self).wf(),
            pts@.len() < 2 ==> final(self).extends(old(self), Seq::empty(), Seq::empty()),
            pts@.len() >= 2 ==> final(self).extends(
                old(self),
                under_vertices(pts@, baseline as int, colors@),
                strip_indices(old(self).count(), pts@.len() - 1),
            ),
    {
        let n: usize = pts.len();
        if n < 2 {
            assert(self.verts@ =~= old(self).verts@ + Seq::<Vertex>::empty());
            assert(self.indices@ =~= old(self).indices@ + Seq::<u32>::empty());
            return;
        }
        let first: u32 = self.verts.len() as u32;
        let ghost all = under_vertices(pts@, baseline as int, colors@);
        let mut i: usize = 0;
        assert(self.verts@ =~= old(self).verts@ + all.take(0));
        while i < n
            invariant
                self.wf(),
                n == pts@.len(),
                i <= n,
                colors@.len() == pts@.len(),
                forall|i: int| 0 <= i < colors@.len() ==> in_gamut((#[trigger] colors@[i])@),
                old(self).count() + 2 * pts@.len() <= VERTS_MAX,
                all == under_vertices(pts@, baseline as int, colors@),
                self.same_frame(old(self)),
                self.verts@ == old(self).verts@ + all.take(2 * i),
                self.indices@ == old(self).indices@,
            decreases n - i,
        {
            let c: [i64; 4] = encode(colors[i], false);
            self.push_vertex(pts[i], c);
            self.push_vertex(Point { x: pts[i].x, y: baseline }, c);
            proof {
                assert((2 * i) / 2 == i && (2 * i) % 2 == 0);
                assert((2 * i + 1) / 2 == i && (2 * i + 1) % 2 == 1);
                assert(all.take(2 * (i + 1)) =~= all.take(2 * i).push(all[2 * i]).push(
                    all[2 * i + 1],
                ));
            }
            assert(self.verts@ =~= old(self).verts@ + all.take(2 * (i + 1)));
            assert(self.indices@ =~= old(self).indices@);
            i = i + 1;
        }
        assert(all.take(2 * n) =~= all);
        let mut w: usize = 0;
        assert(self.indices@ =~= old(self).indices@ + strip_indices(first as int, 0));
        while w < n - 1
            invariant
                self.wf(),
                2 <= n == pts@.len(),
                w <= n - 1,
                first == old(self).count(),
                old(self).count() + 2 * pts@.len() <= VERTS_MAX,
                all.len() == 2 * n,
                self.same_frame(old(self)),
                self.verts@ == old(self).verts@ + all,
                self.indices@ == old(self).indices@ + strip_indices(first as int, w as int),
            decreases n - w,
        {
            let a: u32 = first + w as u32 * 2;
            let b: u32 = a + 2;
            self.push_quad(a, b, b + 1, a + 1);
            proof {
                lemma_strip_step(first as int, w as int);
            }
            assert(self.verts@ =~= old(self).verts@ + all);
            assert(self.indices@ =~= old(self).indices@ + strip_indices(first as int, w + 1));
            w = w + 1;
        }
    }
}

// -- arcs -------------------------------------------------------------------
/// `u` is what `turn` gives for `angle`, limited to the unit square.
pub open spec fn turned<F: Fn(i64) -> Point>(turn: F, angle: int, u: Point) -> bool {
    exists|raw: Point|
        #![trigger call_ensures(turn, (angle as i64,), raw)]
        call_ensures(turn, (angle as i64,), raw) && u == limited_direction(raw)
}

/// A direction limited to the unit square.
pub open spec fn limited_direction(raw: Point) -> Point {
    point(clamped(raw.x as int, -ONE as int, ONE as int), clamped(
        raw.y as int,
        -ONE as int,
        ONE as int,
    ))
}

/// Angle of step `k` of an arc.
pub open spec fn arc_angle(start: int, span: int, slices: int, k: int) -> int {
    start + trunc(span * k, slices)
}

/// `arc` holds the directions at `slices + 1` evenly spaced angles.
pub open spec fn swept<F: Fn(i64) -> Point>(
    turn: F,
    start: int,
    span: int,
    slices: int,
    arc: Seq<Point>,
) -> bool {
    &&& arc.len() == slices + 1
    &&& forall|k: int|
        0 <= k <= slices ==> turned(turn, arc_angle(start, span, slices, k), #[trigger] arc[k])
    &&& forall|k: int| 0 <= k <= slices ==> short(#[trigger] arc[k])
}

/// Points at distance `r` from `center` in the directions of an arc.
pub open spec fn arc_points(center: Point, r: int, aspect: int, arc: Seq<Point>) -> Seq<Point> {
    Seq::new(arc.len(), |k: int| offset_point(center, arc[k], r, aspect))
}

/// Largest angle handed to `turn`.
pub const ANGLE_MAX: i64 = 0x1000_0000_0000_0000;

impl<F: Fn(i64) -> Point> MeshBuilder<F> {
    fn direction(&self, angle: i64) -> (u: Point)
        requires
            self.wf(),
        ensures
            turned(self.turn, angle as int, u),
            short(u),
    {
        let turn: &F = &self.turn;
        let raw: Point = turn(angle);
        let u: Point = Point { x: clamp(raw.x, -ONE, ONE), y: clamp(raw.y, -ONE, ONE) };
        assert(call_ensures(self.turn, ((angle as int) as i64,), raw));
        assert(u == limited_direction(raw));
        u
    }

    fn sweep(&self, start: i64, span: i64, slices: usize) -> (arc: Vec<Point>)
        requires
            self.wf(),
            1 <= slices <= 4096,
            -ANGLE_MAX <= start <= ANGLE_MAX,
            -0x2_0000_0000 <= span <= 0x2_0000_0000,
        ensures
            swept(self.turn, start as int, span as int, slices as int, arc@),
    {
        let mut arc: Vec<Point> = Vec::with_capacity(slices + 1);
        let mut k: usize = 0;
        while k <= slices
            invariant
                self.wf(),
                1 <= slices <= 4096,
                k <= slices + 1,
                -ANGLE_MAX <= start <= ANGLE_MAX,
                -0x2_0000_0000 <= span <= 0x2_0000_0000,
                arc@.len() == k,
                forall|j: int|
                    0 <= j < k ==> turned(
                        self.turn,
                        arc_angle(start as int, span as int, slices as int, j),
                        #[trigger] arc@[j],
                    ),
                forall|j: int| 0 <= j < k ==> short(#[trigger] arc@[j]),
            decreases slices + 1 - k,
        {
            proof {
                assert(-0x2_0000_0000 * slices <= span * k <= 0x2_0000_0000 * slices)
                    by (nonlinear_arith)
                    requires
                        -0x2_0000_0000 <= span <= 0x2_0000_0000,
                        0 <= k <= slices,
                ;
                lemma_trunc(span * k, slices as int, 0x2_0000_0000);
            }
            let angle: i64 = start + mul_div(span, k as i64, slices as i64);
            arc.push(self.direction(angle));
            k = k + 1;
        }
        arc
    }

    /// Point on a circle of radius `r` (NDC-y units) around `center`,
    /// aspect-corrected so it stays round on a non-square window.
    pub fn polar(&self, center: Point, r: i64, angle: i64) -> (p: Point)
        requires
            self.wf(),
            near(center),
            -OFFSET_MAX <= r <= OFFSET_MAX,
        ensures
            exists|u: Point|
                #![trigger turned(self.turn, angle as int, u)]
                turned(self.turn, angle as int, u) && short(u) && p == offset_point(
                    center,
                    u,
                    r as int,
                    self.aspect as int,
                ),
    {
        let u: Point = self.direction(angle);
        step_from(center, u, r, self.aspect)
    }
}

// -- feathered convex fills -------------------------------------------------
/// Sum of the first `n` x coordinates.
pub open spec fn sum_x(pts: Seq<Point>, n: int) -> int
    decreases n,
{
    if n <= 0 {
        0
    } else {
        sum_x(pts, n - 1) + pts[n - 1].x
    }
}

/// Sum of the first `n` y coordinates.
pub open spec fn sum_y(pts: Seq<Point>, n: int) -> int
    decreases n,
{
    if n <= 0 {
        0
    } else {
        sum_y(pts, n - 1) + pts[n - 1].y
    }
}

/// Mean of an outline's points.
pub open spec fn centroid(pts: Seq<Point>) -> Point {
    point(
        trunc(sum_x(pts, pts.len() as int), pts.len() as int),
        trunc(sum_y(pts, pts.len() as int), pts.len() as int),
    )
}

/// Point after `i`, wrapping around.
pub open spec fn after(pts: Seq<Point>, i: int) -> Point {
    if i + 1 == pts.len() {
        pts[0]
    } else {
        pts[i + 1]
    }
}

/// Point before `i`, wrapping around.
pub open spec fn before(pts: Seq<Point>, i: int) -> Point {
    if i == 0 {
        pts[pts.len() - 1]
    } else {
        pts[i - 1]
    }
}

/// Outward direction at point `i` of a counter-clockwise outline: the
/// normalized sum of the two adjacent edge normals.
pub open spec fn outward(pts: Seq<Point>, aspect: int, i: int) -> Point {
    let e0 = right(heading(before(pts, i), pts[i], aspect));
    let e1 = right(heading(pts[i], after(pts, i), aspect));
    let u = unit(e0.x + e1.x, e0.y + e1.y);
    if u == point(0, 0) {
        e1
    } else {
        u
    }
}

/// Vertices of a feathered fill: the center, then core and fringe per point.
pub open spec fn outline_vertices(
    pts: Seq<Point>,
    core: [i64; 4],
    aspect: int,
    feather: int,
) -> Seq<Vertex> {
    Seq::new(
        1 + 2 * pts.len(),
        |k: int|
            if k == 0 {
                Vertex { position: centroid(pts), color: core }
            } else if k % 2 == 1 {
                Vertex { position: pts[k / 2], color: core }
            } else {
                Vertex {
                    position: offset_point(
                        pts[k / 2 - 1],
                        outward(pts, aspect, k / 2 - 1),
                        feather,
                        aspect,
                    ),
                    color: CLEAR,
                }
            },
    )
}

/// Largest outline.
pub const OUTLINE_MAX: usize = 65_536;

fn centroid_of(pts: &[Point]) -> (c: Point)
    requires
        1 <= pts@.len() <= OUTLINE_MAX,
        forall|i: int| 0 <= i < pts@.len() ==> near(#[trigger] pts@[i]),
    ensures
        c == centroid(pts@),
{
    let n: usize = pts.len();
    let mut x: i64 = 0;
    let mut y: i64 = 0;
    let mut i: usize = 0;
    while i < n
        invariant
            n == pts@.len(),
            i <= n <= OUTLINE_MAX,
            forall|i: int| 0 <= i < pts@.len() ==> near(#[trigger] pts@[i]),
            x == sum_x(pts@, i as int),
            y == sum_y(pts@, i as int),
            -2_000_000_000_000 * i <= x <= 2_000_000_000_000 * i,
            -2_000_000_000_000 * i <= y <= 2_000_000_000_000 * i,
        decreases n - i,
    {
        assert(near(pts@[i as int]));
        x = x + pts[i].x;
        y = y + pts[i].y;
        i = i + 1;
    }
    Point { x: mul_div(x, 1, n as i64), y: mul_div(y, 1, n as i64) }
}

/// Outward direction at point `i` of an outline.
fn outward_of(pts: &[Point], aspect: i64, i: usize) -> (u: Point)
    requires
        3 <= pts@.len(),
        i < pts@.len(),
        forall|j: int| 0 <= j < pts@.len() ==> near(#[trigger] pts@[j]),
        1_000_000 <= aspect <= 65_536 * ONE,
    ensures
        u == outward(pts@, aspect as int, i as int),
        short(u),
{
    let n: usize = pts.len();
    let prev: Point = if i == 0 {
        pts[n - 1]
    } else {
        pts[i - 1]
    };
    let next: Point = if i + 1 == n {
        pts[0]
    } else {
        pts[i + 1]
    };
    let cur: Point = pts[i];
    let e0: Point = right_of(heading_of(prev, cur, aspect));
    let e1: Point = right_of(heading_of(cur, next, aspect));
    let u: Point = unit_of(e0.x + e1.x, e0.y + e1.y);
    if u.x == 0 && u.y == 0 {
        e1
    } else {
        u
    }
}

impl<F: Fn(i64) -> Point> MeshBuilder<F> {
    /// Fill a convex outline, with a one-pixel alpha ramp around its perimeter.
    /// Fewer than three points draw nothing.
    ///
    /// `outline` is counter-clockwise and convex; the core is a triangle fan
    /// from the centroid.
    pub fn fill_outline(&mut self, outline: &[Point], color: [i64; 4], additive: bool)
        requires
            old(self).wf(),
            in_gamut(color@),
            outline@.len() <= OUTLINE_MAX,
            forall|i: int| 0 <= i < outline@.len() ==> near(#[trigger] outline@[i]),
            old(self).count() + 1 + 2 * outline@.len() <= VERTS_MAX,
        ensures
            final(self).wf(),
            outline@.len() < 3 ==> final(self).extends(old(self), Seq::empty(), Seq::empty()),
            outline@.len() >= 3 ==> final(self).extends(
                old(self),
                outline_vertices(
                    outline@,
                    encoded(color, additive),
                    old(self).aspect as int,
                    pixel(old(self).height_px as int),
                ),
                fan_indices(
                    old(self).count(),
                    old(self).count() + 1,
                    outline@.len() as int,
                    outline@.len() as int,
                ),
            ),
    {
        let n: usize = outline.len();
        if n < 3 {
            assert(self.verts@ =~= old(self).verts@ + Seq::<Vertex>::empty());
            assert(self.indices@ =~= old(self).indices@ + Seq::<u32>::empty());
            return;
        }
        let core: [i64; 4] = encode(color, additive);
        let feather: i64 = self.px();
        let aspect: i64 = self.aspect;
        let ghost all = outline_vertices(outline@, core, aspect as int, feather as int);
        let center: u32 = self.push_vertex(centroid_of(outline), core);
        let first: u32 = self.verts.len() as u32;
        assert(self.verts@ =~= old(self).verts@ + all.take(1));
        assert(self.indices@ =~= old(self).indices@);
        let mut i: usize = 0;
        while i < n
            invariant
                self.wf(),
                3 <= n == outline@.len(),
                n <= OUTLINE_MAX,
                i <= n,
                forall|i: int| 0 <= i < outline@.len() ==> near(#[trigger] outline@[i]),
                old(self).count() + 1 + 2 * outline@.len() <= VERTS_MAX,
                1_000_000 <= aspect <= 65_536 * ONE,
                30_000 <= feather <= 2 * ONE,
                all == outline_vertices(outline@, core, aspect as int, feather as int),
                self.same_frame(old(self)),
                self.verts@ == old(self).verts@ + all.take(1 + 2 * i),
                self.indices@ == old(self).indices@,
            decreases n - i,
        {
            let out: Point = outward_of(outline, aspect, i);
            self.push_vertex(outline[i], core);
            self.push_vertex(step_from(outline[i], out, feather, aspect), CLEAR);
            proof {
                assert((2 * i + 1) / 2 == i && (2 * i + 1) % 2 == 1);
                assert((2 * i + 2) / 2 == i + 1 && (2 * i + 2) % 2 == 0);
                assert(all.take(1 + 2 * (i + 1)) =~= all.take(1 + 2 * i).push(
                    all[1 + 2 * i],
                ).push(all[2 + 2 * i]));
            }
            assert(self.verts@ =~= old(self).verts@ + all.take(1 + 2 * (i + 1)));
            assert(self.indices@ =~= old(self).indices@);
            i = i + 1;
        }
        assert(all.take(1 + 2 * n) =~= all);
        assert(self.indices@ =~= old(self).indices@ + fan_indices(
            center as int,
            first as int,
            0,
            n as int,
        ));
        let mut w: usize = 0;
        while w < n
            invariant
                self.wf(),
                3 <= n == outline@.len(),
                w <= n,
                center == old(self).count(),
                first == center + 1,
                old(self).count() + 1 + 2 * outline@.len() <= VERTS_MAX,
                all.len() == 1 + 2 * n,
                self.same_frame(old(self)),
                self.verts@ == old(self).verts@ + all,
                self.indices@ == old(self).indices@ + fan_indices(
                    center as int,
                    first as int,
                    w as int,
                    n as int,
                ),
            decreases n - w,
        {
            let a: u32 = first + w as u32 * 2;
            let next: usize = if w + 1 == n {
                0
            } else {
                w + 1
            };
            let b: u32 = first + next as u32 * 2;
            self.push_tri(center, a, b);
            self.push_quad(a, b, b + 1, a + 1);
            proof {
                lemma_fan_step(center as int, first as int, w as int, n as int);
            }
            assert(self.verts@ =~= old(self).verts@ + all);
            assert(self.indices@ =~= old(self).indices@ + fan_indices(
                center as int,
                first as int,
                w + 1,
                n as int,
            ));
            w = w + 1;
        }
    }
}

// -- rounded rectangles -----------------------------------------------------
/// A quarter turn, in radians.
pub const HALF_PI: i64 = 1_570_796_327;

/// Chords needed to keep `len` pixels of half-turn arc under the visible facet
/// size, before limiting.
pub open spec fn arc_steps(len: int) -> int {
    (PI * len + 4_999_999_999_999_999_999) / 5_000_000_000_000_000_000
}

/// Chords per rounded corner.
pub open spec fn corner_slices(r_px: int) -> int {
    clamped(arc_steps(r_px), 1, 8)
}

/// Chords per round cap.
pub open spec fn cap_slices(geo_px: int) -> int {
    clamped(arc_steps(geo_px), 2, 16)
}

fn arc_steps_of(len: i64, lo: i64, hi: i64) -> (r: usize)
    requires
        0 <= len <= 0x2000_0000_0000_0000,
        0 <= lo <= hi <= 1000,
    ensures
        r == clamped(arc_steps(len as int), lo as int, hi as int),
{
    assert(0 <= PI * len <= 3_141_592_654 * 0x2000_0000_0000_0000) by (nonlinear_arith)
        requires
            0 <= len <= 0x2000_0000_0000_0000,
            PI == 3_141_592_654,
    ;
    let n: u128 = (PI as u128 * len as u128 + 4_999_999_999_999_999_999)
        / 5_000_000_000_000_000_000;
    clamp(n as i64, lo, hi) as usize
}

/// Corner radius of a rounded rectangle `dx` by `dy`, in pixels: limited to
/// half the shorter side, so a short bar collapses to a stadium shape instead
/// of self-intersecting.
pub open spec fn corner_px(dx: int, dy: int, radius_px: int, aspect: int, height: int) -> int {
    let w = pixels(screen_width(dx, aspect), height) / 2;
    let h = pixels(dy, height) / 2;
    let r = if radius_px < w {
        radius_px
    } else {
        w
    };
    let r = if r < h {
        r
    } else {
        h
    };
    if r < 0 {
        0
    } else {
        r
    }
}

/// A length in pixels, in NDC-y units.
pub open spec fn ndc(px_len: int, height: int) -> int {
    trunc(px_len * pixel(height), ONE as int)
}

/// Outline of a rounded rectangle from the arcs of its corners,
/// counter-clockwise from the bottom right.
pub open spec fn round_outline(
    x0: int,
    y0: int,
    x1: int,
    y1: int,
    r: int,
    aspect: int,
    arcs: Seq<Seq<Point>>,
) -> Seq<Point> {
    let inset = trunc(r * ONE, aspect);
    arc_points(point(x1 - inset, y0 + r), r, aspect, arcs[0]) + arc_points(
        point(x1 - inset, y1 - r),
        r,
        aspect,
        arcs[1],
    ) + arc_points(point(x0 + inset, y1 - r), r, aspect, arcs[2]) + arc_points(
        point(x0 + inset, y0 + r),
        r,
        aspect,
        arcs[3],
    )
}

/// `arcs` are the four quarter turns of a rounded rectangle's corners.
pub open spec fn corner_arcs<F: Fn(i64) -> Point>(
    turn: F,
    slices: int,
    arcs: Seq<Seq<Point>>,
) -> bool {
    &&& arcs.len() == 4
    &&& swept(turn, -HALF_PI as int, HALF_PI as int, slices, arcs[0])
    &&& swept(turn, 0, HALF_PI as int, slices, arcs[1])
    &&& swept(turn, HALF_PI as int, HALF_PI as int, slices, arcs[2])
    &&& swept(turn, PI as int, HALF_PI as int, slices, arcs[3])
}

/// The rounded corners fit: twice the radius fits both sides on screen.
proof fn lemma_corner_fits(dx: int, dy: int, radius_px: int, width: int, height: int)
    requires
        0 <= dx <= 2 * REACH,
        0 <= dy <= 2 * REACH,
        1 <= width <= MAX_SIDE,
        1 <= height <= MAX_SIDE,
    ensures
        ({
            let aspect = aspect_of(width, height);
            let r_px = corner_px(dx, dy, radius_px, aspect, height);
            let r = ndc(r_px, height);
            &&& 0 <= r_px <= 0x100_0000_0000_0000
            &&& 0 <= r <= REACH
            &&& 2 * r <= dy
            &&& 0 <= trunc(r * ONE, aspect)
            &&& 2 * trunc(r * ONE, aspect) <= dx
        }),
{
    let aspect = aspect_of(width, height);
    lemma_aspect(width, height);
    let one = 1_000_000_000int;
    let sw = screen_width(dx, aspect);
    let p = dx * aspect;
    assert(0 <= p) by (nonlinear_arith)
        requires
            p == dx * aspect,
            0 <= dx,
            0 <= aspect,
    ;
    assert(0 <= sw && sw * one <= p);
    let wh = sw * height;
    assert(0 <= wh && wh * one <= p * height) by (nonlinear_arith)
        requires
            wh == sw * height,
            0 <= sw,
            sw * one <= p,
            height >= 1,
    ;
    let ah = aspect * height;
    assert(p * height == dx * ah) by (nonlinear_arith)
        requires
            p == dx * aspect,
            ah == aspect * height,
    ;
    assert(dx * ah <= 4_000_000_000_000 * 65_536_000_000_000) by (nonlinear_arith)
        requires
            0 <= dx <= 4_000_000_000_000,
            ah <= 65_536_000_000_000,
    ;
    let w_px = wh / 2;
    let dh = dy * height;
    assert(0 <= dh <= 4_000_000_000_000 * 65_536) by (nonlinear_arith)
        requires
            dh == dy * height,
            0 <= dy <= 4_000_000_000_000,
            1 <= height <= 65_536,
    ;
    let h_px = dh / 2;
    let r_px = corner_px(dx, dy, radius_px, aspect, height);
    assert(4 * r_px <= wh && 4 * r_px <= dh);
    let px = pixel(height);
    assert(0 <= px && px * height <= 2_000_000_000) by (nonlinear_arith)
        requires
            px == 2_000_000_000int / height,
            height >= 1,
    ;
    let q = r_px * px;
    assert(0 <= q) by (nonlinear_arith)
        requires
            q == r_px * px,
            0 <= r_px,
            0 <= px,
    ;
    let r = ndc(r_px, height);
    assert(r == q / one);
    assert(0 <= r && r * one <= q);
    let hp = height * px;
    assert(4 * q <= dy * hp) by (nonlinear_arith)
        requires
            q == r_px * px,
            4 * r_px <= dy * height,
            hp == height * px,
            0 <= px,
    ;
    assert(dy * hp <= dy * 2_000_000_000) by (nonlinear_arith)
        requires
            0 <= dy,
            hp <= 2_000_000_000,
    ;
    assert(4 * q <= sw * hp) by (nonlinear_arith)
        requires
            q == r_px * px,
            4 * r_px <= sw * height,
            hp == height * px,
            0 <= px,
    ;
    assert(sw * hp <= sw * 2_000_000_000) by (nonlinear_arith)
        requires
            0 <= sw,
            hp <= 2_000_000_000,
    ;
    assert(2 * r <= sw);
    let n = r * one;
    assert(2 * n <= dx * aspect);
    let inset = n / aspect;
    assert(0 <= inset && 2 * inset <= dx) by (nonlinear_arith)
        requires
            inset == n / aspect,
            aspect > 0,
            0 <= n,
            2 * n <= dx * aspect,
    ;
}

/// An arc of radius `r` reaches no further than `r`, in either axis.
proof fn lemma_arc_reach(u: Point, r: int, aspect: int)
    requires
        short(u),
        0 <= r,
        aspect > 0,
    ensures
        -trunc(r * ONE, aspect) <= trunc(u.x * r, aspect) <= trunc(r * ONE, aspect),
        -r <= trunc(u.y * r, ONE as int) <= r,
{
    assert(-(r * 1_000_000_000) <= u.x * r <= r * 1_000_000_000) by (nonlinear_arith)
        requires
            -1_000_000_000 <= u.x <= 1_000_000_000,
            0 <= r,
    ;
    assert(-(r * 1_000_000_000) <= u.y * r <= r * 1_000_000_000) by (nonlinear_arith)
        requires
            -1_000_000_000 <= u.y <= 1_000_000_000,
            0 <= r,
    ;
    lemma_trunc_monotone(u.x * r, r * ONE, aspect);
    lemma_trunc_monotone(-(r * ONE), u.x * r, aspect);
    lemma_trunc(u.y * r, ONE as int, r);
    let n = r * ONE;
    if n == 0 {
        vstd::arithmetic::div_mod::lemma_basic_div(0, aspect);
    }
    assert(trunc(-n, aspect) == -trunc(n, aspect));
}

/// A rounded rectangle's outline never leaves the rectangle.
pub proof fn law_round_rect_inside<F: Fn(i64) -> Point>(
    turn: F,
    x0: int,
    y0: int,
    x1: int,
    y1: int,
    radius_px: int,
    width: int,
    height: int,
    arcs: Seq<Seq<Point>>,
    slices: int,
)
    requires
        -REACH <= x0 <= x1 <= REACH,
        -REACH <= y0 <= y1 <= REACH,
        1 <= width <= MAX_SIDE,
        1 <= height <= MAX_SIDE,
        slices >= 1,
        corner_arcs(turn, slices, arcs),
    ensures
        ({
            let aspect = aspect_of(width, height);
            let r = ndc(corner_px(x1 - x0, y1 - y0, radius_px, aspect, height), height);
            let outline = round_outline(x0, y0, x1, y1, r, aspect, arcs);
            &&& outline.len() == 4 * (slices + 1)
            &&& forall|i: int|
                0 <= i < outline.len() ==> x0 <= (#[trigger] outline[i]).x <= x1 && y0
                    <= outline[i].y <= y1
        }),
{
    let aspect = aspect_of(width, height);
    lemma_aspect(width, height);
    lemma_corner_fits(x1 - x0, y1 - y0, radius_px, width, height);
    let r = ndc(corner_px(x1 - x0, y1 - y0, radius_px, aspect, height), height);
    let n = slices + 1;
    let outline = round_outline(x0, y0, x1, y1, r, aspect, arcs);
    assert forall|i: int| 0 <= i < outline.len() implies x0 <= (#[trigger] outline[i]).x <= x1
        && y0 <= outline[i].y <= y1 by {
        let u = if i < n {
            arcs[0][i]
        } else if i < 2 * n {
            arcs[1][i - n]
        } else if i < 3 * n {
            arcs[2][i - 2 * n]
        } else {
            arcs[3][i - 3 * n]
        };
        assert(short(u));
        lemma_arc_reach(u, r, aspect);
    }
}

impl<F: Fn(i64) -> Point> MeshBuilder<F> {
    /// Append the points of a quarter turn around `center`.
    fn push_arc(
        &self,
        center: Point,
        r: i64,
        start: i64,
        slices: usize,
        outline: &mut Vec<Point>,
    ) -> (arc: Ghost<Seq<Point>>)
        requires
            self.wf(),
            near(center),
            0 <= r <= REACH,
            1 <= slices <= 8,
            -PI <= start <= PI,
        ensures
            swept(self.turn, start as int, HALF_PI as int, slices as int, arc@),
            final(outline)@ == old(outline)@ + arc_points(
                center,
                r as int,
                self.aspect as int,
                arc@,
            ),
    {
        let arc: Vec<Point> = self.sweep(start, HALF_PI, slices);
        let ghost all = arc_points(center, r as int, self.aspect as int, arc@);
        let mut k: usize = 0;
        assert(outline@ =~= old(outline)@ + all.take(0));
        while k < arc.len()
            invariant
                self.wf(),
                near(center),
                0 <= r <= REACH,
                k <= arc@.len(),
                forall|j: int| 0 <= j < arc@.len() ==> short(#[trigger] arc@[j]),
                all == arc_points(center, r as int, self.aspect as int, arc@),
                outline@ == old(outline)@ + all.take(k as int),
            decreases arc@.len() - k,
        {
            outline.push(step_from(center, arc[k], r, self.aspect));
            assert(outline@ =~= old(outline)@ + all.take(k + 1));
            k = k + 1;
        }
        assert(all.take(arc@.len() as int) =~= all);
        Ghost(arc@)
    }

    /// `self` is `before` with one rounded rectangle added.
    pub open spec fn rounded(
        &self,
        before: &Self,
        x0: int,
        y0: int,
        x1: int,
        y1: int,
        radius_px: int,
        color: [i64; 4],
    ) -> bool {
        let (xa, xb) = sorted_pair(x0, x1);
        let (ya, yb) = sorted_pair(y0, y1);
        let aspect = before.aspect as int;
        let height = before.height_px as int;
        let r_px = corner_px(xb - xa, yb - ya, radius_px, aspect, height);
        let n = 4 * (corner_slices(r_px) + 1);
        if pixels(screen_width(xb - xa, aspect), height) <= 0 || pixels(yb - ya, height) <= 0 {
            self.extends(before, Seq::empty(), Seq::empty())
        } else {
            exists|arcs: Seq<Seq<Point>>|
                #![trigger corner_arcs(before.turn, corner_slices(r_px), arcs)]
                corner_arcs(before.turn, corner_slices(r_px), arcs) && self.extends(
                    before,
                    outline_vertices(
                        round_outline(xa, ya, xb, yb, ndc(r_px, height), aspect, arcs),
                        encoded(color, false),
                        aspect,
                        pixel(height),
                    ),
                    fan_indices(before.count(), before.count() + 1, n, n),
                )
        }
    }

    /// Axis-aligned rectangle with rounded corners and feathered edges.
    ///
    /// The corners may come in either order. `radius_px` is limited to half the
    /// shorter side. A rectangle without extent on screen draws nothing.
    #[verifier::rlimit(60)]
    pub fn round_rect(
        &mut self,
        x0: i64,
        y0: i64,
        x1: i64,
        y1: i64,
        radius_px: i64,
        color: [i64; 4],
    )
        requires
            old(self).wf(),
            in_gamut(color@),
            -REACH <= x0 <= REACH,
            -REACH <= y0 <= REACH,
            -REACH <= x1 <= REACH,
            -REACH <= y1 <= REACH,
            old(self).count() + 73 <= VERTS_MAX,
        ensures
            final(self).wf(),
            final(self).same_frame(old(self)),
            final(self).count() <= old(self).count() + 73,
            final(self).indices@.len() <= old(self).indices@.len() + 324,
            final(self).rounded(
                old(self),
                x0 as int,
                y0 as int,
                x1 as int,
                y1 as int,
                radius_px as int,
                color,
            ),
    {
        let (xa, xb): (i64, i64) = if x0 <= x1 {
            (x0, x1)
        } else {
            (x1, x0)
        };
        let (ya, yb): (i64, i64) = if y0 <= y1 {
            (y0, y1)
        } else {
            (y1, y0)
        };
        let ghost a = self.aspect as int;
        let ghost h = self.height_px as int;
        proof {
            lemma_corner_fits(xb - xa, yb - ya, radius_px as int, self.width_px as int, h);
            lemma_extent(xb - xa, yb - ya, self.width_px as int, h);
        }
        let wide: i64 = mul_div(xb - xa, self.aspect, ONE);
        let w_px: i64 = to_px(wide, self.height_px);
        let h_px: i64 = to_px(yb - ya, self.height_px);
        if w_px <= 0 || h_px <= 0 {
            assert(self.verts@ =~= old(self).verts@ + Seq::<Vertex>::empty());
            assert(self.indices@ =~= old(self).indices@ + Seq::<u32>::empty());
            return;
        }
        let mut r_px: i64 = radius_px;
        if w_px / 2 <= r_px {
            r_px = w_px / 2;
        }
        if h_px / 2 <= r_px {
            r_px = h_px / 2;
        }
        if r_px < 0 {
            r_px = 0;
        }
        assert(r_px == corner_px(xb - xa, yb - ya, radius_px as int, a, h));
        let p: i64 = self.px();
        proof {
            assert(0 <= r_px * p <= 0x100_0000_0000_0000 * 2_000_000_000) by (nonlinear_arith)
                requires
                    0 <= r_px <= 0x100_0000_0000_0000,
                    0 <= p <= 2_000_000_000,
            ;
        }
        let r: i64 = mul_div(r_px, p, ONE);
        let slices: usize = arc_steps_of(r_px, 1, 8);
        proof {
            assert(0 <= r * ONE <= 0x7FFF_FFFF_FFFF_FFFF * self.aspect);
        }
        let inset: i64 = mul_div(r, ONE, self.aspect);
        let mut outline: Vec<Point> = Vec::with_capacity(slices * 4 + 4);
        let a0: Ghost<Seq<Point>> = self.push_arc(
            Point { x: xb - inset, y: ya + r },
            r,
            -HALF_PI,
            slices,
            &mut outline,
        );
        let a1: Ghost<Seq<Point>> = self.push_arc(
            Point { x: xb - inset, y: yb - r },
            r,
            0,
            slices,
            &mut outline,
        );
        let a2: Ghost<Seq<Point>> = self.push_arc(
            Point { x: xa + inset, y: yb - r },
            r,
            HALF_PI,
            slices,
            &mut outline,
        );
        let a3: Ghost<Seq<Point>> = self.push_arc(
            Point { x: xa + inset, y: ya + r },
            r,
            PI,
            slices,
            &mut outline,
        );
        let ghost arcs = seq![a0@, a1@, a2@, a3@];
        proof {
            assert(corner_arcs(self.turn, slices as int, arcs));
            law_round_rect_inside(
                self.turn,
                xa as int,
                ya as int,
                xb as int,
                yb as int,
                radius_px as int,
                self.width_px as int,
                h,
                arcs,
                slices as int,
            );
            assert(outline@ =~= round_outline(
                xa as int,
                ya as int,
                xb as int,
                yb as int,
                r as int,
                a,
                arcs,
            ));
        }
        self.fill_outline(outline.as_slice(), color, false);
        assert(corner_arcs(old(self).turn, corner_slices(r_px as int), arcs));
    }
}

/// A pair in ascending order.
pub open spec fn sorted_pair(a: int, b: int) -> (int, int) {
    if a <= b {
        (a, b)
    } else {
        (b, a)
    }
}

/// Extents within reach stay representable in pixels.
proof fn lemma_extent(dx: int, dy: int, width: int, height: int)
    requires
        0 <= dx <= 2 * REACH,
        0 <= dy <= 2 * REACH,
        1 <= width <= MAX_SIDE,
        1 <= height <= MAX_SIDE,
    ensures
        ({
            let aspect = aspect_of(width, height);
            &&& 0 <= dx * aspect <= 0x7FFF_FFFF_FFFF_FFFF * ONE
            &&& 0 <= screen_width(dx, aspect) * height <= 0x4000_0000_0000_0000
            &&& 0 <= dy * height <= 0x4000_0000_0000_0000
        }),
{
    lemma_aspect(width, height);
    let aspect = aspect_of(width, height);
    let p = dx * aspect;
    let sw = screen_width(dx, aspect);
    let one = 1_000_000_000int;
    let ah = aspect * height;
    assert(0 <= p <= 4_000_000_000_000 * 65_536_000_000_000) by (nonlinear_arith)
        requires
            p == dx * aspect,
            0 <= dx <= 4_000_000_000_000,
            0 <= aspect <= 65_536_000_000_000,
    ;
    assert(0 <= sw && sw * one <= p);
    let wh = sw * height;
    assert(0 <= wh && wh * one <= p * height) by (nonlinear_arith)
        requires
            wh == sw * height,
            0 <= sw,
            sw * one <= p,
            height >= 1,
    ;
    assert(p * height == dx * ah) by (nonlinear_arith)
        requires
            p == dx * aspect,
            ah == aspect * height,
    ;
    assert(dx * ah <= 4_000_000_000_000 * 65_536_000_000_000) by (nonlinear_arith)
        requires
            0 <= dx <= 4_000_000_000_000,
            ah <= 65_536_000_000_000,
    ;
    assert(0 <= dy * height <= 4_000_000_000_000 * 65_536) by (nonlinear_arith)
        requires
            0 <= dy <= 4_000_000_000_000,
            1 <= height <= 65_536,
    ;
}

// -- strokes ----------------------------------------------------------------
/// Half the geometry width of a stroke, in NDC-y units.
pub open spec fn half_width(width: int, height: int) -> int {
    trunc(resolved(width).0 * pixel(height), 2 * ONE)
}

/// Vertex color of a stroke of the given width.
pub open spec fn stroke_color(c: [i64; 4], width: int, additive: bool) -> [i64; 4] {
    encoded(faded(c, resolved(width).1), additive)
}

/// Vertex `j` of the four of rib `i`: fringe, core, core, fringe.
pub open spec fn rib_vertex(
    p: Point,
    at: (Point, int),
    half: int,
    feather: int,
    aspect: int,
    color: [i64; 4],
    j: int,
) -> Vertex {
    let inner = trunc(half * at.1, ONE as int);
    let outer = trunc((half + feather) * at.1, ONE as int);
    if j == 0 {
        Vertex { position: offset_point(p, at.0, -outer, aspect), color: CLEAR }
    } else if j == 1 {
        Vertex { position: offset_point(p, at.0, -inner, aspect), color }
    } else if j == 2 {
        Vertex { position: offset_point(p, at.0, inner, aspect), color }
    } else {
        Vertex { position: offset_point(p, at.0, outer, aspect), color: CLEAR }
    }
}

/// Rib vertices of a stroke.
pub open spec fn rib_vertices(
    pts: Seq<Point>,
    colors: Seq<[i64; 4]>,
    width: int,
    additive: bool,
    aspect: int,
    height: int,
) -> Seq<Vertex> {
    Seq::new(
        4 * pts.len(),
        |k: int|
            rib_vertex(
                pts[k / 4],
                join(stroke_normals(pts, aspect), k / 4),
                half_width(width, height),
                pixel(height),
                aspect,
                stroke_color(colors[k / 4], width, additive),
                k % 4,
            ),
    )
}

/// Direction of step `u` of a cap sweeping from `normal` through `out`.
pub open spec fn cap_direction(normal: Point, out: Point, u: Point) -> Point {
    limited_direction(
        point(
            trunc(normal.x * u.x + out.x * u.y, ONE as int),
            trunc(normal.y * u.x + out.y * u.y, ONE as int),
        ),
    )
}

/// Vertices of a half-disc cap: the center, then core and fringe per step.
pub open spec fn cap_vertices(
    p: Point,
    normal: Point,
    out: Point,
    half: int,
    feather: int,
    aspect: int,
    core: [i64; 4],
    arc: Seq<Point>,
) -> Seq<Vertex> {
    Seq::new(
        1 + 2 * arc.len(),
        |k: int|
            if k == 0 {
                Vertex { position: p, color: core }
            } else if k % 2 == 1 {
                Vertex {
                    position: offset_point(
                        p,
                        cap_direction(normal, out, arc[k / 2]),
                        half,
                        aspect,
                    ),
                    color: core,
                }
            } else {
                Vertex {
                    position: offset_point(
                        p,
                        cap_direction(normal, out, arc[k / 2 - 1]),
                        half + feather,
                        aspect,
                    ),
                    color: CLEAR,
                }
            },
    )
}

/// All vertices of a stroke: ribs, start cap, end cap.
pub open spec fn stroke_vertices(
    pts: Seq<Point>,
    colors: Seq<[i64; 4]>,
    width: int,
    additive: bool,
    aspect: int,
    height: int,
    arc: Seq<Point>,
) -> Seq<Vertex> {
    let normals = stroke_normals(pts, aspect);
    let half = half_width(width, height);
    rib_vertices(pts, colors, width, additive, aspect, height) + cap_vertices(
        pts[0],
        normals[0],
        left(normals[0]),
        half,
        pixel(height),
        aspect,
        stroke_color(colors[0], width, additive),
        arc,
    ) + cap_vertices(
        pts.last(),
        normals.last(),
        right(normals.last()),
        half,
        pixel(height),
        aspect,
        stroke_color(colors.last(), width, additive),
        arc,
    )
}

/// How far from a point a stroke can reach: its half width and its fringe, as far
/// as the joint there stretches them.
pub open spec fn stroke_reach(width: int, height: int, stretch: int) -> int {
    (half_width(width, height) + pixel(height)) * stretch / (ONE as int)
}

/// The point that vertex `k` of a stroke through `n` points belongs to, with
/// `steps` directions in a cap.
pub open spec fn stroke_point(n: int, steps: nat, k: int) -> int {
    if k < 4 * n {
        k / 4
    } else if k < 4 * n + 1 + 2 * steps {
        0
    } else {
        n - 1
    }
}

/// No vertex of a stroke lies higher than the point it belongs to by more than
/// the reach of the stroke at that joint.
pub proof fn law_stroke_reach(
    pts: Seq<Point>,
    colors: Seq<[i64; 4]>,
    width: int,
    additive: bool,
    aspect: int,
    height: int,
    arc: Seq<Point>,
    k: int,
)
    requires
        pts.len() >= 2,
        0 < width <= WIDTH_MAX,
        1 <= height <= MAX_SIDE,
        forall|i: int| 0 <= i < pts.len() ==> near(#[trigger] pts[i]),
        0 <= k < stroke_vertices(pts, colors, width, additive, aspect, height, arc).len(),
    ensures
        ({
            let i = stroke_point(pts.len() as int, arc.len(), k);
            let v = stroke_vertices(pts, colors, width, additive, aspect, height, arc)[k];
            &&& 0 <= i < pts.len()
            &&& v.position.y <= pts[i].y + stroke_reach(
                width,
                height,
                join(stroke_normals(pts, aspect), i).1,
            )
        }),
{
    let normals = stroke_normals(pts, aspect);
    let half = half_width(width, height);
    let feather = pixel(height);
    lemma_half_width(width, height);
    let ribs = rib_vertices(pts, colors, width, additive, aspect, height);
    let size = 1 + 2 * arc.len();
    let vs = stroke_vertices(pts, colors, width, additive, aspect, height, arc);
    if k < ribs.len() {
        let i = k / 4;
        lemma_join(pts, aspect, i);
        let at = join(normals, i);
        let far = stroke_reach(width, height, at.1);
        assert(near(pts[i]));
        lemma_miter_offset(half, half + feather, at.1);
        lemma_miter_offset(half + feather, half + feather, at.1);
        let inner = trunc(half * at.1, ONE as int);
        let outer = trunc((half + feather) * at.1, ONE as int);
        lemma_step_height(pts[i], at.0, inner, aspect, far);
        lemma_step_height(pts[i], at.0, -inner, aspect, far);
        lemma_step_height(pts[i], at.0, outer, aspect, far);
        lemma_step_height(pts[i], at.0, -outer, aspect, far);
        assert(vs[k] == ribs[k]);
    } else if k < ribs.len() + size {
        let j = k - ribs.len();
        assert(near(pts[0]));
        lemma_cap_reach(pts[0], normals[0], left(normals[0]), half, feather, aspect, stroke_color(
            colors[0],
            width,
            additive,
        ), arc, j);
    } else {
        let j = k - ribs.len() - size;
        assert(near(pts.last()));
        lemma_cap_reach(
            pts.last(),
            normals.last(),
            right(normals.last()),
            half,
            feather,
            aspect,
            stroke_color(colors.last(), width, additive),
            arc,
            j,
        );
    }
}

proof fn lemma_half_width(width: int, height: int)
    requires
        0 < width <= WIDTH_MAX,
        1 <= height <= MAX_SIDE,
    ensures
        0 <= half_width(width, height) <= WIDTH_MAX,
        0 <= pixel(height) <= 2 * ONE,
{
    let px = pixel(height);
    assert(0 <= 2_000_000_000int / height <= 2_000_000_000) by (nonlinear_arith)
        requires
            height >= 1,
    ;
    let w = resolved(width).0;
    assert(0 <= w * px <= 1_000_000_000_000_000 * 2_000_000_000) by (nonlinear_arith)
        requires
            0 <= w <= 1_000_000_000_000_000,
            0 <= px <= 2_000_000_000,
    ;
    lemma_trunc(w * px, 2 * ONE, WIDTH_MAX as int);
}

proof fn lemma_miter_offset(d: int, e: int, stretch: int)
    requires
        0 <= d <= e,
        0 <= stretch <= MITER_LIMIT,
    ensures
        0 <= trunc(d * stretch, ONE as int) <= e * stretch / (ONE as int) <= 4 * e,
{
    assert(0 <= d * stretch <= e * stretch <= e * 4_000_000_000) by (nonlinear_arith)
        requires
            0 <= d <= e,
            0 <= stretch <= 4_000_000_000,
    ;
}

proof fn lemma_cap_reach(
    p: Point,
    normal: Point,
    out: Point,
    half: int,
    feather: int,
    aspect: int,
    core: [i64; 4],
    arc: Seq<Point>,
    j: int,
)
    requires
        near(p),
        0 <= half <= WIDTH_MAX,
        0 <= feather <= 2 * ONE,
        0 <= j < 1 + 2 * arc.len(),
    ensures
        cap_vertices(p, normal, out, half, feather, aspect, core, arc)[j].position.y <= p.y + half
            + feather,
{
    let dir = cap_direction(normal, out, arc[j / 2]);
    let edge = cap_direction(normal, out, arc[j / 2 - 1]);
    lemma_step_height(p, dir, half, aspect, half);
    lemma_step_height(p, dir, half + feather, aspect, half + feather);
    lemma_step_height(p, edge, half + feather, aspect, half + feather);
}

/// All indices of a stroke of `n` points with caps of `slices` wedges.
pub open spec fn stroke_indices(first: int, n: int, slices: int) -> Seq<u32> {
    let cap = first + 4 * n;
    let size = 2 * slices + 3;
    ribbon_indices(first, n - 1) + fan_indices(cap, cap + 1, slices, slices + 1) + fan_indices(
        cap + size,
        cap + size + 1,
        slices,
        slices + 1,
    )
}

fn cap_direction_of(normal: Point, out: Point, u: Point) -> (d: Point)
    requires
        short(normal),
        short(out),
        short(u),
    ensures
        d == cap_direction(normal, out, u),
        short(d),
{
    proof {
        lemma_unit_product(normal.x as int, u.x as int);
        lemma_unit_product(out.x as int, u.y as int);
        lemma_unit_product(normal.y as int, u.x as int);
        lemma_unit_product(out.y as int, u.y as int);
        lemma_trunc(normal.x * u.x + out.x * u.y, ONE as int, 2_000_000_000);
        lemma_trunc(normal.y * u.x + out.y * u.y, ONE as int, 2_000_000_000);
    }
    let x: i64 = mul_div(normal.x * u.x + out.x * u.y, 1, ONE);
    let y: i64 = mul_div(normal.y * u.x + out.y * u.y, 1, ONE);
    Point { x: clamp(x, -ONE, ONE), y: clamp(y, -ONE, ONE) }
}

proof fn lemma_unit_product(a: int, b: int)
    requires
        -ONE <= a <= ONE,
        -ONE <= b <= ONE,
    ensures
        -1_000_000_000_000_000_000 <= a * b <= 1_000_000_000_000_000_000,
{
    assert(-1_000_000_000_000_000_000 <= a * b <= 1_000_000_000_000_000_000) by (nonlinear_arith)
        requires
            -1_000_000_000 <= a <= 1_000_000_000,
            -1_000_000_000 <= b <= 1_000_000_000,
    ;
}

impl<F: Fn(i64) -> Point> MeshBuilder<F> {
    /// Half-disc cap centered on `p`, sweeping from `normal` through `out` to
    /// the opposite of `normal`.
    fn round_cap(
        &mut self,
        p: Point,
        normal: Point,
        out: Point,
        half: i64,
        feather: i64,
        core: [i64; 4],
        arc: &Vec<Point>,
    )
        requires
            old(self).wf(),
            near(p),
            short(normal),
            short(out),
            0 <= half <= WIDTH_MAX,
            0 <= feather <= 2 * ONE,
            3 <= arc@.len() <= 17,
            forall|k: int| 0 <= k < arc@.len() ==> short(#[trigger] arc@[k]),
            old(self).count() + 1 + 2 * arc@.len() <= VERTS_MAX,
        ensures
            final(self).wf(),
            final(self).extends(
                old(self),
                cap_vertices(
                    p,
                    normal,
                    out,
                    half as int,
                    feather as int,
                    old(self).aspect as int,
                    core,
                    arc@,
                ),
                fan_indices(
                    old(self).count(),
                    old(self).count() + 1,
                    arc@.len() - 1,
                    arc@.len() as int,
                ),
            ),
    {
        let n: usize = arc.len();
        let aspect: i64 = self.aspect;
        let ghost all = cap_vertices(
            p,
            normal,
            out,
            half as int,
            feather as int,
            aspect as int,
            core,
            arc@,
        );
        let center: u32 = self.push_vertex(p, core);
        let first: u32 = self.verts.len() as u32;
        assert(self.verts@ =~= old(self).verts@ + all.take(1));
        assert(self.indices@ =~= old(self).indices@);
        let mut k: usize = 0;
        while k < n
            invariant
                self.wf(),
                near(p),
                short(normal),
                short(out),
                0 <= half <= WIDTH_MAX,
                0 <= feather <= 2 * ONE,
                n == arc@.len(),
                k <= n <= 17,
                forall|k: int| 0 <= k < arc@.len() ==> short(#[trigger] arc@[k]),
                old(self).count() + 1 + 2 * arc@.len() <= VERTS_MAX,
                aspect == self.aspect,
                all == cap_vertices(
                    p,
                    normal,
                    out,
                    half as int,
                    feather as int,
                    aspect as int,
                    core,
                    arc@,
                ),
                self.same_frame(old(self)),
                self.verts@ == old(self).verts@ + all.take(1 + 2 * k),
                self.indices@ == old(self).indices@,
            decreases n - k,
        {
            let dir: Point = cap_direction_of(normal, out, arc[k]);
            self.push_vertex(step_from(p, dir, half, aspect), core);
            self.push_vertex(step_from(p, dir, half + feather, aspect), CLEAR);
            proof {
                assert((2 * k + 1) / 2 == k && (2 * k + 1) % 2 == 1);
                assert((2 * k + 2) / 2 == k + 1 && (2 * k + 2) % 2 == 0);
                assert(all.take(1 + 2 * (k + 1)) =~= all.take(1 + 2 * k).push(
                    all[1 + 2 * k],
                ).push(all[2 + 2 * k]));
            }
            assert(self.verts@ =~= old(self).verts@ + all.take(1 + 2 * (k + 1)));
            assert(self.indices@ =~= old(self).indices@);
            k = k + 1;
        }
        assert(all.take(1 + 2 * n) =~= all);
        assert(self.indices@ =~= old(self).indices@ + fan_indices(
            center as int,
            first as int,
            0,
            n as int,
        ));
        let mut w: usize = 0;
        while w < n - 1
            invariant
                self.wf(),
                3 <= n == arc@.len(),
                n <= 17,
                w <= n - 1,
                center == old(self).count(),
                first == center + 1,
                old(self).count() + 1 + 2 * arc@.len() <= VERTS_MAX,
                all.len() == 1 + 2 * n,
                self.same_frame(old(self)),
                self.verts@ == old(self).verts@ + all,
                self.indices@ == old(self).indices@ + fan_indices(
                    center as int,
                    first as int,
                    w as int,
                    n as int,
                ),
            decreases n - w,
        {
            let a: u32 = first + w as u32 * 2;
            let b: u32 = a + 2;
            self.push_tri(center, a, b);
            self.push_quad(a, b, b + 1, a + 1);
            proof {
                lemma_fan_step(center as int, first as int, w as int, n as int);
            }
            assert(self.verts@ =~= old(self).verts@ + all);
            assert(self.indices@ =~= old(self).indices@ + fan_indices(
                center as int,
                first as int,
                w + 1,
                n as int,
            ));
            w = w + 1;
        }
    }

    /// Push the four vertices of one rib.
    fn push_rib(
        &mut self,
        p: Point,
        offset: Point,
        scale: i64,
        half: i64,
        feather: i64,
        color: [i64; 4],
    )
        requires
            old(self).wf(),
            near(p),
            short(offset),
            0 <= scale <= MITER_LIMIT,
            0 <= half <= WIDTH_MAX,
            0 <= feather <= 2 * ONE,
            old(self).count() + 4 <= VERTS_MAX,
        ensures
            final(self).wf(),
            final(self).extends(
                old(self),
                Seq::new(
                    4,
                    |j: int|
                        rib_vertex(
                            p,
                            (offset, scale as int),
                            half as int,
                            feather as int,
                            old(self).aspect as int,
                            color,
                            j,
                        ),
                ),
                Seq::empty(),
            ),
    {
        proof {
            assert(0 <= half * scale <= 4_000_000_000_000_000 * 1_000_000_000)
                by (nonlinear_arith)
                requires
                    0 <= half <= 1_000_000_000_000_000,
                    0 <= scale <= 4_000_000_000,
            ;
            assert(0 <= (half + feather) * scale <= 4_400_000_000_000_000 * 1_000_000_000)
                by (nonlinear_arith)
                requires
                    0 <= half <= 1_000_000_000_000_000,
                    0 <= feather <= 2_000_000_000,
                    0 <= scale <= 4_000_000_000,
            ;
            lemma_trunc(half * scale, ONE as int, 4_000_000_000_000_000);
            lemma_trunc((half + feather) * scale, ONE as int, 4_400_000_000_000_000);
        }
        let inner: i64 = mul_div(half, scale, ONE);
        let outer: i64 = mul_div(half + feather, scale, ONE);
        let aspect: i64 = self.aspect;
        self.push_vertex(step_from(p, offset, -outer, aspect), CLEAR);
        self.push_vertex(step_from(p, offset, -inner, aspect), color);
        self.push_vertex(step_from(p, offset, inner, aspect), color);
        self.push_vertex(step_from(p, offset, outer, aspect), CLEAR);
        assert(self.verts@ =~= old(self).verts@ + Seq::new(
            4,
            |j: int|
                rib_vertex(
                    p,
                    (offset, scale as int),
                    half as int,
                    feather as int,
                    aspect as int,
                    color,
                    j,
                ),
        ));
        assert(self.indices@ =~= old(self).indices@ + Seq::<u32>::empty());
    }
}

proof fn lemma_no_tail<A>(s: Seq<A>)
    ensures
        s + Seq::<A>::empty() == s,
{
    assert(s + Seq::<A>::empty() =~= s);
}

proof fn lemma_regroup<A>(a: Seq<A>, b: Seq<A>, c: Seq<A>, d: Seq<A>)
    ensures
        a + b + c + d == a + (b + c + d),
{
    assert(a + b + c + d =~= a + (b + c + d));
}

impl<F: Fn(i64) -> Point> MeshBuilder<F> {
    /// `self` is `before` with one stroke added. Fewer than two points, or a
    /// width that is not positive, draw nothing.
    pub open spec fn stroked(
        &self,
        before: &Self,
        pts: Seq<Point>,
        width: int,
        additive: bool,
        colors: Seq<[i64; 4]>,
    ) -> bool {
        if pts.len() < 2 || width <= 0 {
            self.extends(before, Seq::empty(), Seq::empty())
        } else {
            let slices = cap_slices(resolved(width).0);
            exists|arc: Seq<Point>|
                #![trigger swept(before.turn, 0, PI as int, slices, arc)]
                swept(before.turn, 0, PI as int, slices, arc) && self.extends(
                    before,
                    stroke_vertices(
                        pts,
                        colors,
                        width,
                        additive,
                        before.aspect as int,
                        before.height_px as int,
                        arc,
                    ),
                    stroke_indices(before.count(), pts.len() as int, slices),
                )
        }
    }

    fn push_ribs(
        &mut self,
        pts: &[Point],
        normals: &Vec<Point>,
        half: i64,
        feather: i64,
        width: i64,
        additive: bool,
        colors: &[[i64; 4]],
    )
        requires
            old(self).wf(),
            pts@.len() >= 2,
            colors@.len() == pts@.len(),
            forall|i: int| 0 <= i < pts@.len() ==> near(#[trigger] pts@[i]),
            forall|i: int| 0 <= i < colors@.len() ==> in_gamut((#[trigger] colors@[i])@),
            normals@ == stroke_normals(pts@, old(self).aspect as int),
            forall|i: int| 0 <= i < normals@.len() ==> short(#[trigger] normals@[i]),
            half == half_width(width as int, old(self).height_px as int),
            0 <= half <= WIDTH_MAX,
            feather == pixel(old(self).height_px as int),
            0 <= feather <= 2 * ONE,
            old(self).count() + 4 * pts@.len() <= VERTS_MAX,
        ensures
            final(self).wf(),
            final(self).extends(
                old(self),
                rib_vertices(
                    pts@,
                    colors@,
                    width as int,
                    additive,
                    old(self).aspect as int,
                    old(self).height_px as int,
                ),
                Seq::empty(),
            ),
    {
        let n: usize = pts.len();
        let alpha: i64 = resolve_width(width).1;
        let ghost a = self.aspect as int;
        let ghost h = self.height_px as int;
        let ghost all = rib_vertices(pts@, colors@, width as int, additive, a, h);
        assert(self.verts@ =~= old(self).verts@ + all.take(0));
        let mut i: usize = 0;
        while i < n
            invariant
                self.wf(),
                n == pts@.len() >= 2,
                i <= n,
                colors@.len() == pts@.len(),
                forall|i: int| 0 <= i < pts@.len() ==> near(#[trigger] pts@[i]),
                forall|i: int| 0 <= i < colors@.len() ==> in_gamut((#[trigger] colors@[i])@),
                a == self.aspect,
                h == self.height_px,
                normals@ == stroke_normals(pts@, a),
                forall|i: int| 0 <= i < normals@.len() ==> short(#[trigger] normals@[i]),
                half == half_width(width as int, h),
                0 <= half <= WIDTH_MAX,
                feather == pixel(h),
                0 <= feather <= 2 * ONE,
                0 <= alpha <= ONE,
                alpha == resolved(width as int).1,
                all == rib_vertices(pts@, colors@, width as int, additive, a, h),
                old(self).count() + 4 * pts@.len() <= VERTS_MAX,
                self.same_frame(old(self)),
                self.verts@ == old(self).verts@ + all.take(4 * i),
                self.indices@ == old(self).indices@,
            decreases n - i,
        {
            let (offset, scale): (Point, i64) = join_at(normals, i);
            let c: [i64; 4] = encode(fade(colors[i], alpha), additive);
            self.push_rib(pts[i], offset, scale, half, feather, c);
            proof {
                assert((4 * i) / 4 == i && (4 * i) % 4 == 0);
                assert((4 * i + 1) / 4 == i && (4 * i + 1) % 4 == 1);
                assert((4 * i + 2) / 4 == i && (4 * i + 2) % 4 == 2);
                assert((4 * i + 3) / 4 == i && (4 * i + 3) % 4 == 3);
                assert(all.take(4 * (i + 1)) =~= all.take(4 * i).push(all[4 * i]).push(
                    all[4 * i + 1],
                ).push(all[4 * i + 2]).push(all[4 * i + 3]));
            }
            assert(self.verts@ =~= old(self).verts@ + all.take(4 * (i + 1)));
            assert(self.indices@ =~= old(self).indices@);
            i = i + 1;
        }
        assert(all.take(4 * n) =~= all);
        assert(self.indices@ =~= old(self).indices@ + Seq::<u32>::empty());
    }

    fn push_ribbon(&mut self, first: u32, n: usize)
        requires
            old(self).wf(),
            n >= 2,
            first + 4 * n <= old(self).count(),
        ensures
            final(self).wf(),
            final(self).extends(old(self), Seq::empty(), ribbon_indices(first as int, n - 1)),
    {
        let mut w: usize = 0;
        assert(self.verts@ =~= old(self).verts@ + Seq::<Vertex>::empty());
        assert(self.indices@ =~= old(self).indices@ + ribbon_indices(first as int, 0));
        while w < n - 1
            invariant
                self.wf(),
                n >= 2,
                w <= n - 1,
                first + 4 * n <= old(self).count() <= VERTS_MAX,
                self.same_frame(old(self)),
                self.verts@ == old(self).verts@,
                self.indices@ == old(self).indices@ + ribbon_indices(first as int, w as int),
            decreases n - w,
        {
            let a: u32 = first + w as u32 * 4;
            self.push_quad(a, a + 1, a + 5, a + 4);
            self.push_quad(a + 1, a + 2, a + 6, a + 5);
            self.push_quad(a + 2, a + 3, a + 7, a + 6);
            proof {
                lemma_ribbon_step(first as int, w as int);
            }
            assert(self.verts@ =~= old(self).verts@);
            assert(self.indices@ =~= old(self).indices@ + ribbon_indices(first as int, w + 1));
            w = w + 1;
        }
        assert(self.verts@ =~= old(self).verts@ + Seq::<Vertex>::empty());
    }

    /// Thick antialiased polyline with miter joins and round caps, with one
    /// color per point.
    ///
    /// Consecutive segments share their offset vertices at each joint, so there
    /// is no overlap and no double-blending.
    pub fn stroke_with(
        &mut self,
        pts: &[Point],
        width: i64,
        additive: bool,
        colors: &[[i64; 4]],
    )
        requires
            old(self).wf(),
            colors@.len() == pts@.len(),
            width <= WIDTH_MAX,
            forall|i: int| 0 <= i < pts@.len() ==> near(#[trigger] pts@[i]),
            forall|i: int| 0 <= i < colors@.len() ==> in_gamut((#[trigger] colors@[i])@),
            old(self).count() + 4 * pts@.len() + 70 <= VERTS_MAX,
        ensures
            final(self).wf(),
            final(self).stroked(old(self), pts@, width as int, additive, colors@),
            final(self).same_frame(old(self)),
            final(self).count() <= old(self).count() + 4 * pts@.len() + 70,
            final(self).indices@.len() <= old(self).indices@.len() + 18 * pts@.len() + 288,
    {
        let n: usize = pts.len();
        if n < 2 || width <= 0 {
            assert(self.verts@ =~= old(self).verts@ + Seq::<Vertex>::empty());
            assert(self.indices@ =~= old(self).indices@ + Seq::<u32>::empty());
            return;
        }
        let (geo, alpha): (i64, i64) = resolve_width(width);
        let feather: i64 = self.px();
        let aspect: i64 = self.aspect;
        proof {
            let d = 2_000_000_000int;
            assert(0 <= geo * feather <= 1_000_000_000_000_000 * d) by (nonlinear_arith)
                requires
                    0 <= geo <= 1_000_000_000_000_000,
                    0 <= feather <= d,
            ;
            lemma_trunc(geo * feather, 2 * ONE, 1_000_000_000_000_000);
        }
        let half: i64 = mul_div(geo, feather, 2 * ONE);
        let normals: Vec<Point> = normals_of(pts, aspect);
        let slices: usize = arc_steps_of(geo, 2, 16);
        let arc: Vec<Point> = self.sweep(0, PI, slices);
        let first: u32 = self.verts.len() as u32;
        assert(near(pts@[0]) && near(pts@[n - 1]));
        assert(in_gamut(colors@[0]@) && in_gamut(colors@[n - 1]@));
        let n0: Point = normals[0];
        let n1: Point = normals[n - 2];
        assert(short(normals@[0]) && short(normals@[n - 2]));
        let c0: [i64; 4] = encode(fade(colors[0], alpha), additive);
        let c1: [i64; 4] = encode(fade(colors[n - 1], alpha), additive);
        let ghost h = self.height_px as int;
        let ghost ribs = rib_vertices(pts@, colors@, width as int, additive, aspect as int, h);
        let ghost cap0 = cap_vertices(
            pts@[0],
            n0,
            left(n0),
            half as int,
            feather as int,
            aspect as int,
            c0,
            arc@,
        );
        let ghost cap1 = cap_vertices(
            pts@[n - 1],
            n1,
            right(n1),
            half as int,
            feather as int,
            aspect as int,
            c1,
            arc@,
        );
        let ghost size = 2 * slices + 3;
        let ghost cap = first + 4 * n;
        let ghost fan0 = fan_indices(cap, cap + 1, slices as int, slices + 1);
        let ghost fan1 = fan_indices(cap + size, cap + size + 1, slices as int, slices + 1);
        let ghost ribbon = ribbon_indices(first as int, n - 1);
        self.push_ribs(pts, &normals, half, feather, width, additive, colors);
        assert(self.count() == first + 4 * n);
        self.push_ribbon(first, n);
        proof {
            lemma_no_tail(old(self).verts@ + ribs);
            lemma_no_tail(old(self).indices@);
        }
        assert(self.verts@ == old(self).verts@ + ribs);
        self.round_cap(pts[0], n0, left_of(n0), half, feather, c0, &arc);
        assert(self.count() == first + 4 * n + size);
        self.round_cap(pts[n - 1], n1, right_of(n1), half, feather, c1, &arc);
        proof {
            lemma_regroup(old(self).verts@, ribs, cap0, cap1);
            lemma_regroup(old(self).indices@, ribbon, fan0, fan1);
            assert(stroke_vertices(
                pts@,
                colors@,
                width as int,
                additive,
                aspect as int,
                h,
                arc@,
            ) == ribs + cap0 + cap1);
            assert(stroke_indices(first as int, n as int, slices as int) == ribbon + fan0 + fan1);
        }
        assert(self.extends(
            old(self),
            stroke_vertices(pts@, colors@, width as int, additive, aspect as int, h, arc@),
            stroke_indices(old(self).count(), pts@.len() as int, slices as int),
        ));
        assert(slices == cap_slices(resolved(width as int).0));
        assert(swept(old(self).turn, 0, PI as int, cap_slices(resolved(width as int).0), arc@));
    }
}

/// A full turn, in radians.
pub const TAU: i64 = 6_283_185_307;

/// One color for each of `n` points.
pub open spec fn uniform(color: [i64; 4], n: nat) -> Seq<[i64; 4]> {
    Seq::new(n, |i: int| color)
}

/// Width of a glow layer: wider with every layer; none for a line without width.
pub open spec fn glow_width(width: int, layer: int) -> int {
    if width <= 0 {
        0
    } else {
        width * (10 + 24 * layer) / 10
    }
}

/// Color of a glow layer: fainter with every layer.
pub open spec fn glow_color(c: [i64; 4], layer: int) -> [i64; 4] {
    [c[0], c[1], c[2], (c[3] as int / (1 + 3 * layer)) as i64]
}

/// Colors of a glow layer.
pub open spec fn glow_colors(colors: Seq<[i64; 4]>, layer: int) -> Seq<[i64; 4]> {
    Seq::new(colors.len(), |i: int| glow_color(colors[i], layer))
}

/// Outer layers of a glow are wider and fainter than inner ones.
pub proof fn law_glow_layers(width: int, c: [i64; 4], inner: int, outer: int)
    requires
        0 <= inner <= outer,
        0 <= width,
        in_gamut(c@),
    ensures
        width <= glow_width(width, inner) <= glow_width(width, outer),
        0 <= glow_color(c, outer)[3] <= glow_color(c, inner)[3] <= c[3],
{
    assert(0 <= c@[3] <= ONE);
    let (p, q) = (10 + 24 * inner, 10 + 24 * outer);
    assert(10 * width <= width * p <= width * q) by (nonlinear_arith)
        requires
            0 <= width,
            10 <= p <= q,
    ;
    let a = c[3] as int;
    let (d, e) = (1 + 3 * inner, 1 + 3 * outer);
    vstd::arithmetic::div_mod::lemma_div_is_ordered_by_denominator(a, d, e);
    vstd::arithmetic::div_mod::lemma_div_is_ordered_by_denominator(a, 1, d);
    assert(0 <= a / e) by (nonlinear_arith)
        requires
            a >= 0,
            e >= 1,
    ;
}

proof fn lemma_glow_width(width: int, inner: int, outer: int)
    requires
        0 <= inner <= outer,
    ensures
        width > 0 ==> width <= glow_width(width, inner),
        glow_width(width, inner) <= glow_width(width, outer),
{
    if width > 0 {
        let (p, q) = (10 + 24 * inner, 10 + 24 * outer);
        assert(10 * width <= width * p <= width * q) by (nonlinear_arith)
            requires
                0 <= width,
                10 <= p <= q,
        ;
    }
}

/// Number of glow layers drawn: at least one.
pub open spec fn glow_layers(layers: int) -> int {
    if layers < 1 {
        1
    } else {
        layers
    }
}

/// Width of a glow layer.
pub fn glow_width_of(width: i64, layer: u32) -> (w: i64)
    requires
        glow_width(width as int, layer as int) <= WIDTH_MAX,
    ensures
        w == glow_width(width as int, layer as int),
        w <= WIDTH_MAX,
{
    if width <= 0 {
        return 0;
    }
    assert(0 <= width * (10 + 24 * layer) <= 0x7FFF_FFFF_FFFF_FFFF * 0x20_0000_0000)
        by (nonlinear_arith)
        requires
            0 <= width <= 0x7FFF_FFFF_FFFF_FFFF,
            0 <= layer <= 0xFFFF_FFFF,
    ;
    (width as u128 * (10 + 24 * layer as u128) / 10) as i64
}

/// Colors of a glow layer.
pub fn glow_colors_of(colors: &[[i64; 4]], layer: u32) -> (out: Vec<[i64; 4]>)
    requires
        layer >= 1,
        forall|i: int| 0 <= i < colors@.len() ==> in_gamut((#[trigger] colors@[i])@),
    ensures
        out@ == glow_colors(colors@, layer as int),
        forall|i: int| 0 <= i < out@.len() ==> in_gamut((#[trigger] out@[i])@),
{
    let mut out: Vec<[i64; 4]> = Vec::with_capacity(colors.len());
    let mut i: usize = 0;
    while i < colors.len()
        invariant
            layer >= 1,
            i <= colors@.len(),
            forall|i: int| 0 <= i < colors@.len() ==> in_gamut((#[trigger] colors@[i])@),
            out@.len() == i,
            forall|j: int| 0 <= j < i ==> #[trigger] out@[j] == glow_color(colors@[j], layer as int),
            forall|j: int| 0 <= j < i ==> in_gamut((#[trigger] out@[j])@),
        decreases colors@.len() - i,
    {
        let c: [i64; 4] = colors[i];
        assert(in_gamut(colors@[i as int]@));
        assert(0 <= c@[0] <= ONE && 0 <= c@[1] <= ONE && 0 <= c@[2] <= ONE && 0 <= c@[3] <= ONE);
        let d: i64 = 1 + 3 * layer as i64;
        assert(0 <= c[3] as int / (d as int) <= c[3]) by (nonlinear_arith)
            requires
                0 <= c[3],
                d >= 1,
        ;
        let g: [i64; 4] = [c[0], c[1], c[2], c[3] / d];
        assert(g@ =~= glow_color(c, layer as int)@);
        out.push(g);
        i = i + 1;
    }
    assert(out@ =~= glow_colors(colors@, layer as int));
    out
}

/// One color for each of `n` points.
pub fn uniform_of(color: [i64; 4], n: usize) -> (out: Vec<[i64; 4]>)
    requires
        in_gamut(color@),
    ensures
        out@ == uniform(color, n as nat),
        forall|i: int| 0 <= i < out@.len() ==> in_gamut((#[trigger] out@[i])@),
{
    let mut out: Vec<[i64; 4]> = Vec::with_capacity(n);
    let mut i: usize = 0;
    while i < n
        invariant
            i <= n,
            in_gamut(color@),
            out@.len() == i,
            forall|j: int| 0 <= j < i ==> #[trigger] out@[j] == color,
        decreases n - i,
    {
        out.push(color);
        i = i + 1;
    }
    assert(out@ =~= uniform(color, n as nat));
    out
}

/// Chords of a ring whose radius is `r_px` pixels.
pub open spec fn ring_slices(r_px: int) -> int {
    let r = if r_px < ONE {
        ONE as int
    } else {
        r_px
    };
    clamped((TAU * r + 2_999_999_999_999_999_999) / 3_000_000_000_000_000_000, 12, 256)
}

/// A ring's chords are at most three pixels long, short of the limit on their
/// number, and their number grows with the radius.
pub proof fn law_ring_chords(r_px: int, larger: int)
    requires
        ONE <= r_px <= larger,
    ensures
        12 <= ring_slices(r_px) <= ring_slices(larger) <= 256,
        ring_slices(r_px) < 256 ==> TAU * r_px <= ring_slices(r_px) * (3 * ONE) * ONE,
{
    let d = 3_000_000_000_000_000_000int;
    let a = TAU * r_px + 2_999_999_999_999_999_999;
    let b = TAU * larger + 2_999_999_999_999_999_999;
    vstd::arithmetic::div_mod::lemma_div_is_ordered(a, b, d);
    vstd::arithmetic::div_mod::lemma_fundamental_div_mod(a, d);
    vstd::arithmetic::div_mod::lemma_mod_bound(a, d);
    let n = ring_slices(r_px);
    assert(n * (3 * ONE) * ONE == d * n) by (nonlinear_arith)
        requires
            ONE == 1_000_000_000,
            d == 3_000_000_000_000_000_000,
    ;
}

impl<F: Fn(i64) -> Point> MeshBuilder<F> {
    /// As [`stroke_with`](Self::stroke_with), in one color.
    pub fn stroke(&mut self, pts: &[Point], width: i64, color: [i64; 4], additive: bool)
        requires
            old(self).wf(),
            width <= WIDTH_MAX,
            forall|i: int| 0 <= i < pts@.len() ==> near(#[trigger] pts@[i]),
            in_gamut(color@),
            old(self).count() + 4 * pts@.len() + 70 <= VERTS_MAX,
        ensures
            final(self).wf(),
            final(self).stroked(
                old(self),
                pts@,
                width as int,
                additive,
                uniform(color, pts@.len()),
            ),
            final(self).same_frame(old(self)),
            final(self).count() <= old(self).count() + 4 * pts@.len() + 70,
            final(self).indices@.len() <= old(self).indices@.len() + 18 * pts@.len() + 288,
    {
        let colors: Vec<[i64; 4]> = uniform_of(color, pts.len());
        self.stroke_with(pts, width, additive, colors.as_slice());
    }

    /// `self` is `before` with additive layers `layer` down to one stroked, and
    /// then the core stroke on top.
    pub open spec fn glowed(
        &self,
        before: &Self,
        pts: Seq<Point>,
        width: int,
        colors: Seq<[i64; 4]>,
        layer: int,
    ) -> bool
        decreases layer,
    {
        if layer <= 0 {
            self.stroked(before, pts, width, false, colors)
        } else {
            exists|mid: Self|
                #![trigger mid.stroked(
                    before,
                    pts,
                    glow_width(width, layer),
                    true,
                    glow_colors(colors, layer),
                )]
                mid.stroked(
                    before,
                    pts,
                    glow_width(width, layer),
                    true,
                    glow_colors(colors, layer),
                ) && self.glowed(&mid, pts, width, colors, layer - 1)
        }
    }

    /// Stacked strokes reading as a glowing line, with one color per point.
    ///
    /// The wide layers are additive so they accumulate into a halo; under
    /// ordinary blending each would occlude the one beneath it.
    pub fn glow_stroke_with(
        &mut self,
        pts: &[Point],
        width: i64,
        colors: &[[i64; 4]],
        layers: u32,
    )
        requires
            old(self).wf(),
            glow_width(width as int, glow_layers(layers as int)) <= WIDTH_MAX,
            colors@.len() == pts@.len(),
            forall|i: int| 0 <= i < pts@.len() ==> near(#[trigger] pts@[i]),
            forall|i: int| 0 <= i < colors@.len() ==> in_gamut((#[trigger] colors@[i])@),
            old(self).count() + (glow_layers(layers as int) + 1) * (4 * pts@.len() + 70)
                <= VERTS_MAX,
        ensures
            final(self).wf(),
            final(self).glowed(
                old(self),
                pts@,
                width as int,
                colors@,
                glow_layers(layers as int),
            ),
            final(self).same_frame(old(self)),
            final(self).count() <= old(self).count() + (glow_layers(layers as int) + 1) * (4
                * pts@.len() + 70),
            final(self).indices@.len() <= old(self).indices@.len() + (glow_layers(layers as int)
                + 1) * (18 * pts@.len() + 288),
    {
        let top: u32 = if layers < 1 {
            1
        } else {
            layers
        };
        proof {
            lemma_glow_width(width as int, 0, top as int);
        }
        self.glow_from(pts, width, colors, top);
    }

    fn glow_from(&mut self, pts: &[Point], width: i64, colors: &[[i64; 4]], layer: u32)
        requires
            old(self).wf(),
            width <= WIDTH_MAX,
            glow_width(width as int, layer as int) <= WIDTH_MAX,
            colors@.len() == pts@.len(),
            forall|i: int| 0 <= i < pts@.len() ==> near(#[trigger] pts@[i]),
            forall|i: int| 0 <= i < colors@.len() ==> in_gamut((#[trigger] colors@[i])@),
            old(self).count() + (layer + 1) * (4 * pts@.len() + 70) <= VERTS_MAX,
        ensures
            final(self).wf(),
            final(self).glowed(old(self), pts@, width as int, colors@, layer as int),
            final(self).same_frame(old(self)),
            final(self).count() <= old(self).count() + (layer + 1) * (4 * pts@.len() + 70),
            final(self).indices@.len() <= old(self).indices@.len() + (layer + 1) * (18
                * pts@.len() + 288),
        decreases layer,
    {
        let ghost room = 4 * pts@.len() + 70;
        let ghost wide = 18 * pts@.len() + 288;
        assert((layer + 1) * room == layer * room + room) by (nonlinear_arith);
        assert((layer + 1) * wide == layer * wide + wide) by (nonlinear_arith);
        assert(layer * room >= 0) by (nonlinear_arith)
            requires
                room >= 0,
                layer >= 0,
        ;
        if layer == 0 {
            self.stroke_with(pts, width, false, colors);
        } else {
            let faint: Vec<[i64; 4]> = glow_colors_of(colors, layer);
            self.stroke_with(pts, glow_width_of(width, layer), true, faint.as_slice());
            let ghost mid = *self;
            assert(mid.stroked(
                old(self),
                pts@,
                glow_width(width as int, layer as int),
                true,
                glow_colors(colors@, layer as int),
            ));
            proof {
                lemma_glow_width(width as int, layer - 1, layer as int);
            }
            self.glow_from(pts, width, colors, layer - 1);
        }
    }

    /// Stacked strokes reading as a glowing line, in one color.
    pub fn glow_stroke(&mut self, pts: &[Point], width: i64, color: [i64; 4], layers: u32)
        requires
            old(self).wf(),
            glow_width(width as int, glow_layers(layers as int)) <= WIDTH_MAX,
            in_gamut(color@),
            forall|i: int| 0 <= i < pts@.len() ==> near(#[trigger] pts@[i]),
            old(self).count() + (glow_layers(layers as int) + 1) * (4 * pts@.len() + 70)
                <= VERTS_MAX,
        ensures
            final(self).wf(),
            final(self).glowed(
                old(self),
                pts@,
                width as int,
                uniform(color, pts@.len()),
                glow_layers(layers as int),
            ),
            final(self).same_frame(old(self)),
    {
        let colors: Vec<[i64; 4]> = uniform_of(color, pts.len());
        self.glow_stroke_with(pts, width, colors.as_slice(), layers);
    }

    /// `self` is `before` with one ring added.
    pub open spec fn ringed(
        &self,
        before: &Self,
        center: Point,
        r: int,
        width: int,
        color: [i64; 4],
    ) -> bool {
        let n = ring_slices(pixels(r, before.height_px as int));
        exists|arc: Seq<Point>|
            #![trigger swept(before.turn, 0, TAU as int, n, arc)]
            swept(before.turn, 0, TAU as int, n, arc) && self.stroked(
                before,
                arc_points(center, r, before.aspect as int, arc),
                width,
                false,
                uniform(color, (n + 1) as nat),
            )
    }

    /// `self` is `before` with one fill under a curve added.
    pub open spec fn filled(
        &self,
        before: &Self,
        pts: Seq<Point>,
        baseline: int,
        colors: Seq<[i64; 4]>,
    ) -> bool {
        if pts.len() < 2 {
            self.extends(before, Seq::empty(), Seq::empty())
        } else {
            self.extends(
                before,
                under_vertices(pts, baseline, colors),
                strip_indices(before.count(), pts.len() - 1),
            )
        }
    }

    /// `self` is `before` with one spoke added: a stroke along the ray at
    /// `angle` from the middle of the screen.
    pub open spec fn spoked(
        &self,
        before: &Self,
        inner: int,
        reach: int,
        angle: int,
        width: int,
        colors: Seq<[i64; 4]>,
    ) -> bool {
        exists|u: Point|
            #![trigger turned(before.turn, angle, u)]
            turned(before.turn, angle, u) && self.stroked(
                before,
                spoke_points(u, inner, reach, colors.len() as int, before.aspect as int),
                width,
                false,
                colors,
            )
    }

    /// Stroke along a ray from the middle of the screen, from radius `inner`
    /// to `inner + reach`, with evenly spaced colors.
    pub fn spoke(
        &mut self,
        inner: i64,
        reach: i64,
        angle: i64,
        width: i64,
        colors: &[[i64; 4]],
    )
        requires
            old(self).wf(),
            colors@.len() >= 2,
            0 <= inner,
            0 <= reach,
            inner + reach <= ONE,
            width <= WIDTH_MAX,
            forall|i: int| 0 <= i < colors@.len() ==> in_gamut((#[trigger] colors@[i])@),
            old(self).count() + 4 * colors@.len() + 70 <= VERTS_MAX,
        ensures
            final(self).wf(),
            final(self).same_frame(old(self)),
            final(self).spoked(
                old(self),
                inner as int,
                reach as int,
                angle as int,
                width as int,
                colors@,
            ),
            final(self).count() <= old(self).count() + 4 * colors@.len() + 70,
            final(self).indices@.len() <= old(self).indices@.len() + 18 * colors@.len() + 288,
    {
        let u: Point = self.direction(angle);
        let n: usize = colors.len();
        let origin: Point = Point { x: 0, y: 0 };
        let mut pts: Vec<Point> = Vec::with_capacity(n);
        let mut k: usize = 0;
        while k < n
            invariant
                self.wf(),
                short(u),
                2 <= n == colors@.len(),
                n <= VERTS_MAX,
                k <= n,
                origin == point(0, 0),
                0 <= inner,
                0 <= reach,
                inner + reach <= ONE,
                pts@.len() == k,
                forall|j: int|
                    0 <= j < k ==> #[trigger] pts@[j] == spoke_point(
                        u,
                        inner as int,
                        reach as int,
                        n as int,
                        self.aspect as int,
                        j,
                    ),
                forall|j: int| 0 <= j < k ==> near(#[trigger] pts@[j]),
            decreases n - k,
        {
            proof {
                let m = n - 1;
                assert(0 <= reach * k <= reach * m) by (nonlinear_arith)
                    requires
                        0 <= reach,
                        0 <= k <= m,
                ;
                assert(-0x7FFF_FFFF_FFFF_FFFF * m <= reach * k <= 0x7FFF_FFFF_FFFF_FFFF * m)
                    by (nonlinear_arith)
                    requires
                        0 <= reach * k <= reach * m,
                        reach <= 1_000_000_000,
                        m >= 1,
                ;
                assert((-reach) * m <= 0) by (nonlinear_arith)
                    requires
                        0 <= reach,
                        m >= 0,
                ;
                lemma_trunc(reach * k, m, reach as int);
            }
            let r: i64 = inner + mul_div(reach, k as i64, (n - 1) as i64);
            proof {
                lemma_polar_near(origin, u, r as int, self.aspect as int);
            }
            pts.push(step_from(origin, u, r, self.aspect));
            k = k + 1;
        }
        assert(pts@ =~= spoke_points(u, inner as int, reach as int, n as int, self.aspect as int));
        self.stroke_with(pts.as_slice(), width, false, colors);
        assert(turned(old(self).turn, angle as int, u));
    }

    /// Ring outline as a closed antialiased stroke.
    ///
    /// The segment count follows the radius in pixels, so the polygon stays
    /// below the visible-facet threshold without over-tessellating a small ring.
    pub fn ring(&mut self, center: Point, r: i64, width: i64, color: [i64; 4])
        requires
            old(self).wf(),
            ring_fits(center, r as int, old(self).aspect as int),
            width <= WIDTH_MAX,
            in_gamut(color@),
            old(self).count() + 1100 <= VERTS_MAX,
        ensures
            final(self).wf(),
            final(self).same_frame(old(self)),
            final(self).ringed(old(self), center, r as int, width as int, color),
            final(self).count() <= old(self).count() + 1098,
            final(self).indices@.len() <= old(self).indices@.len() + 4914,
    {
        proof {
            lemma_ring_side(r as int, self.aspect as int);
            assert(-131_072_000_000_000_000 <= r * self.height_px <= 131_072_000_000_000_000)
                by (nonlinear_arith)
                requires
                    -2_000_000_000_000 <= r <= 2_000_000_000_000,
                    1 <= self.height_px <= 65_536,
            ;
            lemma_trunc(r * self.height_px, 2, 131_072_000_000_000_000);
        }
        let raw: i64 = to_px(r, self.height_px);
        let r_px: i64 = if raw < ONE {
            ONE
        } else {
            raw
        };
        assert(0 <= TAU * r_px <= 6_283_185_307 * 131_072_000_000_000_000) by (nonlinear_arith)
            requires
                0 <= r_px <= 131_072_000_000_000_000,
                TAU == 6_283_185_307,
        ;
        let chords: u128 = (TAU as u128 * r_px as u128 + 2_999_999_999_999_999_999)
            / 3_000_000_000_000_000_000;
        let n: usize = clamp(chords as i64, 12, 256) as usize;
        let arc: Vec<Point> = self.sweep(0, TAU, n);
        let ghost all = arc_points(center, r as int, self.aspect as int, arc@);
        let mut pts: Vec<Point> = Vec::with_capacity(n + 1);
        let mut k: usize = 0;
        while k < arc.len()
            invariant
                self.wf(),
                ring_fits(center, r as int, self.aspect as int),
                -REACH <= r <= REACH,
                k <= arc@.len(),
                forall|j: int| 0 <= j < arc@.len() ==> short(#[trigger] arc@[j]),
                all == arc_points(center, r as int, self.aspect as int, arc@),
                pts@.len() == k,
                forall|j: int| 0 <= j < k ==> #[trigger] pts@[j] == all[j],
                forall|j: int| 0 <= j < k ==> near(#[trigger] pts@[j]),
            decreases arc@.len() - k,
        {
            let u: Point = arc[k];
            assert(short(u));
            proof {
                lemma_ring_near(center, u, r as int, self.aspect as int);
            }
            pts.push(step_from(center, u, r, self.aspect));
            k = k + 1;
        }
        assert(pts@ =~= all);
        self.stroke(pts.as_slice(), width, color, false);
        assert(swept(
            old(self).turn,
            0,
            TAU as int,
            ring_slices(pixels(r as int, old(self).height_px as int)),
            arc@,
        ));
    }
}

/// A radius without its sign.
pub open spec fn size_of_radius(r: int) -> int {
    if r < 0 {
        -r
    } else {
        r
    }
}

/// A circle that stays within reach.
pub open spec fn ring_fits(center: Point, r: int, aspect: int) -> bool {
    let dx = size_of_radius(r) * ONE / aspect;
    let dy = size_of_radius(r);
    &&& -REACH <= center.x - dx
    &&& center.x + dx <= REACH
    &&& -REACH <= center.y - dy
    &&& center.y + dy <= REACH
}

proof fn lemma_ring_side(r: int, aspect: int)
    requires
        aspect >= 1,
    ensures
        size_of_radius(r) * ONE / aspect >= 0,
{
    let a = size_of_radius(r);
    assert(a * ONE / aspect >= 0) by (nonlinear_arith)
        requires
            a >= 0,
            aspect >= 1,
    ;
}

proof fn lemma_ring_near(center: Point, u: Point, r: int, aspect: int)
    requires
        short(u),
        1_000_000 <= aspect,
        ring_fits(center, r, aspect),
    ensures
        near(offset_point(center, u, r, aspect)),
{
    let a = size_of_radius(r);
    let dx = a * ONE / aspect;
    lemma_ring_side(r, aspect);
    assert(-(a * ONE) <= u.x * r <= a * ONE) by (nonlinear_arith)
        requires
            -1_000_000_000 <= u.x <= 1_000_000_000,
            -a <= r <= a,
            ONE == 1_000_000_000,
    ;
    assert(-(a * ONE) <= u.y * r <= a * ONE) by (nonlinear_arith)
        requires
            -1_000_000_000 <= u.y <= 1_000_000_000,
            -a <= r <= a,
            ONE == 1_000_000_000,
    ;
    lemma_trunc(u.y * r, ONE as int, a);
    lemma_trunc_monotone(u.x * r, a * ONE, aspect);
    lemma_trunc_monotone(-(a * ONE), u.x * r, aspect);
    assert(trunc(a * ONE, aspect) == dx);
    assert(trunc(-(a * ONE), aspect) == -dx);
}

/// A circle around the middle of the screen, no larger than its height, stays
/// within reach at any aspect.
pub proof fn lemma_ring_fits(center: Point, r: int, aspect: int)
    requires
        -ONE <= center.x <= ONE,
        -ONE <= center.y <= ONE,
        -ONE <= r <= ONE,
        1_000_000 <= aspect,
    ensures
        ring_fits(center, r, aspect),
{
    let a = size_of_radius(r);
    lemma_ring_side(r, aspect);
    assert(a * ONE / aspect <= 1_000_000_000_000) by (nonlinear_arith)
        requires
            0 <= a <= 1_000_000_000,
            aspect >= 1_000_000,
            ONE == 1_000_000_000,
    ;
}

/// Polar points around the middle of the screen stay within reach at any aspect.
pub proof fn lemma_polar_near(center: Point, u: Point, r: int, aspect: int)
    requires
        -ONE <= center.x <= ONE,
        -ONE <= center.y <= ONE,
        short(u),
        -ONE <= r <= ONE,
        1_000_000 <= aspect,
    ensures
        near(offset_point(center, u, r, aspect)),
{
    lemma_ring_fits(center, r, aspect);
    lemma_ring_near(center, u, r, aspect);
}

/// Point `k` of the `n` of a spoke in direction `u`.
pub open spec fn spoke_point(
    u: Point,
    inner: int,
    reach: int,
    n: int,
    aspect: int,
    k: int,
) -> Point {
    offset_point(point(0, 0), u, inner + trunc(reach * k, n - 1), aspect)
}

/// Points of a spoke in direction `u`.
pub open spec fn spoke_points(
    u: Point,
    inner: int,
    reach: int,
    n: int,
    aspect: int,
) -> Seq<Point> {
    Seq::new(n as nat, |k: int| spoke_point(u, inner, reach, n, aspect, k))
}

impl<F: Fn(i64) -> Point> MeshBuilder<F> {
    /// `self` is `before` with nothing but vertices no higher than `limit` added.
    pub open spec fn kept_below(&self, before: &Self, limit: int) -> bool {
        &&& self.same_frame(before)
        &&& self.count() >= before.count()
        &&& forall|k: int| 0 <= k < before.count() ==> self.verts@[k] == before.verts@[k]
        &&& forall|k: int|
            before.count() <= k < self.count() ==> (#[trigger] self.verts@[k]).position.y <= limit
    }
}

/// At every joint of these points, a stroke of the given width stays below the
/// limit.
pub open spec fn clear_below(
    pts: Seq<Point>,
    width: int,
    aspect: int,
    height: int,
    limit: int,
) -> bool {
    forall|i: int|
        0 <= i < pts.len() ==> pts[i].y + stroke_reach(
            width,
            height,
            (#[trigger] join(stroke_normals(pts, aspect), i)).1,
        ) <= limit
}

/// A stroke whose joints stay below a limit adds no vertex above it.
pub proof fn law_stroke_kept_below<F: Fn(i64) -> Point>(
    before: &MeshBuilder<F>,
    after: &MeshBuilder<F>,
    pts: Seq<Point>,
    width: int,
    additive: bool,
    colors: Seq<[i64; 4]>,
    limit: int,
)
    requires
        1 <= before.height_px <= MAX_SIDE,
        after.stroked(before, pts, width, additive, colors),
        0 < width <= WIDTH_MAX,
        forall|i: int| 0 <= i < pts.len() ==> near(#[trigger] pts[i]),
        clear_below(pts, width, before.aspect as int, before.height_px as int, limit),
    ensures
        after.kept_below(before, limit),
{
    if pts.len() >= 2 {
        let slices = cap_slices(resolved(width).0);
        let aspect = before.aspect as int;
        let height = before.height_px as int;
        let arc = choose|arc: Seq<Point>|
            #![trigger swept(before.turn, 0, PI as int, slices, arc)]
            swept(before.turn, 0, PI as int, slices, arc) && after.extends(
                before,
                stroke_vertices(pts, colors, width, additive, aspect, height, arc),
                stroke_indices(before.count(), pts.len() as int, slices),
            );
        let vs = stroke_vertices(pts, colors, width, additive, aspect, height, arc);
        assert forall|k: int| before.count() <= k < after.count() implies (
        #[trigger] after.verts@[k]).position.y <= limit by {
            let j = k - before.count();
            law_stroke_reach(pts, colors, width, additive, aspect, height, arc, j);
            let i = stroke_point(pts.len() as int, arc.len(), j);
            assert(pts[i].y + stroke_reach(width, height, join(stroke_normals(pts, aspect), i).1)
                <= limit);
            assert(after.verts@[k] == vs[j]);
        }
    }
}

/// A wider stroke reaches further.
proof fn lemma_reach_grows(v: int, w: int, height: int, stretch: int)
    requires
        0 <= stretch,
        0 < v <= w,
        1 <= height <= MAX_SIDE,
    ensures
        stroke_reach(v, height, stretch) <= stroke_reach(w, height, stretch),
{
    let px = pixel(height);
    assert(0 <= 2_000_000_000int / height) by (nonlinear_arith)
        requires
            height >= 1,
    ;
    let (a, b) = (resolved(v).0, resolved(w).0);
    assert(0 <= a * px <= b * px) by (nonlinear_arith)
        requires
            0 <= a <= b,
            0 <= px,
    ;
    lemma_trunc_monotone(a * px, b * px, 2 * ONE);
    let (c, d) = (half_width(v, height) + px, half_width(w, height) + px);
    assert(c * stretch <= d * stretch) by (nonlinear_arith)
        requires
            c <= d,
            0 <= stretch,
    ;
}

/// A narrower stroke stays below what a wider one stays below.
proof fn lemma_clear_narrower(
    pts: Seq<Point>,
    v: int,
    w: int,
    aspect: int,
    height: int,
    limit: int,
)
    requires
        pts.len() >= 2,
        0 < v <= w,
        1 <= height <= MAX_SIDE,
        clear_below(pts, w, aspect, height, limit),
    ensures
        clear_below(pts, v, aspect, height, limit),
{
    let normals = stroke_normals(pts, aspect);
    assert forall|i: int| 0 <= i < pts.len() implies pts[i].y + stroke_reach(
        v,
        height,
        (#[trigger] join(normals, i)).1,
    ) <= limit by {
        lemma_join(pts, aspect, i);
        lemma_reach_grows(v, w, height, join(normals, i).1);
    }
}

/// A glow adds no vertex above a limit that the joints of its widest layer stay
/// below.
pub proof fn law_glow_kept_below<F: Fn(i64) -> Point>(
    before: &MeshBuilder<F>,
    after: &MeshBuilder<F>,
    pts: Seq<Point>,
    width: int,
    colors: Seq<[i64; 4]>,
    layer: int,
    limit: int,
)
    requires
        1 <= before.height_px <= MAX_SIDE,
        after.glowed(before, pts, width, colors, layer),
        pts.len() >= 2,
        0 < width,
        0 <= layer,
        glow_width(width, layer) <= WIDTH_MAX,
        forall|i: int| 0 <= i < pts.len() ==> near(#[trigger] pts[i]),
        clear_below(
            pts,
            glow_width(width, layer),
            before.aspect as int,
            before.height_px as int,
            limit,
        ),
    ensures
        after.kept_below(before, limit),
    decreases layer,
{
    let (a, h) = (before.aspect as int, before.height_px as int);
    lemma_glow_width(width, 0, layer);
    if layer == 0 {
        lemma_clear_narrower(pts, width, glow_width(width, 0), a, h, limit);
        law_stroke_kept_below(before, after, pts, width, false, colors, limit);
    } else {
        let wide = glow_width(width, layer);
        let faint = glow_colors(colors, layer);
        let mid = choose|mid: MeshBuilder<F>|
            #![trigger mid.stroked(before, pts, glow_width(width, layer), true, glow_colors(colors, layer))]
            mid.stroked(before, pts, wide, true, faint) && after.glowed(
                &mid,
                pts,
                width,
                colors,
                layer - 1,
            );
        law_stroke_kept_below(before, &mid, pts, wide, true, faint, limit);
        lemma_glow_width(width, layer - 1, layer);
        lemma_glow_width(width, 0, layer - 1);
        lemma_clear_narrower(pts, glow_width(width, layer - 1), wide, a, h, limit);
        law_glow_kept_below(&mid, after, pts, width, colors, layer - 1, limit);
        assert forall|k: int| before.count() <= k < after.count() implies (
        #[trigger] after.verts@[k]).position.y <= limit by {
            if k < mid.count() {
                assert(mid.verts@[k].position.y <= limit);
                assert(after.verts@[k] == mid.verts@[k]);
            }
        }
        assert forall|k: int| 0 <= k < before.count() implies after.verts@[k]
            == before.verts@[k] by {
            assert(mid.verts@[k] == before.verts@[k]);
            assert(after.verts@[k] == mid.verts@[k]);
        }
    }
}

/// A fill adds no vertex higher than its curve or its baseline.
pub proof fn law_fill_kept_below<F: Fn(i64) -> Point>(
    before: &MeshBuilder<F>,
    after: &MeshBuilder<F>,
    pts: Seq<Point>,
    baseline: int,
    colors: Seq<[i64; 4]>,
    top: int,
)
    requires
        after.filled(before, pts, baseline, colors),
        i64::MIN <= baseline <= top,
        baseline <= i64::MAX,
        forall|i: int| 0 <= i < pts.len() ==> (#[trigger] pts[i]).y <= top,
    ensures
        after.kept_below(before, top),
{
    if pts.len() >= 2 {
        let vs = under_vertices(pts, baseline, colors);
        assert forall|k: int| before.count() <= k < after.count() implies (
        #[trigger] after.verts@[k]).position.y <= top by {
            let j = k - before.count();
            assert(after.verts@[k] == vs[j]);
            assert(pts[j / 2].y <= top);
        }
    }
}

// -- what a stroke looks like -------------------------------------------------
/// Half the width of a stroke is half its pixels, as a share of the screen.
pub proof fn law_half_width(width: int, height: int)
    requires
        0 < width <= WIDTH_MAX,
        1 <= height <= MAX_SIDE,
    ensures
        0 <= resolved(width).0 * pixel(height) - 2_000_000_000 * half_width(width, height)
            < 2_000_000_000,
{
    lemma_half_width(width, height);
    let n = resolved(width).0 * pixel(height);
    assert(n >= 0) by (nonlinear_arith)
        requires
            n == resolved(width).0 * pixel(height),
            resolved(width).0 >= 0,
            pixel(height) >= 0,
    ;
}

/// The vertices of a stroke that was added to a mesh: four per point, then two caps.
proof fn lemma_stroke<F: Fn(i64) -> Point>(
    before: &MeshBuilder<F>,
    after: &MeshBuilder<F>,
    pts: Seq<Point>,
    width: int,
    additive: bool,
    colors: Seq<[i64; 4]>,
) -> (arc: Seq<Point>)
    requires
        after.stroked(before, pts, width, additive, colors),
        pts.len() >= 2,
        width > 0,
    ensures
        swept(before.turn, 0, PI as int, cap_slices(resolved(width).0), arc),
        after.extends(
            before,
            stroke_vertices(
                pts,
                colors,
                width,
                additive,
                before.aspect as int,
                before.height_px as int,
                arc,
            ),
            stroke_indices(before.count(), pts.len() as int, cap_slices(resolved(width).0)),
        ),
{
    let slices = cap_slices(resolved(width).0);
    choose|arc: Seq<Point>|
        #![trigger swept(before.turn, 0, PI as int, slices, arc)]
        swept(before.turn, 0, PI as int, slices, arc) && after.extends(
            before,
            stroke_vertices(
                pts,
                colors,
                width,
                additive,
                before.aspect as int,
                before.height_px as int,
                arc,
            ),
            stroke_indices(before.count(), pts.len() as int, slices),
        )
}

/// Vertex `j` of the four at point `i` of a stroke.
proof fn lemma_rib<F: Fn(i64) -> Point>(
    before: &MeshBuilder<F>,
    after: &MeshBuilder<F>,
    pts: Seq<Point>,
    width: int,
    additive: bool,
    colors: Seq<[i64; 4]>,
    i: int,
    j: int,
)
    requires
        after.stroked(before, pts, width, additive, colors),
        pts.len() >= 2,
        width > 0,
        0 <= i < pts.len(),
        0 <= j < 4,
    ensures
        before.count() + 4 * i + j < after.count(),
        after.verts@[before.count() + 4 * i + j] == rib_vertex(
            pts[i],
            join(stroke_normals(pts, before.aspect as int), i),
            half_width(width, before.height_px as int),
            pixel(before.height_px as int),
            before.aspect as int,
            stroke_color(colors[i], width, additive),
            j,
        ),
{
    let arc = lemma_stroke(before, after, pts, width, additive, colors);
    let vs = stroke_vertices(
        pts,
        colors,
        width,
        additive,
        before.aspect as int,
        before.height_px as int,
        arc,
    );
    let k = 4 * i + j;
    assert(k / 4 == i && k % 4 == j);
    assert(after.verts@[before.count() + k] == vs[k]);
    let ribs = rib_vertices(
        pts,
        colors,
        width,
        additive,
        before.aspect as int,
        before.height_px as int,
    );
    assert(vs[k] == ribs[k]);
}

/// The color of a stroke varies along its length: the two core vertices at point `i`
/// carry the color given for that point, premultiplied by its alpha and no other,
/// and the two fringe vertices beside them are clear. A stroke too thin to be drawn
/// as it is has its alpha scaled down instead.
pub proof fn law_stroke_colors<F: Fn(i64) -> Point>(
    before: &MeshBuilder<F>,
    after: &MeshBuilder<F>,
    pts: Seq<Point>,
    width: int,
    additive: bool,
    colors: Seq<[i64; 4]>,
    i: int,
    k: int,
)
    requires
        after.stroked(before, pts, width, additive, colors),
        pts.len() >= 2,
        width > 0,
        0 <= i < pts.len(),
        in_gamut(colors[i]@),
        0 <= k < 3,
    ensures
        ({
            let base = before.count() + 4 * i;
            let given = colors[i];
            let core = after.verts@[base + 1].color;
            let alpha = if width >= 1_250_000_000 {
                given[3] as int
            } else {
                given[3] * (width * 1_000_000_000 / 1_250_000_000) / 1_000_000_000
            };
            &&& base + 3 < after.count()
            &&& after.verts@[base + 2].color == core
            &&& 0 <= given[k] * alpha - 1_000_000_000 * core[k] < 1_000_000_000
            &&& additive ==> core[3] == 0
            &&& !additive ==> core[3] == alpha
            &&& width >= 1_250_000_000 && given[3] == 1_000_000_000 ==> core[k] == given[k]
            &&& after.verts@[base].color@ == seq![0i64, 0i64, 0i64, 0i64]
            &&& after.verts@[base + 3].color@ == seq![0i64, 0i64, 0i64, 0i64]
        }),
{
    lemma_rib(before, after, pts, width, additive, colors, i, 0);
    lemma_rib(before, after, pts, width, additive, colors, i, 1);
    lemma_rib(before, after, pts, width, additive, colors, i, 2);
    lemma_rib(before, after, pts, width, additive, colors, i, 3);
    let c = colors[i];
    let by = resolved(width).1;
    law_thin_strokes(width);
    assert(0 <= by <= ONE);
    assert(0 <= c@[3] <= ONE && 0 <= c@[k] <= ONE);
    law_faded(c, by, 0);
    law_faded(c, by, 1);
    law_faded(c, by, 2);
    let f = faded(c, by);
    let a = c[3] as int;
    assert(0 <= a * by <= 1_000_000_000 * 1_000_000_000) by (nonlinear_arith)
        requires
            0 <= a <= 1_000_000_000,
            0 <= by <= 1_000_000_000,
    ;
    assert(0 <= c@[0] <= ONE && 0 <= c@[1] <= ONE && 0 <= c@[2] <= ONE);
    assert(in_gamut(f@)) by {
        assert forall|m: int| 0 <= m < 4 implies 0 <= #[trigger] f@[m] <= ONE by {
            if m == 3 {
            } else {
                assert(f[m] == c[m]);
            }
        }
    }
    law_encoded(f, additive, k);
    assert(CLEAR@ =~= seq![0i64, 0i64, 0i64, 0i64]);
}

/// A stroke runs along its points: at each of them its two edges, and the two of its
/// fringe, lie to both sides alike, along the direction in which the point is joined
/// and as far as half the width, or half the width and a pixel, stretched by the
/// joint.
pub proof fn law_stroke_follows_its_points<F: Fn(i64) -> Point>(
    before: &MeshBuilder<F>,
    after: &MeshBuilder<F>,
    pts: Seq<Point>,
    width: int,
    additive: bool,
    colors: Seq<[i64; 4]>,
    i: int,
) -> (r: (int, int))
    requires
        before.wf(),
        after.stroked(before, pts, width, additive, colors),
        pts.len() >= 2,
        0 < width <= WIDTH_MAX,
        forall|j: int| 0 <= j < pts.len() ==> near(#[trigger] pts[j]),
        0 <= i < pts.len(),
    ensures
        ({
            let (inner, outer) = r;
            let base = before.count() + 4 * i;
            let (dir, scale) = join(stroke_normals(pts, before.aspect as int), i);
            let half = half_width(width, before.height_px as int);
            let px = 2_000_000_000int / (before.height_px as int);
            let aspect = before.aspect as int;
            &&& base + 3 < after.count()
            &&& 0 <= half * scale - 1_000_000_000 * inner < 1_000_000_000
            &&& 0 <= (half + px) * scale - 1_000_000_000 * outer < 1_000_000_000
            &&& after.verts@[base].position == offset_point(pts[i], dir, -outer, aspect)
            &&& after.verts@[base + 1].position == offset_point(pts[i], dir, -inner, aspect)
            &&& after.verts@[base + 2].position == offset_point(pts[i], dir, inner, aspect)
            &&& after.verts@[base + 3].position == offset_point(pts[i], dir, outer, aspect)
            &&& after.verts@[base + 1].position.y + after.verts@[base + 2].position.y == 2
                * pts[i].y
            &&& after.verts@[base + 1].position.x + after.verts@[base + 2].position.x == 2
                * pts[i].x
        }),
{
    lemma_rib(before, after, pts, width, additive, colors, i, 0);
    lemma_rib(before, after, pts, width, additive, colors, i, 1);
    lemma_rib(before, after, pts, width, additive, colors, i, 2);
    lemma_rib(before, after, pts, width, additive, colors, i, 3);
    let height = before.height_px as int;
    let aspect = before.aspect as int;
    lemma_half_width(width, height);
    lemma_join(pts, aspect, i);
    let (dir, scale) = join(stroke_normals(pts, aspect), i);
    let half = half_width(width, height);
    let px = pixel(height);
    lemma_miter_offset(half, half + px, scale);
    lemma_miter_offset(half + px, half + px, scale);
    let inner = trunc(half * scale, ONE as int);
    let outer = trunc((half + px) * scale, ONE as int);
    assert(half * scale >= 0 && (half + px) * scale >= 0) by (nonlinear_arith)
        requires
            half >= 0,
            px >= 0,
            scale >= 0,
    ;
    let p = pts[i];
    assert(near(p));
    assert(inner <= 4 * (1_000_000_000_000_000 + 2_000_000_000));
    law_step(p, dir, inner, aspect);
    law_step(p, dir, -inner, aspect);
    assert(dir.x * (-inner) == -(dir.x * inner) && dir.y * (-inner) == -(dir.y * inner))
        by (nonlinear_arith);
    let (dx, dy) = (trunc(dir.x * inner, aspect), trunc(dir.y * inner, ONE as int));
    lemma_step_range(dir, inner, aspect);
    (inner, outer)
}

proof fn lemma_step_range(dir: Point, d: int, aspect: int)
    requires
        short(dir),
        0 <= d <= OFFSET_MAX,
        1_000_000 <= aspect,
    ensures
        -4_500_000_000_000_000_000 <= trunc(dir.x * d, aspect) <= 4_500_000_000_000_000_000,
        -4_500_000_000_000_000 <= trunc(dir.y * d, ONE as int) <= 4_500_000_000_000_000,
        trunc(-(dir.x * d), aspect) == -trunc(dir.x * d, aspect),
        trunc(-(dir.y * d), ONE as int) == -trunc(dir.y * d, ONE as int),
{
    let (u, v) = (dir.x * d, dir.y * d);
    assert(-4_500_000_000_000_000_000_000_000 <= u <= 4_500_000_000_000_000_000_000_000
        && -4_500_000_000_000_000_000_000_000 <= v <= 4_500_000_000_000_000_000_000_000)
        by (nonlinear_arith)
        requires
            u == dir.x * d,
            v == dir.y * d,
            -1_000_000_000 <= dir.x <= 1_000_000_000,
            -1_000_000_000 <= dir.y <= 1_000_000_000,
            0 <= d <= 4_500_000_000_000_000,
    ;
    let top = 4_500_000_000_000_000_000 * aspect;
    assert(top >= 4_500_000_000_000_000_000_000_000) by (nonlinear_arith)
        requires
            top == 4_500_000_000_000_000_000 * aspect,
            aspect >= 1_000_000,
    ;
    assert(-4_500_000_000_000_000_000 * aspect == -top);
    lemma_trunc(u, aspect, 4_500_000_000_000_000_000);
    lemma_trunc(v, ONE as int, 4_500_000_000_000_000);
    if u == 0 {
        assert(0int / aspect == 0) by (nonlinear_arith)
            requires
                aspect > 0,
        ;
    }
}

/// The vertices of a cap: its middle, then core and fringe of each direction.
proof fn lemma_cap(
    p: Point,
    normal: Point,
    out: Point,
    half: int,
    feather: int,
    aspect: int,
    core: [i64; 4],
    arc: Seq<Point>,
    k: int,
)
    requires
        0 <= k < arc.len(),
    ensures
        ({
            let vs = cap_vertices(p, normal, out, half, feather, aspect, core, arc);
            let dir = cap_direction(normal, out, arc[k]);
            &&& vs.len() == 1 + 2 * arc.len()
            &&& vs[0] == (Vertex { position: p, color: core })
            &&& vs[1 + 2 * k] == (Vertex {
                position: offset_point(p, dir, half, aspect),
                color: core,
            })
            &&& vs[2 + 2 * k] == (Vertex {
                position: offset_point(p, dir, half + feather, aspect),
                color: CLEAR,
            })
        }),
{
    assert((1 + 2 * k) / 2 == k && (2 + 2 * k) / 2 - 1 == k);
    assert((1 + 2 * k) % 2 == 1 && (2 + 2 * k) % 2 == 0);
}

/// Where the vertices of the two caps stand in a stroke: behind those of its points.
proof fn lemma_caps_follow<F: Fn(i64) -> Point>(
    before: &MeshBuilder<F>,
    after: &MeshBuilder<F>,
    pts: Seq<Point>,
    width: int,
    additive: bool,
    colors: Seq<[i64; 4]>,
    arc: Seq<Point>,
    m: int,
)
    requires
        after.extends(
            before,
            stroke_vertices(
                pts,
                colors,
                width,
                additive,
                before.aspect as int,
                before.height_px as int,
                arc,
            ),
            stroke_indices(before.count(), pts.len() as int, cap_slices(resolved(width).0)),
        ),
        pts.len() >= 2,
        colors.len() == pts.len(),
        0 <= m < 1 + 2 * arc.len(),
    ensures
        ({
            let (aspect, height) = (before.aspect as int, before.height_px as int);
            let n = pts.len() as int;
            let normals = stroke_normals(pts, aspect);
            let half = half_width(width, height);
            let px = pixel(height);
            let head = before.count() + 4 * n;
            &&& after.count() == head + 2 * (1 + 2 * arc.len())
            &&& after.verts@[head + m] == cap_vertices(
                pts[0],
                normals[0],
                left(normals[0]),
                half,
                px,
                aspect,
                stroke_color(colors[0], width, additive),
                arc,
            )[m]
            &&& after.verts@[head + 1 + 2 * arc.len() + m] == cap_vertices(
                pts[n - 1],
                normals[n - 2],
                right(normals[n - 2]),
                half,
                px,
                aspect,
                stroke_color(colors[n - 1], width, additive),
                arc,
            )[m]
        }),
{
    let (aspect, height) = (before.aspect as int, before.height_px as int);
    let n = pts.len() as int;
    let normals = stroke_normals(pts, aspect);
    assert(pts.last() == pts[n - 1] && colors.last() == colors[n - 1] && normals.last()
        == normals[n - 2]);
    let vs = stroke_vertices(pts, colors, width, additive, aspect, height, arc);
    let size = 1 + 2 * arc.len();
    assert(after.verts@[before.count() + (4 * n + m)] == vs[4 * n + m]);
    assert(after.verts@[before.count() + (4 * n + size + m)] == vs[4 * n + size + m]);
}

/// A stroke ends in half-discs: one about its first point in the color of that
/// point, one about its last in the color of that. Each fans out from its middle,
/// in core and fringe, in evenly spaced turns of a half-circle from the one edge of
/// the stroke to the other, outward.
#[verifier::rlimit(80)]
pub proof fn law_stroke_caps<F: Fn(i64) -> Point>(
    before: &MeshBuilder<F>,
    after: &MeshBuilder<F>,
    pts: Seq<Point>,
    width: int,
    additive: bool,
    colors: Seq<[i64; 4]>,
    last: bool,
    k: int,
) -> (u: Point)
    requires
        after.stroked(before, pts, width, additive, colors),
        pts.len() >= 2,
        width > 0,
        colors.len() == pts.len(),
        0 <= k <= cap_slices(resolved(width).0),
    ensures
        ({
            let slices = cap_slices(resolved(width).0);
            let (aspect, height) = (before.aspect as int, before.height_px as int);
            let n = pts.len() as int;
            let normals = stroke_normals(pts, aspect);
            let half = half_width(width, height);
            let px = 2_000_000_000int / height;
            let i = if last {
                n - 1
            } else {
                0
            };
            let at = if last {
                before.count() + 4 * n + 2 * slices + 3
            } else {
                before.count() + 4 * n
            };
            let dir = if last {
                cap_direction(normals[n - 2], right(normals[n - 2]), u)
            } else {
                cap_direction(normals[0], left(normals[0]), u)
            };
            let c = after.verts@[before.count() + 4 * i + 1].color;
            &&& turned(before.turn, trunc(3_141_592_654 * k, slices), u)
            &&& after.count() == before.count() + 4 * n + 4 * slices + 6
            &&& after.verts@[at] == (Vertex { position: pts[i], color: c })
            &&& after.verts@[at + 1 + 2 * k] == (Vertex {
                position: offset_point(pts[i], dir, half, aspect),
                color: c,
            })
            &&& after.verts@[at + 2 + 2 * k] == (Vertex {
                position: offset_point(pts[i], dir, half + px, aspect),
                color: CLEAR,
            })
        }),
{
    let slices = cap_slices(resolved(width).0);
    let (aspect, height) = (before.aspect as int, before.height_px as int);
    let n = pts.len() as int;
    let arc = lemma_stroke(before, after, pts, width, additive, colors);
    let normals = stroke_normals(pts, aspect);
    let half = half_width(width, height);
    let px = pixel(height);
    assert(turned(before.turn, arc_angle(0, PI as int, slices, k), arc[k]));
    if last {
        lemma_rib(before, after, pts, width, additive, colors, n - 1, 1);
        let d = stroke_color(colors[n - 1], width, additive);
        lemma_cap(pts[n - 1], normals[n - 2], right(normals[n - 2]), half, px, aspect, d, arc, k);
    } else {
        lemma_rib(before, after, pts, width, additive, colors, 0, 1);
        let c = stroke_color(colors[0], width, additive);
        lemma_cap(pts[0], normals[0], left(normals[0]), half, px, aspect, c, arc, k);
    }
    lemma_caps_follow(before, after, pts, width, additive, colors, arc, 0);
    lemma_caps_follow(before, after, pts, width, additive, colors, arc, 1 + 2 * k);
    lemma_caps_follow(before, after, pts, width, additive, colors, arc, 2 + 2 * k);
    arc[k]
}

/// A cap turns with its sweep: from the stroke's normal, through its outward side, to
/// the other normal.
pub proof fn law_cap_sweeps(normal: Point, out: Point)
    requires
        short(normal),
        short(out),
    ensures
        cap_direction(normal, out, point(1_000_000_000, 0)) == normal,
        cap_direction(normal, out, point(0, 1_000_000_000)) == out,
        cap_direction(normal, out, point(-1_000_000_000, 0)) == point(-normal.x, -normal.y),
{
    let (a, b, c) = (point(1_000_000_000, 0), point(0, 1_000_000_000), point(-1_000_000_000, 0));
    assert(normal.x * a.x + out.x * a.y == normal.x * 1_000_000_000 && normal.y * a.x + out.y * a.y
        == normal.y * 1_000_000_000) by (nonlinear_arith)
        requires
            a.x == 1_000_000_000,
            a.y == 0,
    ;
    assert(normal.x * b.x + out.x * b.y == out.x * 1_000_000_000 && normal.y * b.x + out.y * b.y
        == out.y * 1_000_000_000) by (nonlinear_arith)
        requires
            b.x == 0,
            b.y == 1_000_000_000,
    ;
    assert(normal.x * c.x + out.x * c.y == -normal.x * 1_000_000_000 && normal.y * c.x + out.y * c.y
        == -normal.y * 1_000_000_000) by (nonlinear_arith)
        requires
            c.x == -1_000_000_000,
            c.y == 0,
    ;
}

/// A cap has a wedge for every two and a half pixels of its half-circle, at least two
/// and at most sixteen; a rounded corner one for as much of its quarter, from one to
/// eight.
pub proof fn law_arc_steps(px: int)
    requires
        px >= 0,
    ensures
        2 <= cap_slices(px) <= 16,
        1 <= corner_slices(px) <= 8,
        cap_slices(px) < 16 ==> cap_slices(px) * 5_000_000_000_000_000_000 >= 3_141_592_654 * px,
        cap_slices(px) > 2 ==> (cap_slices(px) - 1) * 5_000_000_000_000_000_000 < 3_141_592_654
            * px,
        corner_slices(px) < 8 ==> corner_slices(px) * 5_000_000_000_000_000_000 >= 3_141_592_654
            * px,
        corner_slices(px) > 1 ==> (corner_slices(px) - 1) * 5_000_000_000_000_000_000
            < 3_141_592_654 * px,
{
}

/// The ribbon of a stroke is three strips of quads from each point to the next: from
/// fringe to core, across the core, and out again.
pub proof fn law_ribbon_quads(first: int, w: int, q: int, j: int)
    requires
        0 <= j < 6,
    ensures
        ({
            let (a, b) = (first + 4 * w, first + 4 * (w + 1));
            let corners = seq![a + q, a + q + 1, b + q + 1, a + q, b + q + 1, b + q];
            ribbon_index(first, w, q, j) == corners[j]
        }),
{
}

/// Indices of a stroke: its ribbon, then the fans of its two caps about their
/// middles.
pub proof fn law_stroke_indices(first: int, n: int, slices: int, w: int, q: int, j: int)
    requires
        n >= 2,
        slices >= 1,
        0 <= first,
        first + 4 * n + 4 * slices + 6 <= u32::MAX,
        0 <= w < n - 1,
        0 <= q < 3,
        0 <= j < 6,
    ensures
        ({
            let all = stroke_indices(first, n, slices);
            let head = first + 4 * n;
            let tail = head + 2 * slices + 3;
            &&& all.len() == 18 * (n - 1) + 18 * slices
            &&& all[18 * w + 6 * q + j] == ribbon_index(first, w, q, j)
            &&& forall|s: int|
                0 <= s < slices ==> {
                    &&& #[trigger] all[18 * (n - 1) + 9 * s] == head
                    &&& all[18 * (n - 1) + 9 * s + 1] == head + 1 + 2 * s
                    &&& all[18 * (n - 1) + 9 * s + 2] == head + 3 + 2 * s
                }
            &&& forall|s: int|
                0 <= s < slices ==> {
                    &&& #[trigger] all[18 * (n - 1) + 9 * slices + 9 * s] == tail
                    &&& all[18 * (n - 1) + 9 * slices + 9 * s + 1] == tail + 1 + 2 * s
                    &&& all[18 * (n - 1) + 9 * slices + 9 * s + 2] == tail + 3 + 2 * s
                }
        }),
{
    let all = stroke_indices(first, n, slices);
    let ribbon = ribbon_indices(first, n - 1);
    let head = first + 4 * n;
    let tail = head + 2 * slices + 3;
    let one = fan_indices(head, head + 1, slices, slices + 1);
    let two = fan_indices(tail, tail + 1, slices, slices + 1);
    assert(all == ribbon + one + two);
    let k = 18 * w + 6 * q + j;
    assert(k / 18 == w && k % 18 == 6 * q + j && (6 * q + j) / 6 == q && k % 6 == j);
    assert(all[k] == ribbon[k]);
    assert forall|s: int| 0 <= s < slices implies {
        &&& #[trigger] all[18 * (n - 1) + 9 * s] == head
        &&& all[18 * (n - 1) + 9 * s + 1] == head + 1 + 2 * s
        &&& all[18 * (n - 1) + 9 * s + 2] == head + 3 + 2 * s
    } by {
        assert(all[18 * (n - 1) + 9 * s] == one[9 * s]);
        assert(all[18 * (n - 1) + 9 * s + 1] == one[9 * s + 1]);
        assert(all[18 * (n - 1) + 9 * s + 2] == one[9 * s + 2]);
    }
    assert forall|s: int| 0 <= s < slices implies {
        &&& #[trigger] all[18 * (n - 1) + 9 * slices + 9 * s] == tail
        &&& all[18 * (n - 1) + 9 * slices + 9 * s + 1] == tail + 1 + 2 * s
        &&& all[18 * (n - 1) + 9 * slices + 9 * s + 2] == tail + 3 + 2 * s
    } by {
        let at = 18 * (n - 1) + 9 * slices + 9 * s;
        assert(all[at] == two[9 * s]);
        assert(all[at + 1] == two[9 * s + 1]);
        assert(all[at + 2] == two[9 * s + 2]);
    }
}

/// A fill hangs from its curve: at each point one vertex on the curve and one
/// straight below it on the baseline, both in the color given for that point.
pub proof fn law_fill_hangs_from_its_curve<F: Fn(i64) -> Point>(
    before: &MeshBuilder<F>,
    after: &MeshBuilder<F>,
    pts: Seq<Point>,
    baseline: int,
    colors: Seq<[i64; 4]>,
    i: int,
)
    requires
        after.filled(before, pts, baseline, colors),
        pts.len() >= 2,
        i64::MIN <= baseline <= i64::MAX,
        0 <= i < pts.len(),
    ensures
        ({
            let (top, foot) = (
                after.verts@[before.count() + 2 * i],
                after.verts@[before.count() + 2 * i + 1],
            );
            &&& after.count() == before.count() + 2 * pts.len()
            &&& top.position == pts[i]
            &&& foot.position.x == pts[i].x
            &&& foot.position.y == baseline
            &&& top.color == encoded(colors[i], false)
            &&& foot.color == top.color
        }),
{
    let vs = under_vertices(pts, baseline, colors);
    assert(after.verts@[before.count() + 2 * i] == vs[2 * i]);
    assert(after.verts@[before.count() + 2 * i + 1] == vs[2 * i + 1]);
    assert((2 * i) / 2 == i && (2 * i + 1) / 2 == i);
}

/// The strip of a fill is a quad from each point to the next, down to the baseline.
pub proof fn law_fill_quads(first: int, spans: int, w: int, j: int)
    requires
        0 <= w < spans,
        0 <= j < 6,
        0 <= first,
        first + 2 * spans + 2 <= u32::MAX,
    ensures
        ({
            let (a, b) = (first + 2 * w, first + 2 * (w + 1));
            let corners = seq![a, b, b + 1, a, b + 1, a + 1];
            &&& strip_indices(first, spans).len() == 6 * spans
            &&& strip_indices(first, spans)[6 * w + j] == corners[j]
        }),
{
    let k = 6 * w + j;
    assert(k / 6 == w && k % 6 == j);
}

/// Layer `layer` of a glow is wider by 2.4 of the line for each layer, and its alpha
/// is divided by one more than three for each; its colors stay.
pub proof fn law_glow_layer(width: int, c: [i64; 4], layer: int, k: int)
    requires
        0 < width,
        0 <= layer,
        in_gamut(c@),
        0 <= k < 3,
    ensures
        0 <= width * (10 + 24 * layer) - 10 * glow_width(width, layer) < 10,
        glow_color(c, layer)[k] == c[k],
        glow_color(c, layer)[3] * (1 + 3 * layer) <= c[3] < (glow_color(c, layer)[3] + 1) * (1 + 3
            * layer),
{
    assert(0 <= c@[3] <= ONE);
    let (a, d) = (c[3] as int, 1 + 3 * layer);
    vstd::arithmetic::div_mod::lemma_fundamental_div_mod(a, d);
    vstd::arithmetic::div_mod::lemma_mod_bound(a, d);
    let q = a / d;
    assert(d * q == q * d && (q + 1) * d == q * d + d) by (nonlinear_arith);
    assert(0 <= q <= a) by (nonlinear_arith)
        requires
            q * d <= a < q * d + d,
            0 <= a,
            d >= 1,
    ;
}

/// A glow is drawn from the outside in: its widest layer additively, then the rest,
/// and last of all the line itself, which covers what is behind it.
pub proof fn law_glow_order<F: Fn(i64) -> Point>(
    before: &MeshBuilder<F>,
    after: &MeshBuilder<F>,
    pts: Seq<Point>,
    width: int,
    colors: Seq<[i64; 4]>,
    layer: int,
) -> (mid: MeshBuilder<F>)
    requires
        after.glowed(before, pts, width, colors, layer),
        0 <= layer,
    ensures
        layer == 0 ==> after.stroked(before, pts, width, false, colors),
        layer > 0 ==> mid.stroked(
            before,
            pts,
            glow_width(width, layer),
            true,
            colors.map_values(|c: [i64; 4]| glow_color(c, layer)),
        ) && after.glowed(&mid, pts, width, colors, layer - 1),
{
    if layer > 0 {
        assert(glow_colors(colors, layer) =~= colors.map_values(
            |c: [i64; 4]| glow_color(c, layer),
        ));
        choose|mid: MeshBuilder<F>|
            #![trigger mid.stroked(before, pts, glow_width(width, layer), true, glow_colors(colors, layer))]
            mid.stroked(
                before,
                pts,
                glow_width(width, layer),
                true,
                glow_colors(colors, layer),
            ) && after.glowed(&mid, pts, width, colors, layer - 1)
    } else {
        *after
    }
}

/// A ring is a stroke around its center, all of it in one color: point `k` of its
/// evenly spaced turns lies the radius away along that turn.
pub proof fn law_ring_is_round<F: Fn(i64) -> Point>(
    before: &MeshBuilder<F>,
    after: &MeshBuilder<F>,
    center: Point,
    r: int,
    width: int,
    color: [i64; 4],
    k: int,
) -> (s: (Seq<Point>, Point))
    requires
        after.ringed(before, center, r, width, color),
        0 <= k <= ring_slices(pixels(r, before.height_px as int)),
    ensures
        ({
            let (pts, u) = s;
            let n = ring_slices(pixels(r, before.height_px as int));
            &&& pts.len() == n + 1
            &&& turned(before.turn, trunc(6_283_185_307 * k, n), u)
            &&& pts[k] == offset_point(center, u, r, before.aspect as int)
            &&& after.stroked(before, pts, width, false, Seq::new(pts.len(), |i: int| color))
        }),
{
    let n = ring_slices(pixels(r, before.height_px as int));
    let arc = choose|arc: Seq<Point>|
        #![trigger swept(before.turn, 0, TAU as int, n, arc)]
        swept(before.turn, 0, TAU as int, n, arc) && after.stroked(
            before,
            arc_points(center, r, before.aspect as int, arc),
            width,
            false,
            uniform(color, (n + 1) as nat),
        );
    let pts = arc_points(center, r, before.aspect as int, arc);
    assert(uniform(color, (n + 1) as nat) =~= Seq::new(pts.len(), |i: int| color));
    assert(turned(before.turn, arc_angle(0, TAU as int, n, k), arc[k]));
    (pts, arc[k])
}

/// A ring has a chord for every three pixels of its circle, from 12 to 256.
pub proof fn law_ring_slices(r_px: int)
    requires
        r_px >= 1_000_000_000,
    ensures
        12 <= ring_slices(r_px) <= 256,
        ring_slices(r_px) < 256 ==> ring_slices(r_px) * 3_000_000_000_000_000_000 >= 6_283_185_307
            * r_px,
        ring_slices(r_px) > 12 ==> (ring_slices(r_px) - 1) * 3_000_000_000_000_000_000
            < 6_283_185_307 * r_px,
{
}

/// A spoke is a stroke along one ray from the middle of the screen, its points evenly
/// spaced from the inner radius to the outer, each in its own color.
pub proof fn law_spoke_runs_outward<F: Fn(i64) -> Point>(
    before: &MeshBuilder<F>,
    after: &MeshBuilder<F>,
    inner: int,
    reach: int,
    angle: int,
    width: int,
    colors: Seq<[i64; 4]>,
    k: int,
) -> (s: (Seq<Point>, Point, int))
    requires
        after.spoked(before, inner, reach, angle, width, colors),
        colors.len() >= 2,
        0 <= reach,
        0 <= k < colors.len(),
    ensures
        ({
            let (pts, u, r) = s;
            let n = colors.len() - 1;
            &&& pts.len() == colors.len()
            &&& turned(before.turn, angle, u)
            &&& pts[k] == offset_point(point(0, 0), u, r, before.aspect as int)
            &&& 0 <= reach * k - n * (r - inner) < n
            &&& k == 0 ==> r == inner
            &&& k == n ==> r == inner + reach
            &&& after.stroked(before, pts, width, false, colors)
        }),
{
    let u = choose|u: Point|
        #![trigger turned(before.turn, angle, u)]
        turned(before.turn, angle, u) && after.stroked(
            before,
            spoke_points(u, inner, reach, colors.len() as int, before.aspect as int),
            width,
            false,
            colors,
        );
    let n = colors.len() - 1;
    let m = reach * k;
    assert(m >= 0) by (nonlinear_arith)
        requires
            m == reach * k,
            reach >= 0,
            k >= 0,
    ;
    vstd::arithmetic::div_mod::lemma_fundamental_div_mod(m, n);
    vstd::arithmetic::div_mod::lemma_mod_bound(m, n);
    let q = m / n;
    if k == 0 {
        assert(m == 0) by (nonlinear_arith)
            requires
                m == reach * k,
                k == 0,
        ;
        assert(q == 0) by (nonlinear_arith)
            requires
                n * q <= 0,
                n * q + n > 0,
                n >= 1,
        ;
    }
    if k == n {
        assert(q == reach) by (nonlinear_arith)
            requires
                n * q <= reach * n,
                n * q + n > reach * n,
                n >= 1,
        ;
    }
    (
        spoke_points(u, inner, reach, colors.len() as int, before.aspect as int),
        u,
        inner + trunc(m, n),
    )
}

/// A plain rectangle has its four corners where they were asked for, all in the one
/// color.
pub proof fn law_rect_corners(x0: i64, y0: i64, x1: i64, y1: i64, color: [i64; 4])
    ensures
        ({
            let vs = rect_vertices(x0 as int, y0 as int, x1 as int, y1 as int, color);
            let c = encoded(color, false);
            &&& vs.len() == 4
            &&& vs[0] == (Vertex { position: Point { x: x0, y: y1 }, color: c })
            &&& vs[1] == (Vertex { position: Point { x: x1, y: y1 }, color: c })
            &&& vs[2] == (Vertex { position: Point { x: x1, y: y0 }, color: c })
            &&& vs[3] == (Vertex { position: Point { x: x0, y: y0 }, color: c })
        }),
{
}

/// The radius of a corner is the one asked for, as far as half the shorter side.
pub proof fn law_corner_radius(dx: int, dy: int, radius_px: int, aspect: int, height: int)
    requires
        dx >= 0,
        dy >= 0,
        aspect >= 0,
        height >= 1,
    ensures
        ({
            let r = corner_px(dx, dy, radius_px, aspect, height);
            let w = pixels(screen_width(dx, aspect), height);
            let h = pixels(dy, height);
            &&& r >= 0
            &&& 2 * r <= w
            &&& 2 * r <= h
            &&& radius_px >= 0 ==> r <= radius_px
            &&& r < radius_px ==> 2 * r + 1 >= w || 2 * r + 1 >= h
        }),
{
    let s = dx * aspect;
    assert(s >= 0) by (nonlinear_arith)
        requires
            s == dx * aspect,
            dx >= 0,
            aspect >= 0,
    ;
    let v = screen_width(dx, aspect);
    assert(v * height >= 0 && dy * height >= 0) by (nonlinear_arith)
        requires
            v >= 0,
            dy >= 0,
            height >= 1,
    ;
}

/// A filled outline is a fan about its centroid in the one color, edged by a clear
/// fringe as far out as the feather along the outward direction of each point.
pub proof fn law_outline(pts: Seq<Point>, core: [i64; 4], aspect: int, feather: int, i: int)
    requires
        0 <= i < pts.len(),
    ensures
        ({
            let vs = outline_vertices(pts, core, aspect, feather);
            &&& vs.len() == 1 + 2 * pts.len()
            &&& vs[0] == (Vertex { position: centroid(pts), color: core })
            &&& vs[1 + 2 * i] == (Vertex { position: pts[i], color: core })
            &&& vs[2 + 2 * i].position == offset_point(
                pts[i],
                outward(pts, aspect, i),
                feather,
                aspect,
            )
            &&& vs[2 + 2 * i].color@ == seq![0i64, 0i64, 0i64, 0i64]
        }),
{
    assert((1 + 2 * i) / 2 == i && (2 + 2 * i) / 2 - 1 == i);
    assert(CLEAR@ =~= seq![0i64, 0i64, 0i64, 0i64]);
}

/// The outward direction of a point of an outline lies between the right-hand normals
/// of the two edges that meet there, wrapping around from the last point to the
/// first.
pub proof fn law_outward(pts: Seq<Point>, aspect: int, i: int)
    requires
        pts.len() >= 3,
        0 <= i < pts.len(),
    ensures
        ({
            let n = pts.len() as int;
            let (p, q) = (pts[(i + n - 1) % n], pts[(i + 1) % n]);
            let e0 = right(heading(p, pts[i], aspect));
            let e1 = right(heading(pts[i], q, aspect));
            let (x, y) = (e0.x + e1.x, e0.y + e1.y);
            &&& x != 0 || y != 0 ==> outward(pts, aspect, i) == unit(x, y)
            &&& x == 0 && y == 0 ==> outward(pts, aspect, i) == e1
        }),
{
    let n = pts.len() as int;
    if i == 0 {
        assert((i + n - 1) % n == n - 1) by (nonlinear_arith)
            requires
                i == 0,
                n >= 3,
        ;
    } else {
        assert((i + n - 1) % n == i - 1) by (nonlinear_arith)
            requires
                0 < i < n,
        ;
    }
    if i + 1 == n {
        assert((i + 1) % n == 0) by (nonlinear_arith)
            requires
                i + 1 == n,
                n >= 3,
        ;
    } else {
        assert((i + 1) % n == i + 1) by (nonlinear_arith)
            requires
                0 <= i,
                i + 1 < n,
        ;
    }
    let e0 = right(heading(before(pts, i), pts[i], aspect));
    let e1 = right(heading(pts[i], after(pts, i), aspect));
    law_unit(e0.x + e1.x, e0.y + e1.y);
}

/// The centroid is the mean of the points.
pub proof fn law_centroid(pts: Seq<Point>)
    requires
        1 <= pts.len() <= OUTLINE_MAX,
        forall|i: int| 0 <= i < pts.len() ==> near(#[trigger] pts[i]),
    ensures
        ({
            let n = pts.len() as int;
            let c = centroid(pts);
            &&& -n < n * c.x - sum_x(pts, n) < n
            &&& -n < n * c.y - sum_y(pts, n) < n
        }),
{
    let n = pts.len() as int;
    lemma_sums(pts, n);
    lemma_mean(sum_x(pts, n), n);
    lemma_mean(sum_y(pts, n), n);
}

proof fn lemma_sums(pts: Seq<Point>, n: int)
    requires
        0 <= n <= pts.len(),
        forall|i: int| 0 <= i < pts.len() ==> near(#[trigger] pts[i]),
    ensures
        -2_000_000_000_000 * n <= sum_x(pts, n) <= 2_000_000_000_000 * n,
        -2_000_000_000_000 * n <= sum_y(pts, n) <= 2_000_000_000_000 * n,
    decreases n,
{
    if n > 0 {
        lemma_sums(pts, n - 1);
        assert(near(pts[n - 1]));
    }
}

proof fn lemma_mean(s: int, n: int)
    requires
        1 <= n,
        -2_000_000_000_000 * n <= s <= 2_000_000_000_000 * n,
    ensures
        -n < n * trunc(s, n) - s < n,
        -2_000_000_000_000 <= trunc(s, n) <= 2_000_000_000_000,
{
    let m = if s < 0 {
        -s
    } else {
        s
    };
    vstd::arithmetic::div_mod::lemma_fundamental_div_mod(m, n);
    vstd::arithmetic::div_mod::lemma_mod_bound(m, n);
    let q = m / n;
    assert(n * (-q) == -(n * q)) by (nonlinear_arith);
    assert(0 <= q <= 2_000_000_000_000) by (nonlinear_arith)
        requires
            n * q <= m < n * q + n,
            0 <= m <= 2_000_000_000_000 * n,
            n >= 1,
    ;
}

/// The steps of a sweep are evenly spaced turns from its start over its span.
pub proof fn law_arc_angles(start: int, span: int, slices: int, k: int)
    requires
        slices >= 1,
        0 <= k <= slices,
        span >= 0,
    ensures
        0 <= span * k - slices * (arc_angle(start, span, slices, k) - start) < slices,
        k == 0 ==> arc_angle(start, span, slices, k) == start,
        k == slices ==> arc_angle(start, span, slices, k) == start + span,
{
    let m = span * k;
    assert(m >= 0) by (nonlinear_arith)
        requires
            m == span * k,
            span >= 0,
            k >= 0,
    ;
    vstd::arithmetic::div_mod::lemma_fundamental_div_mod(m, slices);
    vstd::arithmetic::div_mod::lemma_mod_bound(m, slices);
    let q = m / slices;
    if k == 0 {
        assert(q == 0) by (nonlinear_arith)
            requires
                m == span * k,
                k == 0,
                slices * q <= m < slices * q + slices,
                slices >= 1,
        ;
    }
    if k == slices {
        assert(q == span) by (nonlinear_arith)
            requires
                m == span * k,
                k == slices,
                slices * q <= m < slices * q + slices,
                slices >= 1,
        ;
    }
}

/// Points keep their colors to themselves: two strokes along the same points whose
/// colors differ at one point alone have the same four vertices at every other.
pub proof fn law_recolored_point<F: Fn(i64) -> Point>(
    before: &MeshBuilder<F>,
    one: &MeshBuilder<F>,
    other: &MeshBuilder<F>,
    pts: Seq<Point>,
    width: int,
    additive: bool,
    colors: Seq<[i64; 4]>,
    j: int,
    c: [i64; 4],
    i: int,
    k: int,
)
    requires
        one.stroked(before, pts, width, additive, colors),
        other.stroked(before, pts, width, additive, colors.update(j, c)),
        pts.len() >= 2,
        width > 0,
        colors.len() == pts.len(),
        0 <= j < pts.len(),
        0 <= i < pts.len(),
        0 <= k < 4,
    ensures
        i != j ==> one.verts@[before.count() + 4 * i + k] == other.verts@[before.count() + 4 * i
            + k],
        one.verts@[before.count() + 4 * i + k].position == other.verts@[before.count() + 4 * i
            + k].position,
        k == 0 || k == 3 ==> one.verts@[before.count() + 4 * i + k] == other.verts@[before.count()
            + 4 * i + k],
{
    lemma_rib(before, one, pts, width, additive, colors, i, k);
    lemma_rib(before, other, pts, width, additive, colors.update(j, c), i, k);
}

/// The triangles of a fan: step `i` is a wedge from the middle to the core of this
/// point and the next, and beside it the quad from there out to their fringes; the
/// last step of a closed fan goes back to the first point.
pub proof fn law_fan_triangles(center: int, first: int, n: int, i: int, j: int)
    requires
        0 <= i < n,
        0 <= j < 9,
    ensures
        ({
            let a = first + 2 * i;
            let b = if i + 1 == n {
                first
            } else {
                first + 2 * i + 2
            };
            fan_index(center, first, n, i, j) == seq![
                center,
                a,
                b,
                a,
                b,
                b + 1,
                a,
                b + 1,
                a + 1,
            ][j]
        }),
{
}

/// A direction no longer than one on either axis is taken as it is.
pub proof fn law_directions_kept(raw: Point)
    requires
        -1_000_000_000 <= raw.x <= 1_000_000_000,
        -1_000_000_000 <= raw.y <= 1_000_000_000,
    ensures
        limited_direction(raw) == raw,
{
}

/// The corners of a rounded rectangle may be given in either order.
pub proof fn law_round_rect_order<F: Fn(i64) -> Point>(
    before: &MeshBuilder<F>,
    after: &MeshBuilder<F>,
    x0: int,
    y0: int,
    x1: int,
    y1: int,
    radius_px: int,
    color: [i64; 4],
)
    ensures
        after.rounded(before, x0, y0, x1, y1, radius_px, color) == after.rounded(
            before,
            x1,
            y0,
            x0,
            y1,
            radius_px,
            color,
        ),
        after.rounded(before, x0, y0, x1, y1, radius_px, color) == after.rounded(
            before,
            x0,
            y1,
            x1,
            y0,
            radius_px,
            color,
        ),
{
}

/// A rounded rectangle is filled with its color out to its edge: each corner is a
/// quarter turn about the point that lies the radius inside of it on both axes, from
/// the lower right corner around to the lower left. Returns the direction of step
/// `k` of corner `q`.
#[verifier::rlimit(60)]
pub proof fn law_round_rect<F: Fn(i64) -> Point>(
    before: &MeshBuilder<F>,
    after: &MeshBuilder<F>,
    x0: int,
    y0: int,
    x1: int,
    y1: int,
    radius_px: int,
    color: [i64; 4],
    q: int,
    k: int,
) -> (u: Point)
    requires
        after.rounded(before, x0, y0, x1, y1, radius_px, color),
        x0 <= x1,
        y0 <= y1,
        pixels(screen_width(x1 - x0, before.aspect as int), before.height_px as int) > 0,
        pixels(y1 - y0, before.height_px as int) > 0,
        0 <= q < 4,
        0 <= k <= corner_slices(
            corner_px(
                x1 - x0,
                y1 - y0,
                radius_px,
                before.aspect as int,
                before.height_px as int,
            ),
        ),
    ensures
        ({
            let (aspect, height) = (before.aspect as int, before.height_px as int);
            let px = corner_px(x1 - x0, y1 - y0, radius_px, aspect, height);
            let slices = corner_slices(px);
            let r = ndc(px, height);
            let inset = trunc(r * 1_000_000_000, aspect);
            let (right, top) = (q == 0 || q == 1, q == 1 || q == 2);
            let middle = point(
                if right {
                    x1 - inset
                } else {
                    x0 + inset
                },
                if top {
                    y1 - r
                } else {
                    y0 + r
                },
            );
            let at = before.count() + 1 + 2 * (q * (slices + 1) + k);
            let c = encoded(color, false);
            &&& after.count() == before.count() + 1 + 8 * (slices + 1)
            &&& turned(
                before.turn,
                (q - 1) * 1_570_796_327 + trunc(1_570_796_327 * k, slices),
                u,
            )
            &&& after.verts@[before.count() as int].color == c
            &&& after.verts@[at] == (Vertex {
                position: offset_point(middle, u, r, aspect),
                color: c,
            })
            &&& after.verts@[at + 1].color@ == seq![0i64, 0i64, 0i64, 0i64]
        }),
{
    let (aspect, height) = (before.aspect as int, before.height_px as int);
    let px = corner_px(x1 - x0, y1 - y0, radius_px, aspect, height);
    let slices = corner_slices(px);
    let r = ndc(px, height);
    let arcs = choose|arcs: Seq<Seq<Point>>|
        #![trigger corner_arcs(before.turn, slices, arcs)]
        corner_arcs(before.turn, slices, arcs) && after.extends(
            before,
            outline_vertices(
                round_outline(x0, y0, x1, y1, r, aspect, arcs),
                encoded(color, false),
                aspect,
                pixel(height),
            ),
            fan_indices(
                before.count(),
                before.count() + 1,
                4 * (slices + 1),
                4 * (slices + 1),
            ),
        );
    let outline = round_outline(x0, y0, x1, y1, r, aspect, arcs);
    let n = slices + 1;
    let m = q * n + k;
    assert(0 <= m < 4 * n) by (nonlinear_arith)
        requires
            m == q * n + k,
            0 <= q < 4,
            0 <= k < n,
    ;
    lemma_outline_point(x0, y0, x1, y1, r, aspect, arcs, n, q, k);
    let u = arcs[q][k];
    assert(turned(before.turn, arc_angle((q - 1) * HALF_PI, HALF_PI as int, slices, k), u)) by {
        if q == 0 {
            assert(turned(before.turn, arc_angle(-HALF_PI as int, HALF_PI as int, slices, k), u));
        } else if q == 1 {
            assert(turned(before.turn, arc_angle(0, HALF_PI as int, slices, k), u));
        } else if q == 2 {
            assert(turned(before.turn, arc_angle(HALF_PI as int, HALF_PI as int, slices, k), u));
        } else {
            assert(turned(before.turn, arc_angle(PI as int, HALF_PI as int, slices, k), u));
        }
    }
    let vs = outline_vertices(outline, encoded(color, false), aspect, pixel(height));
    law_outline(outline, encoded(color, false), aspect, pixel(height), m);
    assert(after.verts@[before.count() + 0] == vs[0]);
    assert(after.verts@[before.count() + (1 + 2 * m)] == vs[1 + 2 * m]);
    assert(after.verts@[before.count() + (2 + 2 * m)] == vs[2 + 2 * m]);
    u
}

proof fn lemma_outline_point(
    x0: int,
    y0: int,
    x1: int,
    y1: int,
    r: int,
    aspect: int,
    arcs: Seq<Seq<Point>>,
    n: int,
    q: int,
    k: int,
)
    requires
        arcs.len() == 4,
        arcs[0].len() == n,
        arcs[1].len() == n,
        arcs[2].len() == n,
        arcs[3].len() == n,
        0 <= q < 4,
        0 <= k < n,
    ensures
        ({
            let inset = trunc(r * ONE, aspect);
            let middle = point(
                if q == 0 || q == 1 {
                    x1 - inset
                } else {
                    x0 + inset
                },
                if q == 1 || q == 2 {
                    y1 - r
                } else {
                    y0 + r
                },
            );
            let outline = round_outline(x0, y0, x1, y1, r, aspect, arcs);
            &&& outline.len() == 4 * n
            &&& outline[q * n + k] == offset_point(middle, arcs[q][k], r, aspect)
        }),
{
    if q == 0 {
        assert(q * n + k == k);
    } else if q == 1 {
        assert(q * n + k == n + k);
    } else if q == 2 {
        assert(q * n + k == 2 * n + k);
    } else {
        assert(q * n + k == 3 * n + k);
    }
}

/// A length in pixels is as many times the height of one, two over the screen's
/// height.
pub proof fn law_ndc(px_len: int, height: int)
    requires
        px_len >= 0,
        height >= 1,
    ensures
        0 <= px_len * (2_000_000_000int / height) - 1_000_000_000 * ndc(px_len, height)
            < 1_000_000_000,
{
    let p = 2_000_000_000int / height;
    assert(p >= 0) by (nonlinear_arith)
        requires
            p == 2_000_000_000int / height,
            height >= 1,
    ;
    assert(px_len * p >= 0) by (nonlinear_arith)
        requires
            px_len >= 0,
            p >= 0,
    ;
}

} // verus!
