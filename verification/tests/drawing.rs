//! Numbers, curves, colors and the mesh builder.

use audio_processor::color::{mix, ramp, rgba, srgb_hex};
use audio_processor::geometry::{
    encode, fade, heading_of, miter_of, resolve_width, unit_of, FEATHER_PX, MIN_STROKE_PX, MITER_LIMIT,
};
use audio_processor::mesh::MeshBuilder;
use audio_processor::number::{clamp, div_round, lerp, mul_div, square_root, Sample, FIXED_MAX, ONE};
use audio_processor::shape::Shape;
use audio_processor::spline::{resample_monotone, Point};
use audio_processor::srgb::srgb_channel;

fn turn(angle: i64) -> Point {
    let (sin, cos) = (angle as f64 / 1e9).sin_cos();
    Point { x: (cos * 1e9).round() as i64, y: (sin * 1e9).round() as i64 }
}

fn p(x: f64, y: f64) -> Point {
    Point { x: (x * 1e9).round() as i64, y: (y * 1e9).round() as i64 }
}

const WHITE: [i64; 4] = [ONE, ONE, ONE, ONE];

// -- numbers ----------------------------------------------------------------

#[test]
fn samples_read_as_fixed_point() {
    for v in [0.0f32, 1.0, -1.0, 0.1, 0.5, 1.8, -0.4, 1e-9, 1e-12, 123456.79, 3.5e-7, 1e9] {
        let want = (v.abs() as f64 * 1e9).floor() as i64 * if v < 0.0 { -1 } else { 1 };
        assert_eq!(Sample { bits: v.to_bits() }.to_fixed(), want, "{v}");
    }
    assert_eq!(Sample { bits: f32::MAX.to_bits() }.to_fixed(), FIXED_MAX);
    assert_eq!(Sample { bits: f32::MIN.to_bits() }.to_fixed(), -FIXED_MAX);
}

#[test]
fn samples_classify_and_order_as_floats_do() {
    let probes = [
        f32::NEG_INFINITY,
        -2.5,
        -0.0,
        0.0,
        1e-40,
        1.0,
        7.25,
        f32::INFINITY,
        f32::NAN,
    ];
    for a in probes {
        let x = Sample { bits: a.to_bits() };
        assert_eq!(x.is_finite(), a.is_finite());
        assert_eq!(x.is_nan(), a.is_nan());
        for b in probes {
            assert_eq!(x.less(Sample { bits: b.to_bits() }), a < b, "{a} {b}");
        }
    }
}

#[test]
fn integer_helpers_round_as_stated() {
    assert_eq!(clamp(5, 0, 3), 3);
    assert_eq!(lerp(0, 10, ONE / 2), 5);
    assert_eq!(lerp(10, -10, ONE), -10);
    assert_eq!(div_round(5, 2), 3);
    assert_eq!(div_round(49, 100), 0);
    assert_eq!(mul_div(-7, 3, 2), -10);
    assert_eq!(mul_div(i64::MAX, i64::MAX, i64::MAX), i64::MAX);
    for q in [0u128, 1, 2, 3, 4, 15, 16, 17, 1 << 100, (1 << 100) - 1] {
        let r = square_root(q) as u128;
        assert!(r * r <= q && (r + 1) * (r + 1) > q);
    }
}

// -- colors -----------------------------------------------------------------

#[test]
fn srgb_decodes_to_linear_light() {
    for b in 0..=255u8 {
        let s = b as f64 / 255.0;
        let want = if s <= 0.04045 { s / 12.92 } else { ((s + 0.055) / 1.055).powf(2.4) };
        let got = srgb_channel(b) as f64 / 1e9;
        assert!((got - want).abs() < 2e-9, "{b}: {got} {want}");
    }
    let c = srgb_hex(0x7C4DFF);
    assert_eq!(c, [srgb_channel(0x7C), srgb_channel(0x4D), srgb_channel(0xFF)]);
    assert_eq!(c[2], ONE);
}

#[test]
fn colors_mix_linearly() {
    let a = [0, 200_000_000, ONE];
    let b = [ONE, 400_000_000, 0];
    assert_eq!(mix(a, b, 0), a);
    assert_eq!(mix(a, b, ONE), b);
    assert_eq!(mix(a, b, 500_000_000), [500_000_000, 300_000_000, 500_000_000]);
    assert_eq!(mix(a, b, -5), a);
    assert_eq!(mix(a, b, 9 * ONE), b);
    assert_eq!(rgba([1, 2, 3], 4), [1, 2, 3, 4]);
}

#[test]
fn key_colors_ramp() {
    let keys = [[0, 0, 0], [ONE, 0, 0], [ONE, ONE, 0]];
    assert_eq!(ramp(&[], 5), [0, 0, 0]);
    assert_eq!(ramp(&keys[1..2], 700_000_000), [ONE, 0, 0]);
    assert_eq!(ramp(&keys, 0), [0, 0, 0]);
    assert_eq!(ramp(&keys, 250_000_000), [500_000_000, 0, 0]);
    assert_eq!(ramp(&keys, 750_000_000), [ONE, 500_000_000, 0]);
    assert_eq!(ramp(&keys, ONE), [ONE, ONE, 0]);
}

#[test]
fn colors_are_premultiplied() {
    let c = [ONE, 500_000_000, 0, 400_000_000];
    assert_eq!(encode(c, false), [400_000_000, 200_000_000, 0, 400_000_000]);
    assert_eq!(encode(c, true), [400_000_000, 200_000_000, 0, 0]);
    assert_eq!(fade(c, 500_000_000), [ONE, 500_000_000, 0, 200_000_000]);
}

// -- curves -----------------------------------------------------------------

fn reference(pts: &[Point], subdiv: usize) -> Vec<(f64, f64)> {
    let pt: Vec<(f64, f64)> =
        pts.iter().map(|q| (q.x as f64 / 1e9, q.y as f64 / 1e9)).collect();
    let n = pt.len();
    let slope: Vec<f64> =
        (0..n - 1).map(|i| (pt[i + 1].1 - pt[i].1) / (pt[i + 1].0 - pt[i].0)).collect();
    let mut m = vec![slope[0]];
    for i in 1..n - 1 {
        m.push(if slope[i - 1] * slope[i] <= 0.0 { 0.0 } else { (slope[i - 1] + slope[i]) * 0.5 });
    }
    m.push(slope[n - 2]);
    for i in 0..n - 1 {
        if slope[i].abs() < 1e-9 {
            m[i] = 0.0;
            m[i + 1] = 0.0;
            continue;
        }
        let (a, b) = (m[i] / slope[i], m[i + 1] / slope[i]);
        let s = a * a + b * b;
        if s > 9.0 {
            let tau = 3.0 / s.sqrt();
            m[i] = tau * a * slope[i];
            m[i + 1] = tau * b * slope[i];
        }
    }
    let mut out = Vec::new();
    for i in 0..n - 1 {
        let h = pt[i + 1].0 - pt[i].0;
        for k in 0..subdiv {
            let t = k as f64 / subdiv as f64;
            let (t2, t3) = (t * t, t * t * t);
            let y = (2.0 * t3 - 3.0 * t2 + 1.0) * pt[i].1
                + (t3 - 2.0 * t2 + t) * h * m[i]
                + (-2.0 * t3 + 3.0 * t2) * pt[i + 1].1
                + (t3 - t2) * h * m[i + 1];
            out.push((pt[i].0 + h * t, y));
        }
    }
    out.push(pt[n - 1]);
    out
}

#[test]
fn curves_follow_the_monotone_cubic() {
    let pts: Vec<Point> = (0..20)
        .map(|i| p(-1.0 + i as f64 * 0.1, ((i * i) as f64 * 0.7).sin() * 0.8))
        .collect();
    let mut out = vec![p(9.0, 9.0)];
    resample_monotone(&pts, 10, &mut out);
    let want = reference(&pts, 10);
    assert_eq!(out.len(), want.len());
    for (got, want) in out.iter().zip(want.iter()) {
        assert!((got.x as f64 / 1e9 - want.0).abs() < 1e-6);
        assert!((got.y as f64 / 1e9 - want.1).abs() < 1e-6, "{got:?} {want:?}");
    }
}

#[test]
fn curves_never_overshoot() {
    let pts = vec![p(0.0, 0.0), p(0.1, 0.0), p(0.2, 1.0), p(0.3, 0.0), p(0.4, 0.02)];
    let mut out = Vec::new();
    resample_monotone(&pts, 16, &mut out);
    for (i, q) in out.iter().enumerate() {
        let span = (i / 16).min(3);
        let (a, b) = (pts[span].y, pts[span + 1].y);
        assert!(q.y >= a.min(b) && q.y <= a.max(b), "point {i} left its span: {q:?}");
    }
    assert_eq!(out[16], pts[1]);
    assert_eq!(*out.last().unwrap(), pts[4]);
}

#[test]
fn curves_take_any_coordinates() {
    let mut out = Vec::new();
    // Any coordinates will do, and a steep step is followed without overshoot.
    let far = [
        Point { x: i64::MIN, y: i64::MIN },
        Point { x: -10 * ONE, y: i64::MAX },
        Point { x: -10 * ONE + 2, y: -i64::MAX },
        Point { x: 10 * ONE, y: 0 },
        Point { x: i64::MAX, y: i64::MAX },
    ];
    resample_monotone(&far, 7, &mut out);
    assert_eq!(out.len(), 4 * 7 + 1);
    for (i, p) in far.iter().enumerate() {
        assert_eq!(out[i * 7], *p);
    }
    for (i, w) in far.windows(2).enumerate() {
        for k in 0..7 {
            let (a, b) = (out[i * 7 + k], out[i * 7 + k + 1]);
            assert!(a.x <= b.x);
            assert!(if w[0].y <= w[1].y { a.y <= b.y } else { a.y >= b.y });
        }
    }
}

#[test]
fn short_curves_are_copied() {
    let mut out = vec![p(1.0, 1.0)];
    resample_monotone(&[], 4, &mut out);
    assert!(out.is_empty());
    resample_monotone(&[p(0.5, 0.5)], 4, &mut out);
    assert_eq!(out, vec![p(0.5, 0.5)]);
    resample_monotone(&[p(0.0, 0.0), p(1.0, 1.0)], 0, &mut out);
    assert_eq!(out, vec![p(0.0, 0.0), p(1.0, 1.0)]);
}

// -- strokes ----------------------------------------------------------------

#[test]
fn thin_strokes_are_widened_and_dimmed() {
    assert_eq!(resolve_width(2 * ONE), (2 * ONE, ONE));
    assert_eq!(resolve_width(MIN_STROKE_PX), (MIN_STROKE_PX, ONE));
    let (w, a) = resolve_width(625_000_000);
    assert_eq!((w, a), (MIN_STROKE_PX, 500_000_000));
    assert_eq!(resolve_width(0), (MIN_STROKE_PX, ONE));
    assert_eq!(resolve_width(-ONE), (MIN_STROKE_PX, ONE));
}

#[test]
fn miters_are_limited() {
    let (dir, straight) = miter_of(p(0.0, 1.0), p(0.0, 1.0));
    assert_eq!((dir, straight), (p(0.0, 1.0), ONE));
    let (_, right) = miter_of(p(0.0, 1.0), p(1.0, 0.0));
    assert!((right as f64 / 1e9 - 2f64.sqrt()).abs() < 1e-6);
    let (_, sharp) = miter_of(p(0.0, 1.0), p(0.1, -0.995));
    assert_eq!(sharp, MITER_LIMIT);
    // An exact reversal falls back to the incoming normal.
    assert_eq!(miter_of(p(0.0, 1.0), p(0.0, -1.0)), (p(0.0, 1.0), ONE));
    assert_eq!(unit_of(0, 0), p(0.0, 0.0));
    assert_eq!(unit_of(30, 40), p(0.6, 0.8));
}

#[test]
fn strokes_share_vertices_at_joints() {
    let mut mesh = MeshBuilder::new(turn);
    mesh.begin(1000, 1000);
    let pts = vec![p(-0.5, 0.0), p(0.0, 0.0), p(0.5, 0.0)];
    mesh.stroke(&pts, 4 * ONE, WHITE, false);
    // Four vertices a point, and two caps of three slices.
    let cap = 1 + 2 * (3 + 1);
    assert_eq!(mesh.vertices().len(), 4 * 3 + 2 * cap);
    assert_eq!(mesh.indices().len(), 3 * 6 * 2 + 2 * 3 * 9);
    // A horizontal stroke, four pixels wide, with a fringe of one pixel.
    let v = mesh.vertices();
    let px = 2_000_000;
    assert_eq!(v[5].position, Point { x: 0, y: -2 * px });
    assert_eq!(v[6].position, Point { x: 0, y: 2 * px });
    assert_eq!(v[4].position, Point { x: 0, y: -3 * px });
    assert_eq!(v[7].position, Point { x: 0, y: 3 * px });
    assert_eq!(v[4].color, [0, 0, 0, 0]);
    assert_eq!(v[5].color, WHITE);
    assert_eq!(FEATHER_PX, ONE);
}

#[test]
fn strokes_without_length_or_width_draw_nothing() {
    let mut mesh = MeshBuilder::new(turn);
    mesh.begin(1000, 1000);
    mesh.stroke(&[p(0.0, 0.0)], 4 * ONE, WHITE, false);
    mesh.stroke(&[p(0.0, 0.0), p(0.5, 0.0)], 0, WHITE, false);
    mesh.glow_stroke(&[p(0.0, 0.0), p(0.5, 0.0)], -ONE, WHITE, 3);
    assert!(mesh.vertices().is_empty());
    assert!(mesh.indices().is_empty());
}

#[test]
fn repeated_points_do_not_collapse_a_stroke() {
    let mut mesh = MeshBuilder::new(turn);
    mesh.begin(1000, 1000);
    mesh.stroke(&[p(0.0, 0.0), p(0.0, 0.0), p(0.0, 0.0)], 4 * ONE, WHITE, false);
    let v = mesh.vertices();
    assert!(v[1].position.y < v[2].position.y);
}

#[test]
fn glows_stack_additive_layers_under_the_line() {
    let mut line = MeshBuilder::new(turn);
    line.begin(1000, 1000);
    let pts = vec![p(-0.5, 0.0), p(0.5, 0.0)];
    let mut glow = MeshBuilder::new(turn);
    glow.begin(1000, 1000);
    glow.glow_stroke(&pts, 2 * ONE, WHITE, 2);
    // Layers two and one, then the core.
    line.stroke(&pts, 2 * ONE * 58 / 10, [ONE, ONE, ONE, ONE / 7], true);
    line.stroke(&pts, 2 * ONE * 34 / 10, [ONE, ONE, ONE, ONE / 4], true);
    line.stroke(&pts, 2 * ONE, WHITE, false);
    assert_eq!(glow.vertices(), line.vertices());
    assert_eq!(glow.indices(), line.indices());
    // Additive vertices carry color but no alpha.
    assert_eq!(glow.vertices()[1].color[3], 0);
    assert!(glow.vertices()[1].color[0] > 0);
}

// -- fills ------------------------------------------------------------------

#[test]
fn fills_under_a_curve_are_one_strip() {
    let mut mesh = MeshBuilder::new(turn);
    mesh.begin(1000, 1000);
    let pts = vec![p(-1.0, 0.2), p(0.0, 0.4), p(1.0, 0.1)];
    mesh.fill_under(&pts, -ONE, &[WHITE, WHITE, WHITE]);
    assert_eq!(mesh.vertices().len(), 6);
    assert_eq!(mesh.indices(), &[0u32, 2, 3, 0, 3, 1, 2, 4, 5, 2, 5, 3][..]);
    assert_eq!(mesh.vertices()[3].position, Point { x: 0, y: -ONE });
    let mut none = MeshBuilder::new(turn);
    none.fill_under(&pts[..1], 0, &[WHITE]);
    assert!(none.vertices().is_empty());
}

#[test]
fn rounded_rectangles_stay_inside_their_box() {
    let mut mesh = MeshBuilder::new(turn);
    mesh.begin(1000, 500);
    mesh.round_rect(500_000_000, 400_000_000, -500_000_000, -400_000_000, 30 * ONE, WHITE);
    assert!(!mesh.vertices().is_empty());
    for v in mesh.vertices() {
        // Core vertices stay inside; the fringe reaches a pixel further.
        let slack = if v.color[3] == 0 { 4_000_000 } else { 1 };
        assert!(v.position.x.abs() <= 500_000_000 + slack);
        assert!(v.position.y.abs() <= 400_000_000 + slack);
    }
    let before = mesh.vertices().len();
    mesh.round_rect(0, 0, 0, ONE, ONE, WHITE);
    assert_eq!(mesh.vertices().len(), before);
}

#[test]
fn outlines_need_three_points() {
    let mut mesh = MeshBuilder::new(turn);
    mesh.begin(100, 100);
    mesh.fill_outline(&[p(0.0, 0.0), p(0.5, 0.0)], WHITE, false);
    assert!(mesh.vertices().is_empty());
    mesh.fill_outline(&[p(0.0, 0.0), p(0.5, 0.0), p(0.25, 0.5)], WHITE, false);
    assert_eq!(mesh.vertices().len(), 7);
    assert_eq!(mesh.indices().len(), 27);
    assert_eq!(mesh.vertices()[0].position, Point { x: 250_000_000, y: 166_666_666 });
}

#[test]
fn rings_are_round_and_tessellated_by_radius() {
    let mut mesh = MeshBuilder::new(turn);
    mesh.begin(1000, 500);
    let r = 500_000_000;
    mesh.ring(p(0.0, 0.0), r, 3 * ONE, WHITE);
    // 125 px radius: 262 chords, limited to 256.
    let ribs = 4 * 257;
    for k in (0..ribs).step_by(4) {
        let v = mesh.vertices();
        let x = (v[k + 1].position.x + v[k + 2].position.x) as f64 / 2e9 * 2.0;
        let y = (v[k + 1].position.y + v[k + 2].position.y) as f64 / 2e9;
        assert!((x.hypot(y) - 0.5).abs() < 1e-3, "{k}: {x} {y}");
    }
    let mut small = MeshBuilder::new(turn);
    small.begin(1000, 500);
    small.ring(p(0.0, 0.0), 1_000_000, 3 * ONE, WHITE);
    assert!(small.vertices().len() < 100);
}

#[test]
fn flat_primitives_are_plain() {
    let mut mesh = MeshBuilder::new(turn);
    mesh.begin(0, 0);
    assert_eq!(mesh.size_px(), (1, 1));
    mesh.begin(1600, 800);
    assert_eq!(mesh.aspect(), 2 * ONE);
    assert_eq!(mesh.px(), 2_500_000);
    assert_eq!(mesh.to_px(ONE), 400 * ONE);
    mesh.tri(p(0.0, 0.0), p(1.0, 0.0), p(0.0, 1.0), [ONE, 0, 0, ONE / 2]);
    assert_eq!(mesh.indices(), &[0u32, 1, 2][..]);
    assert_eq!(mesh.vertices()[0].color, [ONE / 2, 0, 0, ONE / 2]);
    mesh.rect(-ONE, -ONE, ONE, ONE, WHITE);
    assert_eq!(mesh.indices().len(), 9);
    assert_eq!(mesh.indices()[3..], [3, 4, 5, 3, 5, 6]);
    assert_eq!(mesh.vertices()[3].position, p(-1.0, 1.0));
    assert_eq!(mesh.polar(p(0.0, 0.0), ONE, 0), p(0.5, 0.0));
}

#[test]
fn display_lists_paint_in_order() {
    let mut listed = MeshBuilder::new(turn);
    listed.begin(800, 600);
    listed.paint(&vec![
        Shape::Fill {
            pts: vec![p(-1.0, 0.0), p(1.0, 0.0)],
            baseline: -ONE,
            colors: vec![WHITE, WHITE],
        },
        Shape::Ring { r: 300_000_000, width: 2 * ONE, color: WHITE },
    ]);
    let mut direct = MeshBuilder::new(turn);
    direct.begin(800, 600);
    direct.fill_under(&[p(-1.0, 0.0), p(1.0, 0.0)], -ONE, &[WHITE, WHITE]);
    direct.ring(p(0.0, 0.0), 300_000_000, 2 * ONE, WHITE);
    assert_eq!(listed.vertices(), direct.vertices());
    assert_eq!(listed.indices(), direct.indices());
}

#[test]
fn fixed_point_keeps_the_order_of_floats() {
    let mut probes: Vec<f32> = Vec::new();
    for e in 0..255u32 {
        for m in [0u32, 1, 0x40_0000, 0x7F_FFFF] {
            probes.push(f32::from_bits((e << 23) | m));
        }
    }
    let mut last = 0i64;
    for v in probes {
        let fixed = Sample { bits: v.to_bits() }.to_fixed();
        assert!(fixed >= last, "{v}");
        assert_eq!(Sample { bits: (-v).to_bits() }.to_fixed(), -fixed);
        last = fixed;
    }
    assert_eq!(last, FIXED_MAX);
}

#[test]
fn wide_glows_keep_their_layers_apart() {
    let pts = vec![p(-0.5, 0.0), p(0.5, 0.0)];
    let wide = 2_000 * ONE;
    let mut glow = MeshBuilder::new(turn);
    glow.begin(1000, 1000);
    glow.glow_stroke(&pts, wide, WHITE, 2);
    let mut line = MeshBuilder::new(turn);
    line.begin(1000, 1000);
    line.stroke(&pts, wide / 10 * 58, [ONE, ONE, ONE, ONE / 7], true);
    line.stroke(&pts, wide / 10 * 34, [ONE, ONE, ONE, ONE / 4], true);
    line.stroke(&pts, wide, WHITE, false);
    assert_eq!(glow.vertices(), line.vertices());
}

#[test]
fn strokes_reach_no_further_than_four_half_widths() {
    // A spike this sharp takes the longest miter there is.
    let pts = vec![p(-0.02, -0.5), p(0.0, 0.5), p(0.02, -0.5)];
    for width in [2 * ONE, 4 * ONE, 15 * ONE] {
        let mut mesh = MeshBuilder::new(turn);
        mesh.begin(1000, 1000);
        mesh.stroke(&pts, width, WHITE, false);
        let pixel = 2 * ONE / 1000;
        let half = width / 1000;
        let top = mesh.vertices().iter().map(|v| v.position.y).max().unwrap();
        assert!(top <= ONE / 2 + 4 * (half + pixel), "{width}: {top}");
        assert!(top > ONE / 2 + 39 * (half + pixel) / 10, "{width}: {top}");
    }
}

#[test]
fn directions_are_one_long_from_a_billionth_on() {
    assert_eq!(unit_of(0, 0), Point { x: 0, y: 0 });
    assert_eq!(unit_of(1, 1), Point { x: 707_106_781, y: 707_106_781 });
    assert_eq!(unit_of(3, -4), Point { x: 600_000_000, y: -800_000_000 });
    assert_eq!(unit_of(-1, 0), Point { x: -ONE, y: 0 });
    for d in [1i64, 2, 7, 1000, 999_999_999, ONE, 5 * ONE, 1 << 58] {
        for (a, b) in [(d, d / 2), (-d, d), (d, 1), (1, -d), (d, 0)] {
            let u = unit_of(a, b);
            let (x, y) = (u.x as f64, u.y as f64);
            assert!(((x * x + y * y).sqrt() - 1e9).abs() <= 3.0, "{a} {b}: {u:?}");
        }
    }
}

#[test]
fn headings_are_taken_on_screen() {
    let o = Point { x: 0, y: 0 };
    let at = |x: i64, y: i64, aspect: i64| heading_of(o, Point { x, y }, aspect);
    // A tenth of three billionths is no length; from one billionth on there is.
    assert_eq!(at(3, 0, ONE / 10), o);
    assert_eq!(at(9, 0, ONE / 10), o);
    assert_eq!(at(10, 0, ONE / 10), Point { x: ONE, y: 0 });
    // Three tenths across and one up, not straight up.
    let u = at(3, 1, ONE / 10);
    let len = 1.09f64.sqrt();
    assert!((u.x as f64 - 0.3e9 / len).abs() < 2.0 && (u.y as f64 - 1e9 / len).abs() < 2.0);
    assert_eq!(at(2 * ONE, 0, 2 * ONE), Point { x: ONE, y: 0 });
}

#[test]
fn tiny_spans_do_not_thicken_a_stroke() {
    // Two points a diagonal billionth apart: as thick as any other line.
    let mut mesh = MeshBuilder::new(turn);
    mesh.begin(1000, 1000);
    mesh.stroke(&[Point { x: 0, y: 0 }, Point { x: 1, y: 1 }], 4 * ONE, WHITE, false);
    let (a, b) = (mesh.vertices()[1].position, mesh.vertices()[2].position);
    let (dx, dy) = ((b.x - a.x) as f64, (b.y - a.y) as f64);
    assert!(((dx * dx + dy * dy).sqrt() - 8e6).abs() < 4.0);
}
