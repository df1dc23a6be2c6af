//! Drawing the HUD: its panel laid out in whole pixels, and the mesh of it.

use crate::color::in_gamut;
use crate::font::{
    glyph, glyph_index, in_run, is_lit, law_runs_cover, lemma_run_end, lemma_runs_bounds, lit,
    run_end, runs_from, CELL_H, CELL_W, FONT_H, GLYPHS,
};
use crate::geometry::{encoded, point};
use crate::hud::{dropped_of, refresh_of, Hud, StaticInfo};
use crate::mesh::{quad_of, rect_vertices, MeshBuilder, Vertex, VERTS_MAX};
use crate::number::{clamped, ONE};
use crate::panel::{entries, panel_entries, panel_items, ready, Chart, Entry, Ink, Item};
use crate::spline::Point;
use crate::stats::{greatest, law_extremes, law_extremes_occur, Ring, HISTORY};
use crate::text::{lemma_line_len, line_chars, line_text, Part};
use vstd::prelude::*;

verus! {

/// A filled rectangle between whole pixels, counted from the top left.
#[derive(Clone, Copy, PartialEq, Eq, Debug)]
pub struct Patch {
    pub x0: i64,
    pub y0: i64,
    pub x1: i64,
    pub y1: i64,
    pub color: [i64; 4],
}

/// Nearest whole pixel.
pub open spec fn snapped(v: int) -> int {
    (2 * v + ONE) / (2 * ONE)
}

/// A rectangle given by corner and size, each edge snapped to a whole pixel.
/// Snapping keeps the glyphs crisp: a half-pixel offset would let
/// multisampling soften every stem.
pub open spec fn patch_of(x: int, y: int, w: int, h: int, color: [i64; 4]) -> Patch {
    Patch {
        x0: snapped(x) as i64,
        y0: snapped(y) as i64,
        x1: snapped(x + w) as i64,
        y1: snapped(y + h) as i64,
        color,
    }
}

/// Farthest coordinate of the overlay.
pub const FAR: i64 = 10_000_000_000_000_000;

fn snap(v: i64) -> (r: i64)
    requires
        0 <= v <= 2 * FAR,
    ensures
        r == snapped(v as int),
{
    (2 * v + ONE) / (2 * ONE)
}

fn make_patch(x: i64, y: i64, w: i64, h: i64, color: [i64; 4]) -> (p: Patch)
    requires
        0 <= x <= FAR,
        0 <= y <= FAR,
        0 <= w <= FAR,
        0 <= h <= FAR,
    ensures
        p == patch_of(x as int, y as int, w as int, h as int, color),
        p.fits(),
{
    Patch { x0: snap(x), y0: snap(y), x1: snap(x + w), y1: snap(y + h), color }
}

impl Patch {
    /// Its corners are in reach.
    pub open spec fn fits(&self) -> bool {
        &&& 0 <= self.x0 <= self.x1 <= 20_000_001
        &&& 0 <= self.y0 <= self.y1 <= 20_000_001
    }
}

/// Patches of colors in gamut, all in reach.
pub open spec fn drawable_patches(patches: Seq<Patch>) -> bool {
    forall|i: int|
        0 <= i < patches.len() ==> (#[trigger] patches[i]).fits() && in_gamut(patches[i].color@)
}

/// Every edge is at a whole pixel within half a pixel of where it was asked to
/// be.
pub proof fn law_snapped(v: int)
    ensures
        -ONE <= 2 * (snapped(v) * ONE - v) <= ONE,
{
}

// -- text -------------------------------------------------------------------
/// Patches of the runs of one glyph row.
pub open spec fn row_patches(
    runs: Seq<(int, int)>,
    x: int,
    y: int,
    unit: int,
    color: [i64; 4],
) -> Seq<Patch> {
    Seq::new(
        runs.len(),
        |i: int|
            patch_of(x + runs[i].0 * unit, y, (runs[i].1 - runs[i].0) * unit, unit, color),
    )
}

/// Patches of the first `rows` rows of a glyph.
pub open spec fn glyph_patches(
    g: Seq<u8>,
    rows: int,
    x: int,
    y: int,
    unit: int,
    color: [i64; 4],
) -> Seq<Patch>
    decreases rows,
{
    if rows <= 0 {
        Seq::empty()
    } else {
        glyph_patches(g, rows - 1, x, y, unit, color) + row_patches(
            runs_from(g[rows - 1], 0),
            x,
            y + (rows - 1) * unit,
            unit,
            color,
        )
    }
}

/// Patches of the first `n` characters of a line of text.
pub open spec fn text_patches(
    chars: Seq<char>,
    n: int,
    x: int,
    y: int,
    unit: int,
    color: [i64; 4],
) -> Seq<Patch>
    decreases n,
{
    if n <= 0 {
        Seq::empty()
    } else {
        text_patches(chars, n - 1, x, y, unit, color) + glyph_patches(
            GLYPHS@[glyph_index(chars[n - 1])]@,
            FONT_H as int,
            x + (n - 1) * (CELL_W * unit),
            y,
            unit,
            color,
        )
    }
}

/// Largest font pixel.
pub const UNIT_MAX: i64 = 3_000_000_000;

/// Longest line of text.
pub const LINE_MAX: usize = 100_000;

fn push_row(out: &mut Vec<Patch>, bits: u8, x: i64, y: i64, unit: i64, color: [i64; 4])
    requires
        0 <= x <= FAR / 2,
        0 <= y <= FAR / 2,
        0 < unit <= UNIT_MAX,
        in_gamut(color@),
        drawable_patches(old(out)@),
    ensures
        final(out)@ == old(out)@ + row_patches(
            runs_from(bits, 0),
            x as int,
            y as int,
            unit as int,
            color,
        ),
        final(out)@.len() <= old(out)@.len() + 3,
        drawable_patches(final(out)@),
{
    let mut col: usize = 0;
    let ghost all = runs_from(bits, 0);
    let ghost mut done: int = 0;
    proof {
        lemma_runs_bounds(bits, 0);
        assert(all.skip(0) =~= all);
        assert(old(out)@ + row_patches(all.take(0), x as int, y as int, unit as int, color)
            =~= old(out)@);
    }
    while col < 5
        invariant
            0 <= col <= 5,
            0 <= x <= FAR / 2,
            0 <= y <= FAR / 2,
            0 < unit <= UNIT_MAX,
            in_gamut(color@),
            all == runs_from(bits, 0),
            0 <= done <= all.len(),
            all.skip(done) == runs_from(bits, col as int),
            out@ == old(out)@ + row_patches(
                all.take(done),
                x as int,
                y as int,
                unit as int,
                color,
            ),
            drawable_patches(out@),
        decreases 5 - col,
    {
        if !is_lit(bits, col) {
            col = col + 1;
        } else {
            let start: usize = col;
            let ghost end = run_end(bits, start as int);
            proof {
                lemma_run_end(bits, start as int);
            }
            while col < 5 && is_lit(bits, col)
                invariant
                    start <= col <= 5,
                    run_end(bits, start as int) == run_end(bits, col as int),
                ensures
                    col == run_end(bits, start as int),
                decreases 5 - col,
            {
                col = col + 1;
            }
            proof {
                let rest = runs_from(bits, start as int);
                assert(rest == seq![(start as int, end)] + runs_from(bits, end));
                assert(all.skip(done)[0] == all[done]);
                assert(all[done] == (start as int, end));
                assert(all.skip(done + 1) =~= rest.skip(1));
                assert(rest.skip(1) =~= runs_from(bits, end));
                assert(all.take(done + 1).drop_last() =~= all.take(done));
                assert(row_patches(all.take(done + 1), x as int, y as int, unit as int, color)
                    =~= row_patches(
                    all.take(done),
                    x as int,
                    y as int,
                    unit as int,
                    color,
                ).push(
                    patch_of(
                        x + start * unit,
                        y as int,
                        (end - start) * unit,
                        unit as int,
                        color,
                    ),
                ));
                assert(0 <= start * unit <= 5 * UNIT_MAX && 0 <= (end - start) * unit <= 5
                    * UNIT_MAX) by (nonlinear_arith)
                    requires
                        0 <= start <= end <= 5,
                        0 < unit <= UNIT_MAX,
                ;
            }
            out.push(
                make_patch(x + start as i64 * unit, y, (col - start) as i64 * unit, unit, color),
            );
            proof {
                done = done + 1;
            }
        }
    }
    proof {
        assert(runs_from(bits, 5).len() == 0);
        assert(all.take(done) =~= all);
    }
}

fn push_glyph(out: &mut Vec<Patch>, g: [u8; 7], x: i64, y: i64, unit: i64, color: [i64; 4])
    requires
        0 <= x <= FAR / 2,
        0 <= y <= FAR / 4,
        0 < unit <= UNIT_MAX,
        in_gamut(color@),
        drawable_patches(old(out)@),
    ensures
        final(out)@ == old(out)@ + glyph_patches(
            g@,
            7,
            x as int,
            y as int,
            unit as int,
            color,
        ),
        final(out)@.len() <= old(out)@.len() + 21,
        drawable_patches(final(out)@),
{
    let mut row: usize = 0;
    assert(out@ =~= old(out)@ + glyph_patches(g@, 0, x as int, y as int, unit as int, color));
    while row < 7
        invariant
            row <= 7,
            0 <= x <= FAR / 2,
            0 <= y <= FAR / 4,
            0 < unit <= UNIT_MAX,
            in_gamut(color@),
            out@ == old(out)@ + glyph_patches(
                g@,
                row as int,
                x as int,
                y as int,
                unit as int,
                color,
            ),
            out@.len() <= old(out)@.len() + 3 * row,
            drawable_patches(out@),
        decreases 7 - row,
    {
        assert(0 <= row * unit <= 7 * UNIT_MAX) by (nonlinear_arith)
            requires
                0 <= row < 7,
                0 < unit <= UNIT_MAX,
        ;
        push_row(out, g[row], x, y + row as i64 * unit, unit, color);
        row = row + 1;
        assert(out@ =~= old(out)@ + glyph_patches(
            g@,
            row as int,
            x as int,
            y as int,
            unit as int,
            color,
        ));
    }
}

/// Lay out a line of text, merging horizontal runs of lit pixels into single
/// patches.
pub fn text_at(out: &mut Vec<Patch>, x: i64, y: i64, unit: i64, s: &str, color: [i64; 4])
    requires
        0 <= x <= FAR / 4,
        0 <= y <= FAR / 4,
        0 < unit <= UNIT_MAX,
        s@.len() <= LINE_MAX,
        in_gamut(color@),
        drawable_patches(old(out)@),
    ensures
        final(out)@ == old(out)@ + text_patches(
            s@,
            s@.len() as int,
            x as int,
            y as int,
            unit as int,
            color,
        ),
        final(out)@.len() <= old(out)@.len() + 21 * s@.len(),
        drawable_patches(final(out)@),
{
    let n: usize = s.unicode_len();
    let cell: i64 = 6 * unit;
    assert(cell == CELL_W * unit) by (nonlinear_arith)
        requires
            cell == 6 * unit,
            CELL_W == 6,
    ;
    let mut i: usize = 0;
    assert(out@ =~= old(out)@ + text_patches(s@, 0, x as int, y as int, unit as int, color));
    while i < n
        invariant
            i <= n == s@.len() <= LINE_MAX,
            0 <= x <= FAR / 4,
            0 <= y <= FAR / 4,
            0 < unit <= UNIT_MAX,
            cell == CELL_W * unit,
            cell == 6 * unit,
            in_gamut(color@),
            out@ == old(out)@ + text_patches(
                s@,
                i as int,
                x as int,
                y as int,
                unit as int,
                color,
            ),
            out@.len() <= old(out)@.len() + 21 * i,
            drawable_patches(out@),
        decreases n - i,
    {
        assert(0 <= i * cell <= FAR / 4) by (nonlinear_arith)
            requires
                0 <= i <= LINE_MAX,
                0 < cell <= 6 * UNIT_MAX,
        ;
        push_glyph(out, glyph(s.get_char(i)), x + i as i64 * cell, y, unit, color);
        i = i + 1;
        assert(out@ =~= old(out)@ + text_patches(
            s@,
            i as int,
            x as int,
            y as int,
            unit as int,
            color,
        ));
    }
}

// -- strip charts -----------------------------------------------------------
/// `v` out of `full`, limited to all of it, as a share of `h`.
pub open spec fn share(v: int, full: int, h: int) -> int {
    clamped(v, 0, full) * h / full
}

/// A share is between nothing and all, and grows with the value.
pub proof fn law_share(v: int, u: int, full: int, h: int)
    requires
        full > 0,
        h >= 0,
        v <= u,
    ensures
        0 <= share(v, full, h) <= share(u, full, h) <= h,
        share(full, full, h) == h,
{
    let a = clamped(v, 0, full);
    let b = clamped(u, 0, full);
    assert(0 <= a * h <= b * h <= full * h) by (nonlinear_arith)
        requires
            0 <= a <= b <= full,
            h >= 0,
    ;
    assert(full * h / full == h) by (nonlinear_arith)
        requires
            full > 0,
    ;
    vstd::arithmetic::div_mod::lemma_div_is_ordered(0, a * h, full);
    vstd::arithmetic::div_mod::lemma_div_is_ordered(a * h, b * h, full);
    vstd::arithmetic::div_mod::lemma_div_is_ordered(b * h, full * h, full);
    assert(0int / full == 0) by (nonlinear_arith)
        requires
            full > 0,
    ;
}

fn share_of(v: i64, full: u128, h: i64) -> (r: i64)
    requires
        0 < full < 0x4_0000_0000_0000_0000,
        0 <= h <= FAR / 8,
    ensures
        r == share(v as int, full as int, h as int),
        0 <= r <= h,
{
    proof {
        law_share(v as int, v as int, full as int, h as int);
    }
    let part: u128 = if v <= 0 {
        0
    } else if v as u128 > full {
        full
    } else {
        v as u128
    };
    assert(0 <= part * h <= 0x4_0000_0000_0000_0000 * FAR) by (nonlinear_arith)
        requires
            0 <= part <= full < 0x4_0000_0000_0000_0000,
            0 <= h <= FAR / 8,
    ;
    (part * h as u128 / full) as i64
}

/// The larger of two lengths.
pub open spec fn longer(a: int, b: int) -> int {
    if a < b {
        b
    } else {
        a
    }
}

/// Where a strip chart stands: its corner and size.
#[derive(Clone, Copy)]
pub struct Frame {
    pub x: i64,
    pub y: i64,
    pub w: i64,
    pub h: i64,
}

impl Frame {
    /// In reach and not empty.
    pub open spec fn wf(&self) -> bool {
        &&& 0 <= self.x <= FAR / 8
        &&& 0 <= self.y <= FAR / 8
        &&& ONE <= self.w <= FAR / 8
        &&& ONE <= self.h <= FAR / 8
    }
}

/// Behind a strip chart.
pub const STRIP_BACK: [i64; 4] = [100_000_000, 110_000_000, 160_000_000, 850_000_000];

/// The reference line of a strip chart.
pub const STRIP_WARN: [i64; 4] = [900_000_000, 750_000_000, 200_000_000, 550_000_000];

/// Height of the bar of a sample: at least a pixel.
pub open spec fn bar_height(v: int, full: int, h: int) -> int {
    longer(share(v, full, h), ONE as int)
}

/// The bar of sample `i` of `n`.
pub open spec fn bar_patch(v: int, i: int, n: int, full: int, at: Frame, color: [i64; 4]) -> Patch {
    patch_of(
        at.x + i * at.w / n,
        at.y + at.h - bar_height(v, full, at.h as int),
        longer(at.w as int / n, ONE as int),
        bar_height(v, full, at.h as int),
        color,
    )
}

/// Strip chart of a window of samples, newest at the right, with a reference
/// line at `warn`; `full` is the value of a full-height bar.
pub open spec fn strip_patches(
    samples: Seq<i64>,
    full: int,
    warn: int,
    at: Frame,
    color: [i64; 4],
) -> Seq<Patch> {
    seq![
        patch_of(at.x as int, at.y as int, at.w as int, at.h as int, STRIP_BACK),
        patch_of(
            at.x as int,
            at.y + at.h - share(warn, full, at.h as int),
            at.w as int,
            ONE as int,
            STRIP_WARN,
        ),
    ] + Seq::new(
        samples.len(),
        |i: int| bar_patch(samples[i] as int, i, samples.len() as int, full, at, color),
    )
}

/// Bars stand left to right in the order of their samples, and none leaves its
/// chart upward or downward.
pub proof fn law_bars_in_order(
    samples: Seq<i64>,
    i: int,
    j: int,
    full: int,
    warn: int,
    at: Frame,
    color: [i64; 4],
)
    requires
        0 <= i <= j < samples.len(),
        full > 0,
        at.wf(),
    ensures
        strip_patches(samples, full, warn, at, color)[2 + i].x0 <= strip_patches(
            samples,
            full,
            warn,
            at,
            color,
        )[2 + j].x0,
        snapped(at.y as int) <= strip_patches(samples, full, warn, at, color)[2 + i].y0,
        strip_patches(samples, full, warn, at, color)[2 + i].y1 == snapped(at.y + at.h),
{
    let n = samples.len() as int;
    let all = strip_patches(samples, full, warn, at, color);
    law_share(samples[i] as int, samples[i] as int, full, at.h as int);
    assert(all[2 + i] == bar_patch(samples[i] as int, i, n, full, at, color));
    assert(all[2 + j] == bar_patch(samples[j] as int, j, n, full, at, color));
    lemma_bar_left(i, j, n, at.w as int);
}

proof fn lemma_bar_left(i: int, j: int, n: int, w: int)
    requires
        0 <= i <= j < n,
        0 < w,
    ensures
        0 <= i * w / n <= j * w / n <= w,
        0 <= w / n <= w,
{
    assert(0 <= i * w <= j * w <= n * w) by (nonlinear_arith)
        requires
            0 <= i <= j < n,
            0 < w,
    ;
    vstd::arithmetic::div_mod::lemma_div_is_ordered(0, i * w, n);
    vstd::arithmetic::div_mod::lemma_div_is_ordered(i * w, j * w, n);
    vstd::arithmetic::div_mod::lemma_div_is_ordered(j * w, n * w, n);
    assert(n * w / n == w && 0int / n == 0) by (nonlinear_arith)
        requires
            n > 0,
    ;
    vstd::arithmetic::div_mod::lemma_div_is_ordered(w, n * w, n);
    assert(w <= n * w && 0 <= w / n) by (nonlinear_arith)
        requires
            n > 0,
            w > 0,
    ;
}

/// Lay out a strip chart.
pub fn strip(out: &mut Vec<Patch>, at: Frame, ring: &Ring, full: u128, warn: i64, color: [i64; 4])
    requires
        at.wf(),
        ring.wf(),
        0 < full < 0x4_0000_0000_0000_0000,
        in_gamut(color@),
        drawable_patches(old(out)@),
    ensures
        final(out)@ == old(out)@ + strip_patches(ring@, full as int, warn as int, at, color),
        final(out)@.len() <= old(out)@.len() + HISTORY + 2,
        drawable_patches(final(out)@),
{
    let ghost first = out@;
    let ghost want = strip_patches(ring@, full as int, warn as int, at, color);
    out.push(make_patch(at.x, at.y, at.w, at.h, STRIP_BACK));
    let line: i64 = share_of(warn, full, at.h);
    out.push(make_patch(at.x, at.y + at.h - line, at.w, ONE, STRIP_WARN));
    let samples: Vec<i64> = ring.samples();
    let n: usize = samples.len();
    let mut i: usize = 0;
    proof {
        assert(out@ =~= first + want.take(2));
        assert(in_gamut(STRIP_BACK@) && in_gamut(STRIP_WARN@));
    }
    while i < n
        invariant
            i <= n == samples@.len() <= HISTORY,
            samples@ == ring@,
            at.wf(),
            0 < full < 0x4_0000_0000_0000_0000,
            in_gamut(color@),
            want == strip_patches(samples@, full as int, warn as int, at, color),
            out@ == first + want.take(2 + i),
            drawable_patches(out@),
        decreases n - i,
    {
        let part: i64 = share_of(samples[i], full, at.h);
        let bar_h: i64 = if part < ONE {
            ONE
        } else {
            part
        };
        proof {
            lemma_bar_left(i as int, i as int, n as int, at.w as int);
            assert(0 <= i * at.w <= HISTORY * FAR) by (nonlinear_arith)
                requires
                    0 <= i <= HISTORY,
                    0 <= at.w <= FAR,
            ;
        }
        let left: i64 = i as i64 * at.w / n as i64;
        let even: i64 = at.w / n as i64;
        let bar_w: i64 = if even < ONE {
            ONE
        } else {
            even
        };
        out.push(make_patch(at.x + left, at.y + at.h - bar_h, bar_w, bar_h, color));
        proof {
            assert(want[2 + i] == bar_patch(
                samples@[i as int] as int,
                i as int,
                n as int,
                full as int,
                at,
                color,
            ));
            assert(want.take(2 + i + 1) =~= want.take(2 + i).push(want[2 + i]));
        }
        i = i + 1;
        assert(out@ =~= first + want.take(2 + i));
    }
    assert(want.take(2 + n) =~= want);
}

// -- panel ------------------------------------------------------------------
/// Pixels per font pixel: grows with the framebuffer so that the overlay stays
/// legible, from one to three.
pub open spec fn scale_of(height: int) -> int {
    clamped(height / 620, 1, 3)
}

fn scale(height: u32) -> (s: i64)
    ensures
        s == scale_of(height as int),
        1 <= s <= 3,
{
    let s: u32 = height / 620;
    if s < 1 {
        1
    } else if s > 3 {
        3
    } else {
        s as i64
    }
}

/// Behind the panel.
pub const PANEL_BACK: [i64; 4] = [0, 0, 0, 780_000_000];

/// The rule at the top of the panel.
pub const PANEL_RULE: [i64; 4] = [400_000_000, 900_000_000, 1_000_000_000, 500_000_000];

/// Bars of the present-delta chart.
pub const PRESENT_BAR: [i64; 4] = [450_000_000, 850_000_000, 1_000_000_000, 950_000_000];

/// Bars of the spectrum-age chart.
pub const AGE_BAR: [i64; 4] = [1_000_000_000, 550_000_000, 350_000_000, 950_000_000];

/// Color of a row.
pub open spec fn ink_of(ink: Ink) -> [i64; 4] {
    match ink {
        Ink::White => [1_000_000_000, 1_000_000_000, 1_000_000_000, 950_000_000],
        Ink::Dim => [620_000_000, 680_000_000, 780_000_000, 900_000_000],
        Ink::Good => [450_000_000, 950_000_000, 600_000_000, 950_000_000],
        Ink::Bad => [1_000_000_000, 420_000_000, 380_000_000, 1_000_000_000],
        Ink::Hot => [1_000_000_000, 780_000_000, 300_000_000, 1_000_000_000],
    }
}

fn ink_color(ink: Ink) -> (c: [i64; 4])
    ensures
        c == ink_of(ink),
        in_gamut(c@),
{
    match ink {
        Ink::White => [1_000_000_000, 1_000_000_000, 1_000_000_000, 950_000_000],
        Ink::Dim => [620_000_000, 680_000_000, 780_000_000, 900_000_000],
        Ink::Good => [450_000_000, 950_000_000, 600_000_000, 950_000_000],
        Ink::Bad => [1_000_000_000, 420_000_000, 380_000_000, 1_000_000_000],
        Ink::Hot => [1_000_000_000, 780_000_000, 300_000_000, 1_000_000_000],
    }
}

/// Height an entry takes, for font pixels of `unit`: a cell for a line of text.
pub open spec fn advance(entry: Entry, unit: int) -> int {
    match entry {
        Entry::Line(ink, text) => CELL_H * unit,
        Entry::Gap => CELL_H * unit * 2 / 5,
        Entry::Strip(chart) => CELL_H * unit * 13 / 5,
    }
}

/// Top of entry `i`.
pub open spec fn top_of(items: Seq<Entry>, i: int, unit: int) -> int
    decreases i,
{
    if i <= 0 {
        16 * unit
    } else {
        top_of(items, i - 1, unit) + advance(items[i - 1], unit)
    }
}

/// Full height of the spectrum-age chart: a fifth above the largest age, and at
/// least twenty milliseconds.
pub open spec fn age_full(ages: Seq<i64>) -> int {
    match greatest(ages, ages.len() as int) {
        None => 20 * ONE,
        Some(m) => longer(m * 6 / 5, 20 * ONE),
    }
}

/// Full height of the present-delta chart: two and a half refresh periods.
pub open spec fn present_full(present: Seq<i64>) -> int {
    refresh_of(present) * 5 / 2
}

/// Where a chart stands.
pub open spec fn chart_frame(top: int, unit: int) -> Frame {
    Frame { x: (16 * unit) as i64, y: top as i64, w: (276 * unit) as i64, h: (18 * unit) as i64 }
}

/// Patches of one entry.
pub open spec fn entry_patches(hud: &Hud, entry: Entry, top: int, unit: int) -> Seq<Patch> {
    match entry {
        Entry::Line(ink, text) => {
            let chars = line_chars(text, text.len() as int);
            text_patches(chars, chars.len() as int, 16 * unit, top, unit, ink_of(ink))
        },
        Entry::Gap => Seq::empty(),
        Entry::Strip(Chart::Present) => strip_patches(
            hud.present_dt@,
            present_full(hud.present_dt@),
            refresh_of(hud.present_dt@),
            chart_frame(top, unit),
            PRESENT_BAR,
        ),
        Entry::Strip(Chart::Age) => strip_patches(
            hud.age@,
            age_full(hud.age@),
            refresh_of(hud.present_dt@),
            chart_frame(top, unit),
            AGE_BAR,
        ),
    }
}

/// Patches of the first `n` entries.
pub open spec fn entries_patches(hud: &Hud, items: Seq<Entry>, n: int, unit: int) -> Seq<Patch>
    decreases n,
{
    if n <= 0 {
        Seq::empty()
    } else {
        entries_patches(hud, items, n - 1, unit) + entry_patches(
            hud,
            items[n - 1],
            top_of(items, n - 1, unit),
            unit,
        )
    }
}

/// The whole overlay: the panel, its rule, and its entries.
pub open spec fn overlay_patches(hud: &Hud, items: Seq<Entry>, unit: int) -> Seq<Patch> {
    seq![
        patch_of(8 * unit, 8 * unit, 292 * unit, 267 * unit, PANEL_BACK),
        patch_of(8 * unit, 8 * unit, 292 * unit, ONE as int, PANEL_RULE),
    ] + entries_patches(hud, items, items.len() as int, unit)
}

/// Most patches an overlay can have.
pub const PATCHES_MAX: usize = 70_000_000;

fn push_entry(out: &mut Vec<Patch>, hud: &Hud, item: &Item, top: i64, unit: i64)
    requires
        hud.wf(),
        item@.valid(),
        item@.short(),
        0 <= top <= FAR / 16,
        ONE <= unit <= UNIT_MAX,
        drawable_patches(old(out)@),
    ensures
        final(out)@ == old(out)@ + entry_patches(hud, item@, top as int, unit as int),
        final(out)@.len() <= old(out)@.len() + 2_100_000,
        drawable_patches(final(out)@),
{
    assert(in_gamut(PRESENT_BAR@) && in_gamut(AGE_BAR@));
    match item {
        Item::Line(ink, pieces) => {
            let text: String = line_text(pieces);
            proof {
                let p = crate::text::parts(pieces@);
                lemma_line_len(p, p.len() as int);
            }
            text_at(out, 16 * unit, top, unit, text.as_str(), ink_color(*ink));
        },
        Item::Gap => {
            assert(out@ =~= old(out)@ + Seq::<Patch>::empty());
        },
        Item::Strip(Chart::Present) => {
            let refresh: i64 = hud.refresh_ms();
            let at: Frame = Frame { x: 16 * unit, y: top, w: 276 * unit, h: 18 * unit };
            strip(out, at, &hud.present_dt, refresh as u128 * 5 / 2, refresh, PRESENT_BAR);
        },
        Item::Strip(Chart::Age) => {
            let refresh: i64 = hud.refresh_ms();
            let at: Frame = Frame { x: 16 * unit, y: top, w: 276 * unit, h: 18 * unit };
            let floor: u128 = 20_000_000_000;
            let full: u128 = match hud.age.max() {
                None => floor,
                Some(m) => if m <= 0 || m as u128 * 6 / 5 < floor {
                    floor
                } else {
                    m as u128 * 6 / 5
                },
            };
            strip(out, at, &hud.age, full, refresh, AGE_BAR);
        },
    }
}

/// Lay out the overlay for a framebuffer of some height.
pub fn layout(hud: &Hud, info: &StaticInfo, now: u64, height: u32) -> (out: Vec<Patch>)
    requires
        hud.wf(),
        info.short(),
    ensures
        out@ == overlay_patches(
            hud,
            panel_entries(hud, info, now as int),
            scale_of(height as int) * ONE,
        ),
        out@.len() <= PATCHES_MAX,
        drawable_patches(out@),
{
    let unit: i64 = scale(height) * ONE;
    let cell: i64 = 9 * unit;
    assert(cell == CELL_H * unit) by (nonlinear_arith)
        requires
            cell == 9 * unit,
            CELL_H == 9,
    ;
    let items: Vec<Item> = panel_items(hud, info, now);
    let ghost all = entries(items@);
    let mut out: Vec<Patch> = Vec::new();
    out.push(make_patch(8 * unit, 8 * unit, 292 * unit, 267 * unit, PANEL_BACK));
    out.push(make_patch(8 * unit, 8 * unit, 292 * unit, ONE, PANEL_RULE));
    let ghost first = out@;
    let mut top: i64 = 16 * unit;
    let mut i: usize = 0;
    proof {
        assert(in_gamut(PANEL_BACK@) && in_gamut(PANEL_RULE@));
        assert(out@ =~= first + entries_patches(hud, all, 0, unit as int));
    }
    while i < items.len()
        invariant
            i <= items@.len() == 28,
            hud.wf(),
            ONE <= unit <= UNIT_MAX,
            cell == CELL_H * unit,
            cell == 9 * unit,
            all == entries(items@),
            ready(items@),
            top == top_of(all, i as int, unit as int),
            0 <= top <= 16 * UNIT_MAX + i * 24 * UNIT_MAX,
            first.len() == 2,
            out@ == first + entries_patches(hud, all, i as int, unit as int),
            out@.len() <= 2 + i * 2_100_000,
            drawable_patches(out@),
        decreases items@.len() - i,
    {
        assert(all[i as int] == items@[i as int]@);
        push_entry(&mut out, hud, &items[i], top, unit);
        let step: i64 = match &items[i] {
            Item::Line(ink, pieces) => cell,
            Item::Gap => cell * 2 / 5,
            Item::Strip(chart) => cell * 13 / 5,
        };
        top = top + step;
        i = i + 1;
        assert(out@ =~= first + entries_patches(hud, all, i as int, unit as int));
    }
    assert(first =~= seq![
        patch_of(8 * unit, 8 * unit, 292 * unit, 267 * unit, PANEL_BACK),
        patch_of(8 * unit, 8 * unit, 292 * unit, ONE as int, PANEL_RULE),
    ]);
    out
}

// -- mesh -------------------------------------------------------------------
/// Horizontal position of a pixel edge.
pub open spec fn ndc_x(px: int, width: int) -> int {
    px * (2 * ONE) / width - ONE
}

/// Vertical position of a pixel edge, counted from the top.
pub open spec fn ndc_y(px: int, height: int) -> int {
    ONE - px * (2 * ONE) / height
}

/// Vertices of the first `n` patches.
pub open spec fn patch_vertices(patches: Seq<Patch>, n: int, width: int, height: int) -> Seq<Vertex>
    decreases n,
{
    if n <= 0 {
        Seq::empty()
    } else {
        let p = patches[n - 1];
        patch_vertices(patches, n - 1, width, height) + rect_vertices(
            ndc_x(p.x0 as int, width),
            ndc_y(p.y1 as int, height),
            ndc_x(p.x1 as int, width),
            ndc_y(p.y0 as int, height),
            p.color,
        )
    }
}

/// Indices of the first `n` patches, whose vertices start at `first`.
pub open spec fn patch_indices(first: int, n: int) -> Seq<u32>
    decreases n,
{
    if n <= 0 {
        Seq::empty()
    } else {
        patch_indices(first, n - 1) + quad_of(
            first + 4 * (n - 1),
            first + 4 * (n - 1) + 1,
            first + 4 * (n - 1) + 2,
            first + 4 * (n - 1) + 3,
        )
    }
}

/// At least one pixel.
pub open spec fn side_of(px: int) -> int {
    longer(px, 1)
}

fn side(px: u32) -> (s: i64)
    ensures
        s == side_of(px as int),
        1 <= s <= 0xFFFF_FFFF,
{
    if px < 1 {
        1
    } else {
        px as i64
    }
}

fn edge(px: i64, side: i64) -> (r: i64)
    requires
        0 <= px <= 20_000_001,
        1 <= side <= 0xFFFF_FFFF,
    ensures
        r == px * (2 * ONE) / side as int,
        0 <= r <= 20_000_001 * (2 * ONE),
{
    proof {
        let a = px * (2 * ONE);
        assert(a <= 20_000_001 * (2 * ONE)) by (nonlinear_arith)
            requires
                a == px * (2 * ONE),
                0 <= px <= 20_000_001,
        ;
        assert(a >= 0) by (nonlinear_arith)
            requires
                a == px * (2 * ONE),
                0 <= px,
        ;
        vstd::arithmetic::div_mod::lemma_div_is_ordered(0, a, side as int);
        assert(0int / side as int == 0 && a / side as int <= a) by (nonlinear_arith)
            requires
                a >= 0,
                side >= 1,
        ;
    }
    px * (2 * ONE) / side
}

impl<F: Fn(i64) -> Point> MeshBuilder<F> {
    /// `self` is `before` with some patches drawn on a framebuffer of a size.
    pub open spec fn patched(
        &self,
        before: &Self,
        patches: Seq<Patch>,
        width: int,
        height: int,
    ) -> bool {
        self.extends(
            before,
            patch_vertices(patches, patches.len() as int, width, height),
            patch_indices(before.count(), patches.len() as int),
        )
    }

    /// Draw pixel-space patches.
    pub fn draw_patches(&mut self, patches: &[Patch], fb_w: u32, fb_h: u32)
        requires
            old(self).wf(),
            drawable_patches(patches@),
            old(self).count() + 4 * patches@.len() <= VERTS_MAX,
        ensures
            final(self).wf(),
            final(self).patched(
                old(self),
                patches@,
                side_of(fb_w as int),
                side_of(fb_h as int),
            ),
            final(self).count() == old(self).count() + 4 * patches@.len(),
            final(self).indices@.len() == old(self).indices@.len() + 6 * patches@.len(),
    {
        let w: i64 = side(fb_w);
        let h: i64 = side(fb_h);
        let ghost first = self.count();
        let ghost verts = self.verts@;
        let ghost indices = self.indices@;
        let mut i: usize = 0;
        proof {
            assert(self.verts@ =~= verts + patch_vertices(patches@, 0, w as int, h as int));
            assert(self.indices@ =~= indices + patch_indices(first, 0));
        }
        while i < patches.len()
            invariant
                i <= patches@.len(),
                self.wf(),
                self.same_frame(old(self)),
                drawable_patches(patches@),
                1 <= w <= 0xFFFF_FFFF,
                1 <= h <= 0xFFFF_FFFF,
                first == verts.len(),
                first + 4 * patches@.len() <= VERTS_MAX,
                self.count() == first + 4 * i,
                self.verts@ == verts + patch_vertices(patches@, i as int, w as int, h as int),
                self.indices@ == indices + patch_indices(first, i as int),
                self.indices@.len() == indices.len() + 6 * i,
            decreases patches@.len() - i,
        {
            let p: Patch = patches[i];
            assert(patches@[i as int].fits());
            let x0: i64 = edge(p.x0, w) - ONE;
            let x1: i64 = edge(p.x1, w) - ONE;
            let y0: i64 = ONE - edge(p.y1, h);
            let y1: i64 = ONE - edge(p.y0, h);
            self.rect(x0, y0, x1, y1, p.color);
            i = i + 1;
            proof {
                assert(self.verts@ =~= verts + patch_vertices(
                    patches@,
                    i as int,
                    w as int,
                    h as int,
                ));
                assert(self.indices@ =~= indices + patch_indices(first, i as int));
            }
        }
    }
}

impl Hud {
    /// Draw the overlay on top of a scene; nothing when it is hidden.
    pub fn draw<F: Fn(i64) -> Point>(
        &mut self,
        mesh: &mut MeshBuilder<F>,
        fb_w: u32,
        fb_h: u32,
        info: &StaticInfo,
        now: u64,
    )
        requires
            old(self).wf(),
            old(mesh).wf(),
            info.short(),
            old(mesh).count() + 4 * PATCHES_MAX <= VERTS_MAX,
        ensures
            final(self).wf(),
            final(mesh).wf(),
            !old(self).enabled ==> *final(mesh) == *old(mesh) && *final(self) == (Hud {
                hud_verts: 0,
                hud_indices: 0,
                ..*old(self)
            }),
            old(self).enabled ==> ({
                let counted = Hud {
                    dropped_frames: dropped_of(old(self).present_dt@) as u64,
                    ..*old(self)
                };
                let patches = overlay_patches(
                    &counted,
                    panel_entries(&counted, info, now as int),
                    scale_of(fb_h as int) * ONE,
                );
                &&& final(mesh).patched(
                    old(mesh),
                    patches,
                    side_of(fb_w as int),
                    side_of(fb_h as int),
                )
                &&& *final(self) == (Hud {
                    hud_verts: (4 * patches.len()) as usize,
                    hud_indices: (6 * patches.len()) as usize,
                    ..counted
                })
            }),
    {
        if !self.enabled {
            self.hud_verts = 0;
            self.hud_indices = 0;
            return;
        }
        let _: u64 = self.count_dropped();
        let patches: Vec<Patch> = layout(&*self, info, now, if fb_h < 1 {
            1
        } else {
            fb_h
        });
        mesh.draw_patches(patches.as_slice(), fb_w, fb_h);
        self.hud_verts = 4 * patches.len();
        self.hud_indices = 6 * patches.len();
    }
}

// -- what the overlay looks like ----------------------------------------------
/// A patch covers the rectangle that was asked for, each edge on the nearest whole
/// pixel, in the color that was asked for.
pub proof fn law_patch(x: int, y: int, w: int, h: int, color: [i64; 4])
    requires
        0 <= x <= FAR,
        0 <= y <= FAR,
        0 <= w <= FAR,
        0 <= h <= FAR,
    ensures
        ({
            let p = patch_of(x, y, w, h, color);
            let one = 1_000_000_000int;
            &&& -one <= 2 * (one * p.x0 - x) <= one
            &&& -one <= 2 * (one * p.x1 - x - w) <= one
            &&& -one <= 2 * (one * p.y0 - y) <= one
            &&& -one <= 2 * (one * p.y1 - y - h) <= one
            &&& p.color == color
        }),
{
    law_snapped(x);
    law_snapped(y);
    law_snapped(x + w);
    law_snapped(y + h);
}

proof fn lemma_glyph_row(
    g: Seq<u8>,
    rows: int,
    x: int,
    y: int,
    unit: int,
    color: [i64; 4],
    r: int,
    i: int,
) -> (j: int)
    requires
        0 <= r < rows,
        0 <= i < runs_from(g[r], 0).len(),
    ensures
        0 <= j < glyph_patches(g, rows, x, y, unit, color).len(),
        glyph_patches(g, rows, x, y, unit, color)[j] == row_patches(
            runs_from(g[r], 0),
            x,
            y + r * unit,
            unit,
            color,
        )[i],
    decreases rows,
{
    if r < rows - 1 {
        lemma_glyph_row(g, rows - 1, x, y, unit, color, r, i)
    } else {
        glyph_patches(g, rows - 1, x, y, unit, color).len() + i
    }
}

proof fn lemma_text_glyph(
    chars: Seq<char>,
    n: int,
    x: int,
    y: int,
    unit: int,
    color: [i64; 4],
    m: int,
    i: int,
) -> (j: int)
    requires
        0 <= m < n <= chars.len(),
        0 <= i < glyph_patches(
            GLYPHS@[glyph_index(chars[m])]@,
            7,
            x + m * (6 * unit),
            y,
            unit,
            color,
        ).len(),
    ensures
        0 <= j < text_patches(chars, n, x, y, unit, color).len(),
        text_patches(chars, n, x, y, unit, color)[j] == glyph_patches(
            GLYPHS@[glyph_index(chars[m])]@,
            7,
            x + m * (6 * unit),
            y,
            unit,
            color,
        )[i],
    decreases n,
{
    if m < n - 1 {
        lemma_text_glyph(chars, n - 1, x, y, unit, color, m, i)
    } else {
        text_patches(chars, n - 1, x, y, unit, color).len() + i
    }
}

/// Text shows each of its characters: every lit pixel of a glyph is part of a patch
/// that covers a run of lit pixels of its row, in the cell of that character, six
/// pixels behind the one before it. Returns the patch and the ends of the run.
pub proof fn law_text_shows_characters(
    chars: Seq<char>,
    n: int,
    x: int,
    y: int,
    unit: int,
    color: [i64; 4],
    m: int,
    row: int,
    c: int,
) -> (r: (int, int, int))
    requires
        0 <= m < n <= chars.len(),
        0 <= row < 7,
        0 <= c < 5,
        lit(GLYPHS@[glyph_index(chars[m])]@[row], c),
    ensures
        ({
            let (j, a, b) = r;
            let all = text_patches(chars, n, x, y, unit, color);
            &&& 0 <= j < all.len()
            &&& 0 <= a <= c < b <= 5
            &&& forall|d: int|
                a <= d < b ==> #[trigger] lit(GLYPHS@[glyph_index(chars[m])]@[row], d)
            &&& all[j] == patch_of(
                x + m * (6 * unit) + a * unit,
                y + row * unit,
                (b - a) * unit,
                unit,
                color,
            )
        }),
{
    let g = GLYPHS@[glyph_index(chars[m])]@;
    let bits = g[row];
    law_runs_cover(bits, 0, c);
    lemma_runs_bounds(bits, 0);
    let runs = runs_from(bits, 0);
    let i = choose|i: int| 0 <= i < runs.len() && #[trigger] in_run(runs[i], c);
    let (a, b) = runs[i];
    lemma_run_is_lit(bits, i);
    let k = lemma_glyph_row(g, 7, x + m * (6 * unit), y, unit, color, row, i);
    let j = lemma_text_glyph(chars, n, x, y, unit, color, m, k);
    (j, a, b)
}

proof fn lemma_run_is_lit(bits: u8, i: int)
    requires
        0 <= i < runs_from(bits, 0).len(),
    ensures
        ({
            let (a, b) = runs_from(bits, 0)[i];
            0 <= a < b <= 5 && forall|d: int| a <= d < b ==> #[trigger] lit(bits, d)
        }),
{
    lemma_runs_bounds(bits, 0);
    let runs = runs_from(bits, 0);
    let (a, b) = runs[i];
    assert forall|d: int| a <= d < b implies #[trigger] lit(bits, d) by {
        law_runs_cover(bits, 0, d);
        assert(in_run(runs[i], d));
    }
}

proof fn lemma_glyph_from(
    g: Seq<u8>,
    rows: int,
    x: int,
    y: int,
    unit: int,
    color: [i64; 4],
    j: int,
) -> (r: (int, int))
    requires
        0 <= rows,
        0 <= j < glyph_patches(g, rows, x, y, unit, color).len(),
    ensures
        0 <= r.0 < rows,
        0 <= r.1 < runs_from(g[r.0], 0).len(),
        glyph_patches(g, rows, x, y, unit, color)[j] == row_patches(
            runs_from(g[r.0], 0),
            x,
            y + r.0 * unit,
            unit,
            color,
        )[r.1],
    decreases rows,
{
    let before = glyph_patches(g, rows - 1, x, y, unit, color);
    if rows > 0 && j < before.len() {
        lemma_glyph_from(g, rows - 1, x, y, unit, color, j)
    } else {
        (rows - 1, j - before.len())
    }
}

/// Text lights nothing but its characters: every patch of it covers lit pixels of one
/// row of one character, in the cell of that character. Returns the character, the
/// row and the ends of the run.
pub proof fn law_text_shows_nothing_else(
    chars: Seq<char>,
    n: int,
    x: int,
    y: int,
    unit: int,
    color: [i64; 4],
    j: int,
) -> (r: (int, int, int, int))
    requires
        0 <= n <= chars.len(),
        0 <= j < text_patches(chars, n, x, y, unit, color).len(),
    ensures
        ({
            let (m, row, a, b) = r;
            let bits = GLYPHS@[glyph_index(chars[m])]@[row];
            &&& 0 <= m < n
            &&& 0 <= row < 7
            &&& 0 <= a < b <= 5
            &&& forall|d: int| a <= d < b ==> #[trigger] lit(bits, d)
            &&& text_patches(chars, n, x, y, unit, color)[j] == patch_of(
                x + m * (6 * unit) + a * unit,
                y + row * unit,
                (b - a) * unit,
                unit,
                color,
            )
        }),
    decreases n,
{
    let before = text_patches(chars, n - 1, x, y, unit, color);
    if n > 0 && j < before.len() {
        law_text_shows_nothing_else(chars, n - 1, x, y, unit, color, j)
    } else {
        let m = n - 1;
        let g = GLYPHS@[glyph_index(chars[m])]@;
        let (row, i) = lemma_glyph_from(
            g,
            7,
            x + m * (6 * unit),
            y,
            unit,
            color,
            j - before.len(),
        );
        lemma_run_is_lit(g[row], i);
        let (a, b) = runs_from(g[row], 0)[i];
        (m, row, a, b)
    }
}

/// A share of a height is in proportion to the value, from none to the whole.
pub proof fn law_share_proportional(v: int, full: int, h: int)
    requires
        full > 0,
        h >= 0,
    ensures
        v <= 0 ==> share(v, full, h) == 0,
        v >= full ==> share(v, full, h) == h,
        0 <= v <= full ==> 0 <= v * h - full * share(v, full, h) < full,
{
    law_share(v, v, full, h);
    if v <= 0 {
        assert(0 * h == 0) by (nonlinear_arith);
        vstd::arithmetic::div_mod::lemma_basic_div(0, full);
    }
    if 0 <= v <= full {
        vstd::arithmetic::div_mod::lemma_fundamental_div_mod(v * h, full);
        vstd::arithmetic::div_mod::lemma_mod_bound(v * h, full);
    }
}

/// A chart has a bar for each of its samples, oldest at the left: bar `i` starts at
/// its share of the width, stands on the foot of the chart, and is as tall as its own
/// sample's share of the height, but a pixel at least. Returns where it starts, how
/// wide and how tall it is.
pub proof fn law_strip_shows_samples(
    samples: Seq<i64>,
    full: int,
    warn: int,
    at: Frame,
    color: [i64; 4],
    i: int,
) -> (r: (int, int, int))
    requires
        0 <= i < samples.len(),
        full > 0,
        at.wf(),
    ensures
        ({
            let (start, wide, tall) = r;
            let all = strip_patches(samples, full, warn, at, color);
            let n = samples.len() as int;
            let v = samples[i] as int;
            &&& all.len() == 2 + n
            &&& all[2 + i] == patch_of(at.x + start, at.y + at.h - tall, wide, tall, color)
            &&& 0 <= i * at.w - n * start < n
            &&& wide >= 1_000_000_000
            &&& wide > 1_000_000_000 ==> 0 <= at.w - n * wide < n
            &&& tall >= 1_000_000_000
            &&& tall > 1_000_000_000 && v <= full ==> 0 <= v * at.h - full * tall < full
            &&& v >= full ==> tall == at.h
            &&& v <= 0 ==> tall == 1_000_000_000
        }),
{
    let n = samples.len() as int;
    let all = strip_patches(samples, full, warn, at, color);
    let v = samples[i] as int;
    law_share_proportional(v, full, at.h as int);
    assert(all[2 + i] == bar_patch(v, i, n, full, at, color));
    let t = i * at.w;
    vstd::arithmetic::div_mod::lemma_fundamental_div_mod(t, n);
    vstd::arithmetic::div_mod::lemma_mod_bound(t, n);
    vstd::arithmetic::div_mod::lemma_fundamental_div_mod(at.w as int, n);
    vstd::arithmetic::div_mod::lemma_mod_bound(at.w as int, n);
    if v < 0 {
        assert(share(v, full, at.h as int) == 0);
    }
    (t / n, longer(at.w as int / n, ONE as int), bar_height(v, full, at.h as int))
}

/// Behind the bars of a chart lies its background, and across it a line a pixel thick
/// at the height of the warning. Returns that height.
pub proof fn law_strip_backdrop(
    samples: Seq<i64>,
    full: int,
    warn: int,
    at: Frame,
    color: [i64; 4],
) -> (up: int)
    requires
        full > 0,
        at.wf(),
    ensures
        ({
            let all = strip_patches(samples, full, warn, at, color);
            let (x, y, w, h) = (at.x as int, at.y as int, at.w as int, at.h as int);
            &&& all[0] == patch_of(
                x,
                y,
                w,
                h,
                [100_000_000, 110_000_000, 160_000_000, 850_000_000],
            )
            &&& all[1] == patch_of(
                x,
                y + h - up,
                w,
                1_000_000_000,
                [900_000_000, 750_000_000, 200_000_000, 550_000_000],
            )
            &&& 0 <= warn <= full ==> 0 <= warn * h - full * up < full
            &&& warn >= full ==> up == h
        }),
{
    law_share_proportional(warn, full, at.h as int);
    share(warn, full, at.h as int)
}

/// The overlay is drawn once, twice or three times its size, by how many times 620
/// rows the screen holds.
pub proof fn law_scale(height: int)
    requires
        height >= 0,
    ensures
        1 <= scale_of(height) <= 3,
        scale_of(height) > 1 ==> 620 * scale_of(height) <= height,
        scale_of(height) < 3 ==> height < 620 * (scale_of(height) + 1),
{
}

/// The entries of the panel stand one below the other: a line takes nine pixels, a
/// gap two fifths of that and a chart thirteen fifths.
pub proof fn law_entries_stack(items: Seq<Entry>, i: int, unit: int)
    requires
        0 <= i < items.len(),
    ensures
        top_of(items, 0, unit) == 16 * unit,
        items[i] is Line ==> top_of(items, i + 1, unit) == top_of(items, i, unit) + 9 * unit,
        items[i] is Gap ==> 0 <= 18 * unit - 5 * (top_of(items, i + 1, unit) - top_of(
            items,
            i,
            unit,
        )) < 5,
        items[i] is Strip ==> 0 <= 117 * unit - 5 * (top_of(items, i + 1, unit) - top_of(
            items,
            i,
            unit,
        )) < 5,
{
}

/// The panel shows each of its entries at its own place, behind those before it, on
/// its background and below the rule along its top.
pub proof fn law_panel_shows_entries(hud: &Hud, items: Seq<Entry>, unit: int, i: int, k: int)
    requires
        0 <= i < items.len(),
        0 <= k < entry_patches(hud, items[i], top_of(items, i, unit), unit).len(),
    ensures
        ({
            let all = overlay_patches(hud, items, unit);
            let at = 2 + entries_patches(hud, items, i, unit).len() + k;
            &&& all[0] == patch_of(8 * unit, 8 * unit, 292 * unit, 267 * unit, [
                0,
                0,
                0,
                780_000_000,
            ])
            &&& all[1] == patch_of(8 * unit, 8 * unit, 292 * unit, 1_000_000_000, [
                400_000_000,
                900_000_000,
                1_000_000_000,
                500_000_000,
            ])
            &&& at < all.len()
            &&& all[at as int] == entry_patches(hud, items[i], top_of(items, i, unit), unit)[k]
        }),
{
    lemma_entry_in_place(hud, items, items.len() as int, unit, i, k);
}

proof fn lemma_entry_in_place(hud: &Hud, items: Seq<Entry>, n: int, unit: int, i: int, k: int)
    requires
        0 <= i < n <= items.len(),
        0 <= k < entry_patches(hud, items[i], top_of(items, i, unit), unit).len(),
    ensures
        entries_patches(hud, items, i, unit).len() + k < entries_patches(hud, items, n, unit).len(),
        entries_patches(hud, items, n, unit)[entries_patches(hud, items, i, unit).len() + k]
            == entry_patches(hud, items[i], top_of(items, i, unit), unit)[k],
    decreases n,
{
    if i < n - 1 {
        lemma_entry_in_place(hud, items, n - 1, unit, i, k);
    }
}

/// The chart of presents shows the times between them up to two and a half refresh
/// periods, that of ages how old the spectra were up to a fifth more than the oldest
/// and no less than 20 ms; both warn at one refresh period, and are 276 pixels wide
/// and 18 tall. Returns the full scales.
pub proof fn law_charts(hud: &Hud, top: int, unit: int) -> (r: (int, int))
    ensures
        ({
            let (present, age) = r;
            let refresh = refresh_of(hud.present_dt@);
            let at = Frame {
                x: (16 * unit) as i64,
                y: top as i64,
                w: (276 * unit) as i64,
                h: (18 * unit) as i64,
            };
            &&& 0 <= 5 * refresh - 2 * present < 2
            &&& age >= 20_000_000_000
            &&& forall|i: int| 0 <= i < hud.age@.len() ==> 5 * age + 5 > 6 * #[trigger] hud.age@[i]
            &&& age > 20_000_000_000 ==> exists|i: int|
                0 <= i < hud.age@.len() && 5 * age <= 6 * #[trigger] hud.age@[i]
            &&& entry_patches(hud, Entry::Strip(Chart::Present), top, unit) == strip_patches(
                hud.present_dt@,
                present,
                refresh,
                at,
                [450_000_000, 850_000_000, 1_000_000_000, 950_000_000],
            )
            &&& entry_patches(hud, Entry::Strip(Chart::Age), top, unit) == strip_patches(
                hud.age@,
                age,
                refresh,
                at,
                [1_000_000_000, 550_000_000, 350_000_000, 950_000_000],
            )
        }),
{
    let ages = hud.age@;
    let n = ages.len() as int;
    if n > 0 {
        let (_, j) = law_extremes_occur(ages, n);
        assert forall|i: int| 0 <= i < n implies 5 * age_full(ages) + 5 > 6
            * #[trigger] ages[i] by {
            law_extremes(ages, n, i);
        }
        assert(5 * longer(ages[j] * 6 / 5, 20 * ONE) >= 5 * (ages[j] * 6 / 5));
    } else {
        assert(greatest(ages, 0) is None);
    }
    (present_full(hud.present_dt@), age_full(ages))
}

/// A line of the panel is its text, from the sixteenth pixel on, in the color of its
/// ink; a gap shows nothing.
pub proof fn law_panel_lines(hud: &Hud, ink: Ink, text: Seq<Part>, top: int, unit: int)
    ensures
        ({
            let chars = line_chars(text, text.len() as int);
            &&& entry_patches(hud, Entry::Line(ink, text), top, unit) == text_patches(
                chars,
                chars.len() as int,
                16 * unit,
                top,
                unit,
                ink_of(ink),
            )
            &&& entry_patches(hud, Entry::Gap, top, unit).len() == 0
        }),
{
}

/// The inks: white and dim are grays, good is green, bad is red and hot is amber.
pub proof fn law_inks()
    ensures
        ink_of(Ink::White)@ == seq![1_000_000_000i64, 1_000_000_000, 1_000_000_000, 950_000_000],
        ink_of(Ink::Dim)@ == seq![620_000_000i64, 680_000_000, 780_000_000, 900_000_000],
        ink_of(Ink::Good)@ == seq![450_000_000i64, 950_000_000, 600_000_000, 950_000_000],
        ink_of(Ink::Bad)@ == seq![1_000_000_000i64, 420_000_000, 380_000_000, 1_000_000_000],
        ink_of(Ink::Hot)@ == seq![1_000_000_000i64, 780_000_000, 300_000_000, 1_000_000_000],
{
}

/// Pixels span the screen evenly, counted from its left edge to its right and from
/// its top edge down.
pub proof fn law_screen_positions(px: int, side: int)
    requires
        side > 0,
    ensures
        0 <= 2_000_000_000 * px - side * (ndc_x(px, side) + 1_000_000_000) < side,
        0 <= 2_000_000_000 * px - side * (1_000_000_000 - ndc_y(px, side)) < side,
        px == 0 ==> ndc_x(px, side) == -1_000_000_000 && ndc_y(px, side) == 1_000_000_000,
        px == side ==> ndc_x(px, side) == 1_000_000_000 && ndc_y(px, side) == -1_000_000_000,
{
    let n = px * 2_000_000_000;
    vstd::arithmetic::div_mod::lemma_fundamental_div_mod(n, side);
    vstd::arithmetic::div_mod::lemma_mod_bound(n, side);
    let q = n / side;
    if px == 0 {
        assert(q == 0) by (nonlinear_arith)
            requires
                side * q <= 0 < side * q + side,
                side > 0,
        ;
    }
    if px == side {
        assert(q == 2_000_000_000) by (nonlinear_arith)
            requires
                side * q <= 2_000_000_000 * side < side * q + side,
                side > 0,
        ;
    }
}

/// Each patch is drawn where it lies: its four corners, around from the top left, in
/// its own color.
pub proof fn law_patch_corners(patches: Seq<Patch>, n: int, width: int, height: int, i: int)
    requires
        0 <= i < n <= patches.len(),
    ensures
        ({
            let vs = patch_vertices(patches, n, width, height);
            let p = patches[i];
            let (l, t) = (ndc_x(p.x0 as int, width), ndc_y(p.y0 as int, height));
            let (r, b) = (ndc_x(p.x1 as int, width), ndc_y(p.y1 as int, height));
            let c = encoded(p.color, false);
            &&& vs.len() == 4 * n
            &&& vs[4 * i] == (Vertex { position: point(l, t), color: c })
            &&& vs[4 * i + 1] == (Vertex { position: point(r, t), color: c })
            &&& vs[4 * i + 2] == (Vertex { position: point(r, b), color: c })
            &&& vs[4 * i + 3] == (Vertex { position: point(l, b), color: c })
        }),
    decreases n,
{
    if n > 1 {
        law_patch_corners(
            patches,
            n - 1,
            width,
            height,
            if i < n - 1 {
                i
            } else {
                0
            },
        );
    } else {
        assert(patch_vertices(patches, 0, width, height).len() == 0);
    }
}

/// A patch is two triangles over its own four corners.
pub proof fn law_patch_triangles(first: int, n: int, i: int, j: int)
    requires
        0 <= i < n,
        0 <= j < 6,
        0 <= first,
        first + 4 * n <= u32::MAX,
    ensures
        patch_indices(first, n).len() == 6 * n,
        patch_indices(first, n)[6 * i + j] == first + 4 * i + seq![0int, 1, 2, 0, 2, 3][j],
    decreases n,
{
    if n > 1 {
        law_patch_triangles(
            first,
            n - 1,
            if i < n - 1 {
                i
            } else {
                0
            },
            j,
        );
    } else {
        assert(patch_indices(first, 0).len() == 0);
    }
}

/// A side counts as a pixel at least.
pub proof fn law_side(px: int)
    ensures
        px >= 1 ==> side_of(px) == px,
        px < 1 ==> side_of(px) == 1,
{
}

} // verus!
