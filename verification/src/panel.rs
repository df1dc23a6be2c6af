//! What the HUD says: the rows of its panel and the lines of its summary.

use crate::hud::{refresh_of, Hud, StaticInfo};
use crate::number::{law_trunc, trunc, ONE};
use crate::stats::{greatest, law_extremes, law_extremes_occur, least, mean_of, quantile};
use crate::text::{all_parts_short, all_parts_valid, parts, Part, Piece};
use vstd::prelude::*;

verus! {

/// Row colors.
#[derive(Clone, Copy, PartialEq, Eq, Structural, Debug)]
pub enum Ink {
    White,
    Dim,
    Good,
    Bad,
    Hot,
}

/// A strip chart of the panel.
#[derive(Clone, Copy, PartialEq, Eq, Structural, Debug)]
pub enum Chart {
    /// Present-to-present deltas.
    Present,
    /// Spectrum age.
    Age,
}

/// One entry of the panel, top to bottom.
pub enum Item<'a> {
    Line(Ink, Vec<Piece<'a>>),
    Gap,
    Strip(Chart),
}

/// What an [`Item`] holds.
pub enum Entry {
    Line(Ink, Seq<Part>),
    Gap,
    Strip(Chart),
}

impl<'a> View for Item<'a> {
    type V = Entry;

    open spec fn view(&self) -> Entry {
        match self {
            Item::Line(ink, pieces) => Entry::Line(*ink, parts(pieces@)),
            Item::Gap => Entry::Gap,
            Item::Strip(chart) => Entry::Strip(*chart),
        }
    }
}

impl Entry {
    /// Its text can be written.
    pub open spec fn valid(self) -> bool {
        self matches Entry::Line(ink, text) ==> all_parts_valid(text)
    }

    /// Its text is at most ten short parts.
    pub open spec fn short(self) -> bool {
        self matches Entry::Line(ink, text) ==> all_parts_short(text) && text.len() <= 10
    }
}

/// The entries of a list of items.
pub open spec fn entries(items: Seq<Item>) -> Seq<Entry> {
    Seq::new(items.len(), |i: int| items[i]@)
}

// -- numbers ----------------------------------------------------------------
/// A fixed-point number with `d` decimals in a width.
pub open spec fn num(v: int, d: int, w: int) -> Part {
    Part::Num(v, d, w)
}

/// A whole number in a width.
pub open spec fn count(n: int, w: int) -> Part {
    Part::Num(n * ONE, 0, w)
}

/// An extreme in a width: `name` when there is no sample.
pub open spec fn extreme(v: Option<i64>, d: int, w: int, name: Seq<char>) -> Part {
    match v {
        None => Part::Right(name, w),
        Some(x) => num(x as int, d, w),
    }
}

pub fn num_of<'a>(v: i64, d: u32, w: usize) -> (p: Piece<'a>)
    requires
        d <= 3,
    ensures
        p@ == num(v as int, d as int, w as int),
        p@.valid(),
        w <= 1000 ==> p@.short(),
{
    Piece::Num(v as i128, d, w)
}

pub fn wide_of<'a>(v: i128, d: u32, w: usize) -> (p: Piece<'a>)
    requires
        d <= 3,
    ensures
        p@ == num(v as int, d as int, w as int),
        p@.valid(),
        w <= 1000 ==> p@.short(),
{
    Piece::Num(v, d, w)
}

pub fn count_of<'a>(n: u64, w: usize) -> (p: Piece<'a>)
    ensures
        p@ == count(n as int, w as int),
        p@.valid(),
        w <= 1000 ==> p@.short(),
{
    Piece::Num(n as i128 * 1_000_000_000, 0, w)
}

pub fn extreme_of<'a>(v: Option<i64>, d: u32, w: usize, name: &'a str) -> (p: Piece<'a>)
    requires
        d <= 3,
    ensures
        p@ == extreme(v, d as int, w as int, name@),
        p@.valid(),
        w <= 1000 && name@.len() <= 1000 ==> p@.short(),
{
    match v {
        None => Piece::Right(name, w),
        Some(x) => num_of(x, d, w),
    }
}

/// Elapsed time, at least a millisecond.
pub open spec fn elapsed_of(started: int, now: int) -> int {
    if now - started < 1_000_000 {
        1_000_000
    } else {
        now - started
    }
}

/// Events per second, over a time in nanoseconds.
pub open spec fn rate_of(n: int, elapsed: int) -> int {
    n * 1_000_000_000_000_000_000 / elapsed
}

/// Difference of two rates: the beat between the two clocks.
pub open spec fn beat_of(a: int, b: int) -> int {
    if a < b {
        b - a
    } else {
        a - b
    }
}

/// One over a positive fixed-point value, times `scale`.
pub open spec fn inverse(v: int, scale: int) -> int {
    if v <= 0 {
        0
    } else {
        scale * 1_000_000_000_000_000_000 / v
    }
}

/// Share of `part` in `whole`, in percent.
pub open spec fn percent(part: int, whole: int) -> int {
    part * 100_000_000_000 / (if whole < 1 {
        1
    } else {
        whole
    })
}

pub fn elapsed(started: u64, now: u64) -> (e: u64)
    ensures
        e == elapsed_of(started as int, now as int),
        e >= 1_000_000,
{
    if now < started || now - started < 1_000_000 {
        1_000_000
    } else {
        now - started
    }
}

pub fn rate(n: u64, elapsed: u64) -> (r: i128)
    requires
        elapsed >= 1,
    ensures
        r == rate_of(n as int, elapsed as int),
        0 <= r <= n * 1_000_000_000_000_000_000,
{
    let ghost m = n * 1_000_000_000_000_000_000;
    assert(0 <= m / (elapsed as int) <= m) by (nonlinear_arith)
        requires
            0 <= m,
            elapsed >= 1,
    ;
    n as i128 * 1_000_000_000_000_000_000 / elapsed as i128
}

fn beat(a: i128, b: i128) -> (r: i128)
    requires
        0 <= a,
        0 <= b,
    ensures
        r == beat_of(a as int, b as int),
        0 <= r,
{
    if a < b {
        b - a
    } else {
        a - b
    }
}

pub fn invert(v: i128, scale: u64) -> (r: i128)
    requires
        scale <= 1000,
    ensures
        r == inverse(v as int, scale as int),
{
    if v <= 0 {
        return 0;
    }
    scale as i128 * 1_000_000_000_000_000_000 / v
}

pub fn percentage(part: u64, whole: u64) -> (r: i128)
    ensures
        r == percent(part as int, whole as int),
{
    let d: u64 = if whole < 1 {
        1
    } else {
        whole
    };
    part as i128 * 100_000_000_000 / d as i128
}

/// Kilobytes uploaded per frame, in billionths: 24 bytes a vertex, 4 an index.
pub open spec fn upload_kb(verts: int, indices: int) -> int {
    (verts * 24 + indices * 4) * ONE / 1024
}

pub fn upload(verts: u64, more_verts: u64, indices: u64, more_indices: u64) -> (kb: i128)
    ensures
        kb == upload_kb(verts + more_verts, indices + more_indices),
{
    let bytes: i128 = (verts as i128 + more_verts as i128) * 24 + (indices as i128
        + more_indices as i128) * 4;
    bytes * 1_000_000_000 / 1024
}

/// Overlap of consecutive windows of a positive size, in percent.
pub open spec fn overlap_of(hop_mean: int, fft_size: int) -> int {
    100 * ONE - trunc(100 * hop_mean, fft_size)
}

/// Overlap with `d` decimals in a width. Windows without a size have no overlap to
/// speak of: any hop is endlessly longer than they are, and no hop is not a share
/// at all.
pub open spec fn overlap(hop_mean: int, fft_size: int, d: int, w: int) -> Part {
    if fft_size > 0 {
        num(overlap_of(hop_mean, fft_size), d, w)
    } else if hop_mean > 0 {
        Part::Right("-inf"@, w)
    } else if hop_mean < 0 {
        Part::Right("inf"@, w)
    } else {
        Part::Right("NaN"@, w)
    }
}

pub fn overlap_piece<'a>(hop_mean: i64, fft_size: usize, d: u32, w: usize) -> (p: Piece<'a>)
    requires
        d <= 3,
    ensures
        p@ == overlap(hop_mean as int, fft_size as int, d as int, w as int),
        p@.valid(),
        w <= 1000 ==> p@.short(),
{
    proof {
        reveal_strlit("-inf");
        reveal_strlit("inf");
        reveal_strlit("NaN");
    }
    if fft_size == 0 {
        return if hop_mean > 0 {
            Piece::Right("-inf", w)
        } else if hop_mean < 0 {
            Piece::Right("inf", w)
        } else {
            Piece::Right("NaN", w)
        };
    }
    let size: i128 = fft_size as i128;
    let n: i128 = 100 * hop_mean as i128;
    proof {
        let m = if n < 0 {
            -n
        } else {
            n as int
        };
        assert(0 <= m / (size as int) <= m) by (nonlinear_arith)
            requires
                0 <= m,
                size >= 1,
        ;
    }
    let q: i128 = if n >= 0 {
        n / size
    } else {
        -((-n) / size)
    };
    wide_of(100_000_000_000 - q, d, w)
}

// -- rows -------------------------------------------------------------------
/// The title.
pub open spec fn title_row() -> Entry {
    Entry::Line(
        Ink::White,
        seq![
            Part::Text("AUDIO VISUALIZER HUD    F1 HIDE  F2 RESET"@),
        ],
    )
}

fn title<'a>() -> (item: Item<'a>)
    ensures
        item@ == title_row(),
        item@.valid(),
        item@.short(),
{
    let pieces: Vec<Piece> = vec![
        Piece::Text("AUDIO VISUALIZER HUD    F1 HIDE  F2 RESET"),
    ];
    proof {
        reveal_strlit("AUDIO VISUALIZER HUD    F1 HIDE  F2 RESET");
        let want = title_row();
        assert(parts(pieces@) =~= want->Line_1);
        assert(all_parts_valid(parts(pieces@)));
        assert(all_parts_short(parts(pieces@)));
    }
    Item::Line(Ink::White, pieces)
}

/// Which visual and palette are shown.
pub open spec fn visual_row(info: &StaticInfo) -> Entry {
    Entry::Line(
        Ink::Dim,
        seq![
            Part::Text("VISUAL "@),
            Part::Text(info.visualizer@),
            Part::Text("  PALETTE "@),
            Part::Text(info.palette@),
        ],
    )
}

fn visual<'a>(info: &'a StaticInfo) -> (item: Item<'a>)
    requires
        info.short(),
    ensures
        item@ == visual_row(info),
        item@.valid(),
        item@.short(),
{
    let pieces: Vec<Piece> = vec![
        Piece::Text("VISUAL "),
        Piece::Text(info.visualizer),
        Piece::Text("  PALETTE "),
        Piece::Text(info.palette),
    ];
    proof {
        reveal_strlit("VISUAL ");
        reveal_strlit("  PALETTE ");
        let want = visual_row(info);
        assert(parts(pieces@) =~= want->Line_1);
        assert(all_parts_valid(parts(pieces@)));
        assert(all_parts_short(parts(pieces@)));
    }
    Item::Line(Ink::Dim, pieces)
}

/// Heading.
pub open spec fn timing_head_row() -> Entry {
    Entry::Line(
        Ink::Hot,
        seq![
            Part::Text("-- FRAME TIMING ---------------------------"@),
        ],
    )
}

fn timing_head<'a>() -> (item: Item<'a>)
    ensures
        item@ == timing_head_row(),
        item@.valid(),
        item@.short(),
{
    let pieces: Vec<Piece> = vec![
        Piece::Text("-- FRAME TIMING ---------------------------"),
    ];
    proof {
        reveal_strlit("-- FRAME TIMING ---------------------------");
        let want = timing_head_row();
        assert(parts(pieces@) =~= want->Line_1);
        assert(all_parts_valid(parts(pieces@)));
        assert(all_parts_short(parts(pieces@)));
    }
    Item::Line(Ink::Hot, pieces)
}

/// CPU time against the frame budget.
pub open spec fn cpu_row(hud: &Hud) -> Entry {
    Entry::Line(
        if quantile(hud.cpu_total@, 99, 100) > refresh_of(hud.present_dt@) {
            Ink::Bad
        } else {
            Ink::Good
        },
        seq![
            Part::Text("CPU     "@),
            num(mean_of(hud.cpu_total@), 2, 6),
            Part::Text(" MS   P99 "@),
            num(quantile(hud.cpu_total@, 99, 100), 2, 6),
            Part::Text("  BUDGET "@),
            num(refresh_of(hud.present_dt@), 2, 5),
        ],
    )
}

fn cpu<'a>(hud: &Hud) -> (item: Item<'a>)
    requires
        hud.wf(),
    ensures
        item@ == cpu_row(hud),
        item@.valid(),
        item@.short(),
{
    let pieces: Vec<Piece> = vec![
        Piece::Text("CPU     "),
        num_of(hud.cpu_total.mean(), 2, 6),
        Piece::Text(" MS   P99 "),
        num_of(hud.cpu_total.percentile(99, 100), 2, 6),
        Piece::Text("  BUDGET "),
        num_of(hud.refresh_ms(), 2, 5),
    ];
    proof {
        reveal_strlit("CPU     ");
        reveal_strlit(" MS   P99 ");
        reveal_strlit("  BUDGET ");
        let want = cpu_row(hud);
        assert(parts(pieces@) =~= want->Line_1);
        assert(all_parts_valid(parts(pieces@)));
        assert(all_parts_short(parts(pieces@)));
    }
    Item::Line(if hud.cpu_total.percentile(99, 100) > hud.refresh_ms() { Ink::Bad } else { Ink::Good }, pieces)
}

/// GPU time when it is not available.
pub open spec fn gpu_none_row() -> Entry {
    Entry::Line(
        Ink::Dim,
        seq![
            Part::Text("GPU        N/A     (NO TIMESTAMP QUERY)"@),
        ],
    )
}

fn gpu_none<'a>() -> (item: Item<'a>)
    ensures
        item@ == gpu_none_row(),
        item@.valid(),
        item@.short(),
{
    let pieces: Vec<Piece> = vec![
        Piece::Text("GPU        N/A     (NO TIMESTAMP QUERY)"),
    ];
    proof {
        reveal_strlit("GPU        N/A     (NO TIMESTAMP QUERY)");
        let want = gpu_none_row();
        assert(parts(pieces@) =~= want->Line_1);
        assert(all_parts_valid(parts(pieces@)));
        assert(all_parts_short(parts(pieces@)));
    }
    Item::Line(Ink::Dim, pieces)
}

/// GPU time.
pub open spec fn gpu_row(hud: &Hud) -> Entry {
    Entry::Line(
        Ink::Good,
        seq![
            Part::Text("GPU     "@),
            num(mean_of(hud.gpu@), 2, 6),
            Part::Text(" MS   MAX "@),
            extreme(greatest(hud.gpu@, hud.gpu@.len() as int), 2, 6, "-inf"@),
        ],
    )
}

fn gpu<'a>(hud: &Hud) -> (item: Item<'a>)
    requires
        hud.wf(),
    ensures
        item@ == gpu_row(hud),
        item@.valid(),
        item@.short(),
{
    let pieces: Vec<Piece> = vec![
        Piece::Text("GPU     "),
        num_of(hud.gpu.mean(), 2, 6),
        Piece::Text(" MS   MAX "),
        extreme_of(hud.gpu.max(), 2, 6, "-inf"),
    ];
    proof {
        reveal_strlit("GPU     ");
        reveal_strlit(" MS   MAX ");
        reveal_strlit("-inf");
        let want = gpu_row(hud);
        assert(parts(pieces@) =~= want->Line_1);
        assert(all_parts_valid(parts(pieces@)));
        assert(all_parts_short(parts(pieces@)));
    }
    Item::Line(Ink::Good, pieces)
}

/// Share of the vertex copy.
pub open spec fn copy_row(hud: &Hud) -> Entry {
    Entry::Line(
        Ink::Dim,
        seq![
            Part::Text("  OF WHICH VERTEX COPY "@),
            num(mean_of(hud.cpu_copy@), 3, 6),
            Part::Text(" MS"@),
        ],
    )
}

fn copy<'a>(hud: &Hud) -> (item: Item<'a>)
    requires
        hud.wf(),
    ensures
        item@ == copy_row(hud),
        item@.valid(),
        item@.short(),
{
    let pieces: Vec<Piece> = vec![
        Piece::Text("  OF WHICH VERTEX COPY "),
        num_of(hud.cpu_copy.mean(), 3, 6),
        Piece::Text(" MS"),
    ];
    proof {
        reveal_strlit("  OF WHICH VERTEX COPY ");
        reveal_strlit(" MS");
        let want = copy_row(hud);
        assert(parts(pieces@) =~= want->Line_1);
        assert(all_parts_valid(parts(pieces@)));
        assert(all_parts_short(parts(pieces@)));
    }
    Item::Line(Ink::Dim, pieces)
}

/// Upload and encode.
pub open spec fn submit_row(hud: &Hud) -> Entry {
    Entry::Line(
        if mean_of(hud.submit@) > 3_000_000_000 {
            Ink::Bad
        } else {
            Ink::Dim
        },
        seq![
            Part::Text("SUBMIT  "@),
            num(mean_of(hud.submit@), 2, 6),
            Part::Text(" MS   UPLOAD+ENCODE"@),
        ],
    )
}

fn submit<'a>(hud: &Hud) -> (item: Item<'a>)
    requires
        hud.wf(),
    ensures
        item@ == submit_row(hud),
        item@.valid(),
        item@.short(),
{
    let pieces: Vec<Piece> = vec![
        Piece::Text("SUBMIT  "),
        num_of(hud.submit.mean(), 2, 6),
        Piece::Text(" MS   UPLOAD+ENCODE"),
    ];
    proof {
        reveal_strlit("SUBMIT  ");
        reveal_strlit(" MS   UPLOAD+ENCODE");
        let want = submit_row(hud);
        assert(parts(pieces@) =~= want->Line_1);
        assert(all_parts_valid(parts(pieces@)));
        assert(all_parts_short(parts(pieces@)));
    }
    Item::Line(if hud.submit.mean() > 3_000_000_000 { Ink::Bad } else { Ink::Dim }, pieces)
}

/// Time spent waiting.
pub open spec fn vsync_row(hud: &Hud) -> Entry {
    Entry::Line(
        Ink::Dim,
        seq![
            Part::Text("VSYNC BLOCK "@),
            num(mean_of(hud.wait@), 2, 6),
            Part::Text(" MS  LOCK "@),
            num(mean_of(hud.lock_wait@), 3, 6),
            Part::Text(" MS"@),
        ],
    )
}

fn vsync<'a>(hud: &Hud) -> (item: Item<'a>)
    requires
        hud.wf(),
    ensures
        item@ == vsync_row(hud),
        item@.valid(),
        item@.short(),
{
    let pieces: Vec<Piece> = vec![
        Piece::Text("VSYNC BLOCK "),
        num_of(hud.wait.mean(), 2, 6),
        Piece::Text(" MS  LOCK "),
        num_of(hud.lock_wait.mean(), 3, 6),
        Piece::Text(" MS"),
    ];
    proof {
        reveal_strlit("VSYNC BLOCK ");
        reveal_strlit(" MS  LOCK ");
        reveal_strlit(" MS");
        let want = vsync_row(hud);
        assert(parts(pieces@) =~= want->Line_1);
        assert(all_parts_valid(parts(pieces@)));
        assert(all_parts_short(parts(pieces@)));
    }
    Item::Line(Ink::Dim, pieces)
}

/// Heading.
pub open spec fn present_head_row() -> Entry {
    Entry::Line(
        Ink::Hot,
        seq![
            Part::Text("-- PRESENTATION ---------------------------"@),
        ],
    )
}

fn present_head<'a>() -> (item: Item<'a>)
    ensures
        item@ == present_head_row(),
        item@.valid(),
        item@.short(),
{
    let pieces: Vec<Piece> = vec![
        Piece::Text("-- PRESENTATION ---------------------------"),
    ];
    proof {
        reveal_strlit("-- PRESENTATION ---------------------------");
        let want = present_head_row();
        assert(parts(pieces@) =~= want->Line_1);
        assert(all_parts_valid(parts(pieces@)));
        assert(all_parts_short(parts(pieces@)));
    }
    Item::Line(Ink::Hot, pieces)
}

/// Present deltas.
pub open spec fn present_row(hud: &Hud) -> Entry {
    Entry::Line(
        Ink::White,
        seq![
            Part::Text("PRESENT "@),
            num(mean_of(hud.present_dt@), 2, 6),
            Part::Text(" MS   1% LOW "@),
            num(quantile(hud.present_dt@, 99, 100), 2, 6),
            Part::Text(" MS"@),
        ],
    )
}

fn present<'a>(hud: &Hud) -> (item: Item<'a>)
    requires
        hud.wf(),
    ensures
        item@ == present_row(hud),
        item@.valid(),
        item@.short(),
{
    let pieces: Vec<Piece> = vec![
        Piece::Text("PRESENT "),
        num_of(hud.present_dt.mean(), 2, 6),
        Piece::Text(" MS   1% LOW "),
        num_of(hud.present_dt.percentile(99, 100), 2, 6),
        Piece::Text(" MS"),
    ];
    proof {
        reveal_strlit("PRESENT ");
        reveal_strlit(" MS   1% LOW ");
        reveal_strlit(" MS");
        let want = present_row(hud);
        assert(parts(pieces@) =~= want->Line_1);
        assert(all_parts_valid(parts(pieces@)));
        assert(all_parts_short(parts(pieces@)));
    }
    Item::Line(Ink::White, pieces)
}

/// Frame rates.
pub open spec fn fps_row(hud: &Hud) -> Entry {
    Entry::Line(
        Ink::White,
        seq![
            Part::Text("FPS     "@),
            num(inverse(mean_of(hud.present_dt@), 1000), 1, 6),
            Part::Text("      1% LOW "@),
            num(inverse(quantile(hud.present_dt@, 99, 100), 1000), 1, 6),
        ],
    )
}

fn fps<'a>(hud: &Hud) -> (item: Item<'a>)
    requires
        hud.wf(),
    ensures
        item@ == fps_row(hud),
        item@.valid(),
        item@.short(),
{
    let pieces: Vec<Piece> = vec![
        Piece::Text("FPS     "),
        wide_of(invert(hud.present_dt.mean() as i128, 1000), 1, 6),
        Piece::Text("      1% LOW "),
        wide_of(invert(hud.present_dt.percentile(99, 100) as i128, 1000), 1, 6),
    ];
    proof {
        reveal_strlit("FPS     ");
        reveal_strlit("      1% LOW ");
        let want = fps_row(hud);
        assert(parts(pieces@) =~= want->Line_1);
        assert(all_parts_valid(parts(pieces@)));
        assert(all_parts_short(parts(pieces@)));
    }
    Item::Line(Ink::White, pieces)
}

/// Refresh period and dropped frames, out of the gaps in the window.
pub open spec fn refresh_row(hud: &Hud) -> Entry {
    Entry::Line(
        if hud.dropped_frames > 0 {
            Ink::Bad
        } else {
            Ink::Good
        },
        seq![
            Part::Text("REFRESH "@),
            num(refresh_of(hud.present_dt@), 2, 6),
            Part::Text(" MS   DROPPED "@),
            count(hud.dropped_frames as int, 4),
            Part::Text("/"@),
            Part::Left(hud.present_dt.len as int, 4),
        ],
    )
}

fn refresh<'a>(hud: &Hud) -> (item: Item<'a>)
    requires
        hud.wf(),
    ensures
        item@ == refresh_row(hud),
        item@.valid(),
        item@.short(),
{
    let pieces: Vec<Piece> = vec![
        Piece::Text("REFRESH "),
        num_of(hud.refresh_ms(), 2, 6),
        Piece::Text(" MS   DROPPED "),
        count_of(hud.dropped_frames, 4),
        Piece::Text("/"),
        Piece::Left(hud.present_dt.len as u64, 4),
    ];
    proof {
        reveal_strlit("REFRESH ");
        reveal_strlit(" MS   DROPPED ");
        reveal_strlit("/");
        let want = refresh_row(hud);
        assert(parts(pieces@) =~= want->Line_1);
        assert(all_parts_valid(parts(pieces@)));
        assert(all_parts_short(parts(pieces@)));
    }
    Item::Line(if hud.dropped_frames > 0 { Ink::Bad } else { Ink::Good }, pieces)
}

/// Presentation modes.
pub open spec fn mode_row(info: &StaticInfo) -> Entry {
    Entry::Line(
        Ink::Dim,
        seq![
            Part::Text("MODE "@),
            Part::Text(info.present_mode@),
            Part::Text(" AVAIL "@),
            Part::Text(info.available_modes@),
        ],
    )
}

fn mode<'a>(info: &'a StaticInfo) -> (item: Item<'a>)
    requires
        info.short(),
    ensures
        item@ == mode_row(info),
        item@.valid(),
        item@.short(),
{
    let pieces: Vec<Piece> = vec![
        Piece::Text("MODE "),
        Piece::Text(info.present_mode),
        Piece::Text(" AVAIL "),
        Piece::Text(info.available_modes.as_str()),
    ];
    proof {
        reveal_strlit("MODE ");
        reveal_strlit(" AVAIL ");
        let want = mode_row(info);
        assert(parts(pieces@) =~= want->Line_1);
        assert(all_parts_valid(parts(pieces@)));
        assert(all_parts_short(parts(pieces@)));
    }
    Item::Line(Ink::Dim, pieces)
}

/// Heading.
pub open spec fn handoff_head_row() -> Entry {
    Entry::Line(
        Ink::Hot,
        seq![
            Part::Text("-- AUDIO -> RENDER HANDOFF ----------------"@),
        ],
    )
}

fn handoff_head<'a>() -> (item: Item<'a>)
    ensures
        item@ == handoff_head_row(),
        item@.valid(),
        item@.short(),
{
    let pieces: Vec<Piece> = vec![
        Piece::Text("-- AUDIO -> RENDER HANDOFF ----------------"),
    ];
    proof {
        reveal_strlit("-- AUDIO -> RENDER HANDOFF ----------------");
        let want = handoff_head_row();
        assert(parts(pieces@) =~= want->Line_1);
        assert(all_parts_valid(parts(pieces@)));
        assert(all_parts_short(parts(pieces@)));
    }
    Item::Line(Ink::Hot, pieces)
}

/// Distinct spectra per second.
pub open spec fn hop_rate_of(hud: &Hud, now: int) -> int {
    rate_of(hud.new_spectra as int, elapsed_of(hud.started as int, now))
}

/// Frames per second.
pub open spec fn frame_rate_of(hud: &Hud, now: int) -> int {
    rate_of(hud.frames as int, elapsed_of(hud.started as int, now))
}

/// The beat between the two clocks. It is what turns two healthy-looking rates
/// into a visible hitch once per period.
pub open spec fn clock_beat(hud: &Hud, now: int) -> int {
    beat_of(hop_rate_of(hud, now), frame_rate_of(hud, now))
}

pub fn hop_rate(hud: &Hud, now: u64) -> (r: i128)
    ensures
        r == hop_rate_of(hud, now as int),
        0 <= r,
{
    rate(hud.new_spectra, elapsed(hud.started, now))
}

pub fn frame_rate(hud: &Hud, now: u64) -> (r: i128)
    ensures
        r == frame_rate_of(hud, now as int),
        0 <= r,
{
    rate(hud.frames, elapsed(hud.started, now))
}

pub fn clock_beat_now(hud: &Hud, now: u64) -> (r: i128)
    ensures
        r == clock_beat(hud, now as int),
        0 <= r,
{
    beat(hop_rate(hud, now), frame_rate(hud, now))
}

/// Beat period shown on the panel: pinned when there is practically no beat.
pub open spec fn panel_period(beat: int) -> int {
    if beat > 1_000_000 {
        inverse(beat, 1)
    } else {
        999_990_000_000
    }
}

fn panel_period_of(beat: i128) -> (r: i128)
    ensures
        r == panel_period(beat as int),
{
    if beat > 1_000_000 {
        invert(beat, 1)
    } else {
        999_990_000_000
    }
}

/// Spread of the hops seen.
pub open spec fn hop_spread(hops: Seq<i64>) -> int {
    match (least(hops, hops.len() as int), greatest(hops, hops.len() as int)) {
        (Some(a), Some(b)) => b - a,
        _ => 0,
    }
}

fn hop_spread_of(hud: &Hud) -> (r: i128)
    requires
        hud.wf(),
    ensures
        r == hop_spread(hud.hop@),
{
    let lo: Option<i64> = hud.hop.min();
    let hi: Option<i64> = hud.hop.max();
    match lo {
        Some(a) => match hi {
            Some(b) => b as i128 - a as i128,
            None => 0,
        },
        None => 0,
    }
}

/// Rates of the two clocks.
pub open spec fn rates_row(hud: &Hud, now: int) -> Entry {
    Entry::Line(
        Ink::White,
        seq![
            Part::Text("HOP RATE "@),
            num(hop_rate_of(hud, now), 2, 6),
            Part::Text(" HZ  RENDER "@),
            num(frame_rate_of(hud, now), 2, 6),
            Part::Text(" HZ"@),
        ],
    )
}

fn rates<'a>(hud: &Hud, now: u64) -> (item: Item<'a>)
    requires
        hud.wf(),
    ensures
        item@ == rates_row(hud, now as int),
        item@.valid(),
        item@.short(),
{
    let pieces: Vec<Piece> = vec![
        Piece::Text("HOP RATE "),
        wide_of(hop_rate(hud, now), 2, 6),
        Piece::Text(" HZ  RENDER "),
        wide_of(frame_rate(hud, now), 2, 6),
        Piece::Text(" HZ"),
    ];
    proof {
        reveal_strlit("HOP RATE ");
        reveal_strlit(" HZ  RENDER ");
        reveal_strlit(" HZ");
        let want = rates_row(hud, now as int);
        assert(parts(pieces@) =~= want->Line_1);
        assert(all_parts_valid(parts(pieces@)));
        assert(all_parts_short(parts(pieces@)));
    }
    Item::Line(Ink::White, pieces)
}

/// Beat between the two clocks.
pub open spec fn beat_line_row(hud: &Hud, now: int) -> Entry {
    Entry::Line(
        if clock_beat(hud, now) > 50_000_000 {
            Ink::Bad
        } else {
            Ink::Good
        },
        seq![
            Part::Text("BEAT "@),
            num(clock_beat(hud, now), 2, 6),
            Part::Text(" HZ  PERIOD "@),
            num(panel_period(clock_beat(hud, now)), 2, 7),
            Part::Text(" S"@),
        ],
    )
}

fn beat_line<'a>(hud: &Hud, now: u64) -> (item: Item<'a>)
    requires
        hud.wf(),
    ensures
        item@ == beat_line_row(hud, now as int),
        item@.valid(),
        item@.short(),
{
    let pieces: Vec<Piece> = vec![
        Piece::Text("BEAT "),
        wide_of(clock_beat_now(hud, now), 2, 6),
        Piece::Text(" HZ  PERIOD "),
        wide_of(panel_period_of(clock_beat_now(hud, now)), 2, 7),
        Piece::Text(" S"),
    ];
    proof {
        reveal_strlit("BEAT ");
        reveal_strlit(" HZ  PERIOD ");
        reveal_strlit(" S");
        let want = beat_line_row(hud, now as int);
        assert(parts(pieces@) =~= want->Line_1);
        assert(all_parts_valid(parts(pieces@)));
        assert(all_parts_short(parts(pieces@)));
    }
    Item::Line(if clock_beat_now(hud, now) > 50_000_000 { Ink::Bad } else { Ink::Good }, pieces)
}

/// Duplicate spectra.
pub open spec fn dup_row(hud: &Hud) -> Entry {
    Entry::Line(
        if hud.dup_spectra > 0 {
            Ink::Bad
        } else {
            Ink::Good
        },
        seq![
            Part::Text("DUP SPECTRA "@),
            count(hud.dup_spectra as int, 7),
            Part::Text(" ("@),
            num(percent(hud.dup_spectra as int, hud.frames as int), 2, 5),
            Part::Text("% OF FRAMES)"@),
        ],
    )
}

fn dup<'a>(hud: &Hud) -> (item: Item<'a>)
    requires
        hud.wf(),
    ensures
        item@ == dup_row(hud),
        item@.valid(),
        item@.short(),
{
    let pieces: Vec<Piece> = vec![
        Piece::Text("DUP SPECTRA "),
        count_of(hud.dup_spectra, 7),
        Piece::Text(" ("),
        wide_of(percentage(hud.dup_spectra, hud.frames), 2, 5),
        Piece::Text("% OF FRAMES)"),
    ];
    proof {
        reveal_strlit("DUP SPECTRA ");
        reveal_strlit(" (");
        reveal_strlit("% OF FRAMES)");
        let want = dup_row(hud);
        assert(parts(pieces@) =~= want->Line_1);
        assert(all_parts_valid(parts(pieces@)));
        assert(all_parts_short(parts(pieces@)));
    }
    Item::Line(if hud.dup_spectra > 0 { Ink::Bad } else { Ink::Good }, pieces)
}

/// Spectrum age.
pub open spec fn age_row(hud: &Hud) -> Entry {
    Entry::Line(
        Ink::White,
        seq![
            Part::Text("AGE MIN "@),
            extreme(least(hud.age@, hud.age@.len() as int), 1, 5, "inf"@),
            Part::Text(" AVG "@),
            num(mean_of(hud.age@), 1, 5),
            Part::Text(" MAX "@),
            extreme(greatest(hud.age@, hud.age@.len() as int), 1, 5, "-inf"@),
            Part::Text(" MS"@),
        ],
    )
}

fn age<'a>(hud: &Hud) -> (item: Item<'a>)
    requires
        hud.wf(),
    ensures
        item@ == age_row(hud),
        item@.valid(),
        item@.short(),
{
    let pieces: Vec<Piece> = vec![
        Piece::Text("AGE MIN "),
        extreme_of(hud.age.min(), 1, 5, "inf"),
        Piece::Text(" AVG "),
        num_of(hud.age.mean(), 1, 5),
        Piece::Text(" MAX "),
        extreme_of(hud.age.max(), 1, 5, "-inf"),
        Piece::Text(" MS"),
    ];
    proof {
        reveal_strlit("AGE MIN ");
        reveal_strlit("inf");
        reveal_strlit(" AVG ");
        reveal_strlit(" MAX ");
        reveal_strlit("-inf");
        reveal_strlit(" MS");
        let want = age_row(hud);
        assert(parts(pieces@) =~= want->Line_1);
        assert(all_parts_valid(parts(pieces@)));
        assert(all_parts_short(parts(pieces@)));
    }
    Item::Line(Ink::White, pieces)
}

/// Hops and window overlap.
pub open spec fn hop_row(hud: &Hud, info: &StaticInfo) -> Entry {
    Entry::Line(
        if hop_spread(hud.hop@) > 64_000_000_000 {
            Ink::Bad
        } else {
            Ink::Good
        },
        seq![
            Part::Text("HOP "@),
            num(mean_of(hud.hop@), 0, 5),
            Part::Text(" SMP ("@),
            extreme(least(hud.hop@, hud.hop@.len() as int), 0, 4, "inf"@),
            Part::Text(".."@),
            extreme(greatest(hud.hop@, hud.hop@.len() as int), 0, 4, "-inf"@),
            Part::Text(") OVERLAP "@),
            overlap(mean_of(hud.hop@), info.fft_size as int, 1, 4),
            Part::Text("%"@),
        ],
    )
}

fn hop<'a>(hud: &Hud, info: &'a StaticInfo) -> (item: Item<'a>)
    requires
        hud.wf(),
    ensures
        item@ == hop_row(hud, info),
        item@.valid(),
        item@.short(),
{
    let pieces: Vec<Piece> = vec![
        Piece::Text("HOP "),
        num_of(hud.hop.mean(), 0, 5),
        Piece::Text(" SMP ("),
        extreme_of(hud.hop.min(), 0, 4, "inf"),
        Piece::Text(".."),
        extreme_of(hud.hop.max(), 0, 4, "-inf"),
        Piece::Text(") OVERLAP "),
        overlap_piece(hud.hop.mean(), info.fft_size, 1, 4),
        Piece::Text("%"),
    ];
    proof {
        reveal_strlit("HOP ");
        reveal_strlit(" SMP (");
        reveal_strlit("inf");
        reveal_strlit("..");
        reveal_strlit("-inf");
        reveal_strlit(") OVERLAP ");
        reveal_strlit("%");
        let want = hop_row(hud, info);
        assert(parts(pieces@) =~= want->Line_1);
        assert(all_parts_valid(parts(pieces@)));
        assert(all_parts_short(parts(pieces@)));
    }
    Item::Line(if hop_spread_of(hud) > 64_000_000_000 { Ink::Bad } else { Ink::Good }, pieces)
}

/// Heading.
pub open spec fn geometry_head_row() -> Entry {
    Entry::Line(
        Ink::Hot,
        seq![
            Part::Text("-- GEOMETRY & SETTINGS --------------------"@),
        ],
    )
}

fn geometry_head<'a>() -> (item: Item<'a>)
    ensures
        item@ == geometry_head_row(),
        item@.valid(),
        item@.short(),
{
    let pieces: Vec<Piece> = vec![
        Piece::Text("-- GEOMETRY & SETTINGS --------------------"),
    ];
    proof {
        reveal_strlit("-- GEOMETRY & SETTINGS --------------------");
        let want = geometry_head_row();
        assert(parts(pieces@) =~= want->Line_1);
        assert(all_parts_valid(parts(pieces@)));
        assert(all_parts_short(parts(pieces@)));
    }
    Item::Line(Ink::Hot, pieces)
}

/// Scene geometry.
pub open spec fn scene_row(hud: &Hud) -> Entry {
    Entry::Line(
        Ink::White,
        seq![
            Part::Text("SCENE VERTS "@),
            count(hud.scene_verts as int, 7),
            Part::Text("  TRIS "@),
            count(hud.scene_indices as int / 3, 7),
        ],
    )
}

fn scene<'a>(hud: &Hud) -> (item: Item<'a>)
    requires
        hud.wf(),
    ensures
        item@ == scene_row(hud),
        item@.valid(),
        item@.short(),
{
    let pieces: Vec<Piece> = vec![
        Piece::Text("SCENE VERTS "),
        count_of(hud.scene_verts as u64, 7),
        Piece::Text("  TRIS "),
        count_of(hud.scene_indices as u64 / 3, 7),
    ];
    proof {
        reveal_strlit("SCENE VERTS ");
        reveal_strlit("  TRIS ");
        let want = scene_row(hud);
        assert(parts(pieces@) =~= want->Line_1);
        assert(all_parts_valid(parts(pieces@)));
        assert(all_parts_short(parts(pieces@)));
    }
    Item::Line(Ink::White, pieces)
}

/// The overlay's own geometry and the upload it adds to.
pub open spec fn upload_line_row(hud: &Hud) -> Entry {
    Entry::Line(
        Ink::Dim,
        seq![
            Part::Text("HUD  VERTS  "@),
            count(hud.hud_verts as int, 7),
            Part::Text("  UPLOAD "@),
            num(upload_kb(hud.scene_verts + hud.hud_verts, hud.scene_indices + hud.hud_indices), 0, 5),
            Part::Text(" KB/F"@),
        ],
    )
}

fn upload_line<'a>(hud: &Hud) -> (item: Item<'a>)
    requires
        hud.wf(),
    ensures
        item@ == upload_line_row(hud),
        item@.valid(),
        item@.short(),
{
    let pieces: Vec<Piece> = vec![
        Piece::Text("HUD  VERTS  "),
        count_of(hud.hud_verts as u64, 7),
        Piece::Text("  UPLOAD "),
        wide_of(upload(hud.scene_verts as u64, hud.hud_verts as u64, hud.scene_indices as u64, hud.hud_indices as u64), 0, 5),
        Piece::Text(" KB/F"),
    ];
    proof {
        reveal_strlit("HUD  VERTS  ");
        reveal_strlit("  UPLOAD ");
        reveal_strlit(" KB/F");
        let want = upload_line_row(hud);
        assert(parts(pieces@) =~= want->Line_1);
        assert(all_parts_valid(parts(pieces@)));
        assert(all_parts_short(parts(pieces@)));
    }
    Item::Line(Ink::Dim, pieces)
}

/// Whether feathering is on.
pub open spec fn on_off(on: bool) -> Seq<char> {
    if on {
        "ON"@
    } else {
        "OFF"@
    }
}

fn on_off_text(on: bool) -> (t: &'static str)
    ensures
        t@ == on_off(on),
{
    if on {
        "ON"
    } else {
        "OFF"
    }
}

/// Rendering settings.
pub open spec fn settings_row(info: &StaticInfo) -> Entry {
    Entry::Line(
        Ink::Dim,
        seq![
            Part::Text("MSAA "@),
            count(info.sample_count as int, 0),
            Part::Text("X  SUBDIV "@),
            count(info.subdivisions as int, 0),
            Part::Text("  FEATHER "@),
            Part::Text(on_off(info.feathered)),
        ],
    )
}

fn settings<'a>(info: &'a StaticInfo) -> (item: Item<'a>)
    ensures
        item@ == settings_row(info),
        item@.valid(),
        item@.short(),
{
    let pieces: Vec<Piece> = vec![
        Piece::Text("MSAA "),
        count_of(info.sample_count as u64, 0),
        Piece::Text("X  SUBDIV "),
        count_of(info.subdivisions as u64, 0),
        Piece::Text("  FEATHER "),
        Piece::Text(on_off_text(info.feathered)),
    ];
    proof {
        reveal_strlit("MSAA ");
        reveal_strlit("X  SUBDIV ");
        reveal_strlit("  FEATHER ");
        reveal_strlit("ON");
        reveal_strlit("OFF");
        let want = settings_row(info);
        assert(parts(pieces@) =~= want->Line_1);
        assert(all_parts_valid(parts(pieces@)));
        assert(all_parts_short(parts(pieces@)));
    }
    Item::Line(Ink::Dim, pieces)
}

/// Analysis settings.
pub open spec fn fft_row(info: &StaticInfo) -> Entry {
    Entry::Line(
        Ink::Dim,
        seq![
            Part::Text("FFT "@),
            count(info.fft_size as int, 0),
            Part::Text("  BANDS "@),
            count(info.num_bands as int, 0),
        ],
    )
}

fn fft<'a>(info: &'a StaticInfo) -> (item: Item<'a>)
    ensures
        item@ == fft_row(info),
        item@.valid(),
        item@.short(),
{
    let pieces: Vec<Piece> = vec![
        Piece::Text("FFT "),
        count_of(info.fft_size as u64, 0),
        Piece::Text("  BANDS "),
        count_of(info.num_bands as u64, 0),
    ];
    proof {
        reveal_strlit("FFT ");
        reveal_strlit("  BANDS ");
        let want = fft_row(info);
        assert(parts(pieces@) =~= want->Line_1);
        assert(all_parts_valid(parts(pieces@)));
        assert(all_parts_short(parts(pieces@)));
    }
    Item::Line(Ink::Dim, pieces)
}

/// The GPU row: measured, when the adapter can and something was.
pub open spec fn gpu_entry(hud: &Hud, info: &StaticInfo) -> Entry {
    if info.gpu_timing && hud.gpu@.len() > 0 {
        gpu_row(hud)
    } else {
        gpu_none_row()
    }
}

/// Every item can be laid out.
pub open spec fn ready(items: Seq<Item>) -> bool {
    forall|i: int|
        0 <= i < items.len() ==> (#[trigger] items[i])@.valid() && items[i]@.short()
}

/// The title and the frame timing.
pub open spec fn timing_entries(hud: &Hud, info: &StaticInfo) -> Seq<Entry> {
    seq![
        title_row(),
        visual_row(info),
        Entry::Gap,
        timing_head_row(),
        cpu_row(hud),
        gpu_entry(hud, info),
        copy_row(hud),
        submit_row(hud),
        vsync_row(hud),
        Entry::Gap,
    ]
}

fn timing_items<'a>(hud: &Hud, info: &'a StaticInfo) -> (items: Vec<Item<'a>>)
    requires
        hud.wf(),
        info.short(),
    ensures
        entries(items@) == timing_entries(hud, info),
        ready(items@),
{
    let gpu_item: Item<'a> = if info.gpu_timing && !hud.gpu.is_empty() {
        gpu(hud)
    } else {
        gpu_none()
    };
    let items: Vec<Item<'a>> = vec![
        title(),
        visual(info),
        Item::Gap,
        timing_head(),
        cpu(hud),
        gpu_item,
        copy(hud),
        submit(hud),
        vsync(hud),
        Item::Gap,
    ];
    assert(entries(items@) =~= timing_entries(hud, info));
    items
}

/// Presentation.
pub open spec fn presentation_entries(hud: &Hud, info: &StaticInfo) -> Seq<Entry> {
    seq![
        present_head_row(),
        present_row(hud),
        fps_row(hud),
        refresh_row(hud),
        mode_row(info),
        Entry::Strip(Chart::Present),
    ]
}

fn presentation_items<'a>(hud: &Hud, info: &'a StaticInfo) -> (items: Vec<Item<'a>>)
    requires
        hud.wf(),
        info.short(),
    ensures
        entries(items@) == presentation_entries(hud, info),
        ready(items@),
{
    let items: Vec<Item<'a>> = vec![
        present_head(),
        present(hud),
        fps(hud),
        refresh(hud),
        mode(info),
        Item::Strip(Chart::Present),
    ];
    assert(entries(items@) =~= presentation_entries(hud, info));
    items
}

/// The handoff from audio to rendering: the headline.
pub open spec fn handoff_entries(hud: &Hud, info: &StaticInfo, now: int) -> Seq<Entry> {
    seq![
        handoff_head_row(),
        rates_row(hud, now),
        beat_line_row(hud, now),
        dup_row(hud),
        age_row(hud),
        hop_row(hud, info),
        Entry::Strip(Chart::Age),
    ]
}

fn handoff_items<'a>(hud: &Hud, info: &'a StaticInfo, now: u64) -> (items: Vec<Item<'a>>)
    requires
        hud.wf(),
        info.short(),
    ensures
        entries(items@) == handoff_entries(hud, info, now as int),
        ready(items@),
{
    let items: Vec<Item<'a>> = vec![
        handoff_head(),
        rates(hud, now),
        beat_line(hud, now),
        dup(hud),
        age(hud),
        hop(hud, info),
        Item::Strip(Chart::Age),
    ];
    assert(entries(items@) =~= handoff_entries(hud, info, now as int));
    items
}

/// Geometry and settings.
pub open spec fn geometry_entries(hud: &Hud, info: &StaticInfo) -> Seq<Entry> {
    seq![
        geometry_head_row(),
        scene_row(hud),
        upload_line_row(hud),
        settings_row(info),
        fft_row(info),
    ]
}

fn geometry_items<'a>(hud: &Hud, info: &'a StaticInfo) -> (items: Vec<Item<'a>>)
    requires
        hud.wf(),
        info.short(),
    ensures
        entries(items@) == geometry_entries(hud, info),
        ready(items@),
{
    let items: Vec<Item<'a>> = vec![
        geometry_head(),
        scene(hud),
        upload_line(hud),
        settings(info),
        fft(info),
    ];
    assert(entries(items@) =~= geometry_entries(hud, info));
    items
}

/// The whole panel, top to bottom.
pub open spec fn panel_entries(hud: &Hud, info: &StaticInfo, now: int) -> Seq<Entry> {
    timing_entries(hud, info) + presentation_entries(hud, info) + handoff_entries(
        hud,
        info,
        now,
    ) + geometry_entries(hud, info)
}

/// Compose the panel.
pub fn panel_items<'a>(hud: &Hud, info: &'a StaticInfo, now: u64) -> (items: Vec<Item<'a>>)
    requires
        hud.wf(),
        info.short(),
    ensures
        entries(items@) == panel_entries(hud, info, now as int),
        items@.len() == 28,
        ready(items@),
{
    let mut items: Vec<Item<'a>> = timing_items(hud, info);
    let mut more: Vec<Item<'a>> = presentation_items(hud, info);
    let ghost a = items@;
    let ghost b = more@;
    items.append(&mut more);
    more = handoff_items(hud, info, now);
    let ghost c = more@;
    items.append(&mut more);
    more = geometry_items(hud, info);
    let ghost d = more@;
    items.append(&mut more);
    proof {
        assert(items@ == a + b + c + d);
        assert(entries(items@) =~= entries(a) + entries(b) + entries(c) + entries(d));
        assert(entries(a).len() == 10 && entries(b).len() == 6 && entries(c).len() == 7
            && entries(d).len() == 5);
    }
    items
}

// -- what the panel says ------------------------------------------------------
/// A rate is how many times the count happened in a second of the elapsed time.
pub proof fn law_rate(n: int, elapsed: int)
    requires
        elapsed > 0,
    ensures
        0 <= n * 1_000_000_000_000_000_000 - elapsed * rate_of(n, elapsed) < elapsed,
{
    let m = n * 1_000_000_000_000_000_000;
    vstd::arithmetic::div_mod::lemma_fundamental_div_mod(m, elapsed);
    vstd::arithmetic::div_mod::lemma_mod_bound(m, elapsed);
}

/// Time since the start, a millisecond at least.
pub proof fn law_elapsed_since(started: int, now: int)
    ensures
        elapsed_of(started, now) >= 1_000_000,
        now - started >= 1_000_000 ==> started + elapsed_of(started, now) == now,
        now - started < 1_000_000 ==> elapsed_of(started, now) == 1_000_000,
{
}

/// Two rates beat at their difference, whichever is the higher.
pub proof fn law_beat(a: int, b: int)
    ensures
        beat_of(a, b) >= 0,
        beat_of(a, b) == beat_of(b, a),
        a <= b ==> a + beat_of(a, b) == b,
{
}

/// An inverse times its value is the scale; nothing below zero has one.
pub proof fn law_inverse(v: int, scale: int)
    ensures
        v <= 0 ==> inverse(v, scale) == 0,
        v > 0 ==> 0 <= scale * 1_000_000_000_000_000_000 - v * inverse(v, scale) < v,
{
    if v > 0 {
        let m = scale * 1_000_000_000_000_000_000;
        vstd::arithmetic::div_mod::lemma_fundamental_div_mod(m, v);
        vstd::arithmetic::div_mod::lemma_mod_bound(m, v);
    }
}

/// A percentage is a hundred times the part over the whole, which counts as one at
/// least.
pub proof fn law_percent(part: int, whole: int)
    ensures
        whole >= 1 ==> 0 <= 100_000_000_000 * part - whole * percent(part, whole) < whole,
        whole < 1 ==> percent(part, whole) == 100_000_000_000 * part,
{
    if whole >= 1 {
        let m = part * 100_000_000_000;
        vstd::arithmetic::div_mod::lemma_fundamental_div_mod(m, whole);
        vstd::arithmetic::div_mod::lemma_mod_bound(m, whole);
    }
}

/// What is uploaded for a frame: 24 bytes for each vertex and 4 for each index, in
/// units of 1024.
pub proof fn law_upload(verts: int, indices: int)
    ensures
        0 <= 1_000_000_000 * (24 * verts + 4 * indices) - 1024 * upload_kb(verts, indices) < 1024,
{
}

/// Windows overlap by what a hop leaves of them, in percent; of no window there is
/// no such share.
pub proof fn law_overlap(hop_mean: int, fft_size: int, d: int, w: int)
    ensures
        fft_size > 0 ==> overlap(hop_mean, fft_size, d, w) == Part::Num(
            overlap_of(hop_mean, fft_size),
            d,
            w,
        ),
        fft_size > 0 ==> -fft_size < 100 * hop_mean - fft_size * (100_000_000_000 - overlap_of(
            hop_mean,
            fft_size,
        )) < fft_size,
        fft_size <= 0 && hop_mean > 0 ==> overlap(hop_mean, fft_size, d, w) == Part::Right(
            "-inf"@,
            w,
        ),
        fft_size <= 0 && hop_mean < 0 ==> overlap(hop_mean, fft_size, d, w) == Part::Right(
            "inf"@,
            w,
        ),
        fft_size <= 0 && hop_mean == 0 ==> overlap(hop_mean, fft_size, d, w) == Part::Right(
            "NaN"@,
            w,
        ),
{
    if fft_size > 0 {
        law_trunc(100 * hop_mean, fft_size);
    }
}

/// The spread of the hops is how far the widest two of them lie apart. Returns those
/// two.
pub proof fn law_hop_spread(hops: Seq<i64>, i: int, j: int) -> (r: (int, int))
    requires
        0 <= i < hops.len(),
        0 <= j < hops.len(),
    ensures
        hops[j] - hops[i] <= hop_spread(hops),
        0 <= r.0 < hops.len(),
        0 <= r.1 < hops.len(),
        hop_spread(hops) == hops[r.1] - hops[r.0],
{
    let n = hops.len() as int;
    law_extremes(hops, n, i);
    law_extremes(hops, n, j);
    law_extremes_occur(hops, n)
}

/// A beat's period is its inverse, or the longest that can be shown where the beat
/// is as good as none.
pub proof fn law_panel_period(beat: int)
    ensures
        beat > 1_000_000 ==> 0 <= 1_000_000_000_000_000_000 - beat * panel_period(beat) < beat,
        beat <= 1_000_000 ==> panel_period(beat) == 999_990_000_000,
{
    law_inverse(beat, 1);
}

/// The entry is a line with `part` as its part `i`.
pub open spec fn shows(entry: Entry, i: int, part: Part) -> bool {
    entry matches Entry::Line(ink, text) && 0 <= i < text.len() && text[i] == part
}

/// The entry is a line in that ink.
pub open spec fn inked(entry: Entry, ink: Ink) -> bool {
    entry matches Entry::Line(used, text) && used == ink
}

/// The part that shows an extreme: a number to `d` places, or a word where there is
/// none.
pub proof fn law_extreme_shown(s: Seq<i64>, d: int, w: int, name: Seq<char>) -> (r: (int, int))
    ensures
        s.len() == 0 ==> extreme(least(s, 0), d, w, name) == Part::Right(name, w) && extreme(
            greatest(s, 0),
            d,
            w,
            name,
        ) == Part::Right(name, w),
        s.len() > 0 ==> 0 <= r.0 < s.len() && 0 <= r.1 < s.len() && extreme(
            least(s, s.len() as int),
            d,
            w,
            name,
        ) == Part::Num(s[r.0] as int, d, w) && extreme(
            greatest(s, s.len() as int),
            d,
            w,
            name,
        ) == Part::Num(s[r.1] as int, d, w),
{
    if s.len() > 0 {
        law_extremes_occur(s, s.len() as int)
    } else {
        (0, 0)
    }
}

/// The section on frame timing: the mean and the 99th percentile of the time that the
/// processor takes, in red where that exceeds the refresh period; the mean and the
/// most of the graphics processor's, where it was measured; then the means of the
/// copy, of submitting, in red above 3 ms, of waiting for the screen and for the
/// lock.
pub proof fn law_timing_rows(hud: &Hud, info: &StaticInfo, now: int)
    ensures
        ({
            let rows = panel_entries(hud, info, now);
            let refresh = refresh_of(hud.present_dt@);
            let late = quantile(hud.cpu_total@, 99, 100);
            let gpu = hud.gpu@;
            let submit = mean_of(hud.submit@);
            let timed = info.gpu_timing && gpu.len() > 0;
            &&& rows.len() == 28
            &&& shows(rows[1], 1, Part::Text(info.visualizer@))
            &&& shows(rows[1], 3, Part::Text(info.palette@))
            &&& rows[2] is Gap
            &&& shows(rows[4], 1, Part::Num(mean_of(hud.cpu_total@), 2, 6))
            &&& shows(rows[4], 3, Part::Num(late, 2, 6))
            &&& shows(rows[4], 5, Part::Num(refresh, 2, 5))
            &&& inked(rows[4], Ink::Bad) <==> late > refresh
            &&& inked(rows[4], Ink::Good) <==> late <= refresh
            &&& timed ==> shows(rows[5], 1, Part::Num(mean_of(gpu), 2, 6))
            &&& timed ==> shows(
                rows[5],
                3,
                Part::Num(greatest(gpu, gpu.len() as int)->0 as int, 2, 6),
            )
            &&& !timed ==> inked(rows[5], Ink::Dim)
            &&& timed ==> inked(rows[5], Ink::Good)
            &&& shows(rows[6], 1, Part::Num(mean_of(hud.cpu_copy@), 3, 6))
            &&& shows(rows[7], 1, Part::Num(submit, 2, 6))
            &&& inked(rows[7], Ink::Bad) <==> submit > 3_000_000_000
            &&& inked(rows[7], Ink::Dim) <==> submit <= 3_000_000_000
            &&& shows(rows[8], 1, Part::Num(mean_of(hud.wait@), 2, 6))
            &&& shows(rows[8], 3, Part::Num(mean_of(hud.lock_wait@), 3, 6))
            &&& rows[9] is Gap
        }),
{
    let rows = panel_entries(hud, info, now);
    let part = timing_entries(hud, info);
    assert forall|i: int| 0 <= i < 10 implies rows[i] == #[trigger] part[i] by {}
    assert(part.len() == 10);
    if hud.gpu@.len() > 0 {
        law_extremes(hud.gpu@, hud.gpu@.len() as int, 0);
    }
}

/// The section on presentation: the mean and the 99th percentile of the time between
/// presents, the frame rates that they amount to, the refresh period and how many
/// frames were dropped, in red where any were, and the modes; then the chart.
pub proof fn law_presentation_rows(hud: &Hud, info: &StaticInfo, now: int)
    ensures
        ({
            let rows = panel_entries(hud, info, now);
            let present = hud.present_dt@;
            &&& shows(rows[11], 1, Part::Num(mean_of(present), 2, 6))
            &&& shows(rows[11], 3, Part::Num(quantile(present, 99, 100), 2, 6))
            &&& shows(rows[12], 1, Part::Num(inverse(mean_of(present), 1000), 1, 6))
            &&& shows(rows[12], 3, Part::Num(inverse(quantile(present, 99, 100), 1000), 1, 6))
            &&& shows(rows[13], 1, Part::Num(refresh_of(present), 2, 6))
            &&& shows(rows[13], 3, Part::Num(1_000_000_000 * hud.dropped_frames, 0, 4))
            &&& shows(rows[13], 5, Part::Left(hud.present_dt.len as int, 4))
            &&& inked(rows[13], Ink::Bad) <==> hud.dropped_frames > 0
            &&& inked(rows[13], Ink::Good) <==> hud.dropped_frames == 0
            &&& shows(rows[14], 1, Part::Text(info.present_mode@))
            &&& shows(rows[14], 3, Part::Text(info.available_modes@))
            &&& rows[15] == Entry::Strip(Chart::Present)
        }),
{
    let rows = panel_entries(hud, info, now);
    let part = presentation_entries(hud, info);
    assert(timing_entries(hud, info).len() == 10 && part.len() == 6);
    assert(rows[11] == part[1] && rows[12] == part[2] && rows[13] == part[3]
        && rows[14] == part[4] && rows[15] == part[5]);
}

/// The section on the handoff: how often spectra came and frames went, the beat
/// between the two, in red above a twentieth of a hertz, and its period; the spectra
/// drawn twice and their share of the frames, in red where there were any; the ages
/// of the spectra; and the hops, in red where they spread by more than 64 samples;
/// then the chart.
pub proof fn law_handoff_rows(hud: &Hud, info: &StaticInfo, now: int)
    ensures
        ({
            let rows = panel_entries(hud, info, now);
            let elapsed = elapsed_of(hud.started as int, now);
            let (hops, frames) = (
                rate_of(hud.new_spectra as int, elapsed),
                rate_of(hud.frames as int, elapsed),
            );
            let beat = beat_of(hops, frames);
            let (age, hop) = (hud.age@, hud.hop@);
            &&& shows(rows[17], 1, Part::Num(hops, 2, 6))
            &&& shows(rows[17], 3, Part::Num(frames, 2, 6))
            &&& shows(rows[18], 1, Part::Num(beat, 2, 6))
            &&& shows(rows[18], 3, Part::Num(panel_period(beat), 2, 7))
            &&& inked(rows[18], Ink::Bad) <==> beat > 50_000_000
            &&& inked(rows[18], Ink::Good) <==> beat <= 50_000_000
            &&& shows(rows[19], 1, Part::Num(1_000_000_000 * hud.dup_spectra, 0, 7))
            &&& shows(
                rows[19],
                3,
                Part::Num(percent(hud.dup_spectra as int, hud.frames as int), 2, 5),
            )
            &&& inked(rows[19], Ink::Bad) <==> hud.dup_spectra > 0
            &&& inked(rows[19], Ink::Good) <==> hud.dup_spectra == 0
            &&& shows(rows[20], 1, extreme(least(age, age.len() as int), 1, 5, "inf"@))
            &&& shows(rows[20], 3, Part::Num(mean_of(age), 1, 5))
            &&& shows(rows[20], 5, extreme(greatest(age, age.len() as int), 1, 5, "-inf"@))
            &&& shows(rows[21], 1, Part::Num(mean_of(hop), 0, 5))
            &&& shows(rows[21], 3, extreme(least(hop, hop.len() as int), 0, 4, "inf"@))
            &&& shows(rows[21], 5, extreme(greatest(hop, hop.len() as int), 0, 4, "-inf"@))
            &&& shows(rows[21], 7, overlap(mean_of(hop), info.fft_size as int, 1, 4))
            &&& inked(rows[21], Ink::Bad) <==> hop_spread(hop) > 64_000_000_000
            &&& inked(rows[21], Ink::Good) <==> hop_spread(hop) <= 64_000_000_000
            &&& rows[22] == Entry::Strip(Chart::Age)
        }),
{
    let rows = panel_entries(hud, info, now);
    let part = handoff_entries(hud, info, now);
    assert(timing_entries(hud, info).len() == 10 && presentation_entries(hud, info).len() == 6
        && part.len() == 7);
    assert(rows[17] == part[1] && rows[18] == part[2] && rows[19] == part[3]
        && rows[20] == part[4] && rows[21] == part[5] && rows[22] == part[6]);
}

/// The section on geometry and settings: vertices and triangles of the scene, what
/// the overlay adds, what is uploaded for both, and the settings as they are.
pub proof fn law_geometry_rows(hud: &Hud, info: &StaticInfo, now: int)
    ensures
        ({
            let rows = panel_entries(hud, info, now);
            let kb = upload_kb(
                hud.scene_verts + hud.hud_verts,
                hud.scene_indices + hud.hud_indices,
            );
            &&& shows(rows[24], 1, Part::Num(1_000_000_000 * hud.scene_verts, 0, 7))
            &&& shows(rows[24], 3, Part::Num(1_000_000_000 * (hud.scene_indices as int / 3), 0, 7))
            &&& shows(rows[25], 1, Part::Num(1_000_000_000 * hud.hud_verts, 0, 7))
            &&& shows(rows[25], 3, Part::Num(kb, 0, 5))
            &&& shows(rows[26], 1, Part::Num(1_000_000_000 * info.sample_count, 0, 0))
            &&& shows(rows[26], 3, Part::Num(1_000_000_000 * info.subdivisions, 0, 0))
            &&& shows(
                rows[26],
                5,
                Part::Text(
                    if info.feathered {
                        "ON"@
                    } else {
                        "OFF"@
                    },
                ),
            )
            &&& shows(rows[27], 1, Part::Num(1_000_000_000 * info.fft_size, 0, 0))
            &&& shows(rows[27], 3, Part::Num(1_000_000_000 * info.num_bands, 0, 0))
        }),
{
    let rows = panel_entries(hud, info, now);
    let part = geometry_entries(hud, info);
    assert(timing_entries(hud, info).len() == 10 && presentation_entries(hud, info).len() == 6
        && handoff_entries(hud, info, now).len() == 7 && part.len() == 5);
    assert(rows[24] == part[1] && rows[25] == part[2] && rows[26] == part[3]
        && rows[27] == part[4]);
}

/// What the rows of the panel say beside their numbers.
pub proof fn law_panel_labels(hud: &Hud, info: &StaticInfo, now: int)
    ensures
        ({
            let rows = panel_entries(hud, info, now);
            &&& shows(rows[0], 0, Part::Text("AUDIO VISUALIZER HUD    F1 HIDE  F2 RESET"@))
            &&& shows(rows[1], 0, Part::Text("VISUAL "@))
            &&& shows(rows[1], 2, Part::Text("  PALETTE "@))
            &&& shows(rows[3], 0, Part::Text("-- FRAME TIMING ---------------------------"@))
            &&& shows(rows[4], 0, Part::Text("CPU     "@))
            &&& shows(rows[4], 2, Part::Text(" MS   P99 "@))
            &&& shows(rows[4], 4, Part::Text("  BUDGET "@))
            &&& shows(rows[6], 0, Part::Text("  OF WHICH VERTEX COPY "@))
            &&& shows(rows[6], 2, Part::Text(" MS"@))
            &&& shows(rows[7], 0, Part::Text("SUBMIT  "@))
            &&& shows(rows[7], 2, Part::Text(" MS   UPLOAD+ENCODE"@))
            &&& shows(rows[8], 0, Part::Text("VSYNC BLOCK "@))
            &&& shows(rows[8], 2, Part::Text(" MS  LOCK "@))
            &&& shows(rows[8], 4, Part::Text(" MS"@))
            &&& shows(rows[10], 0, Part::Text("-- PRESENTATION ---------------------------"@))
            &&& shows(rows[11], 0, Part::Text("PRESENT "@))
            &&& shows(rows[11], 2, Part::Text(" MS   1% LOW "@))
            &&& shows(rows[11], 4, Part::Text(" MS"@))
            &&& shows(rows[12], 0, Part::Text("FPS     "@))
            &&& shows(rows[12], 2, Part::Text("      1% LOW "@))
            &&& shows(rows[13], 0, Part::Text("REFRESH "@))
            &&& shows(rows[13], 2, Part::Text(" MS   DROPPED "@))
            &&& shows(rows[13], 4, Part::Text("/"@))
            &&& shows(rows[14], 0, Part::Text("MODE "@))
            &&& shows(rows[14], 2, Part::Text(" AVAIL "@))
            &&& shows(rows[16], 0, Part::Text("-- AUDIO -> RENDER HANDOFF ----------------"@))
            &&& shows(rows[17], 0, Part::Text("HOP RATE "@))
            &&& shows(rows[17], 2, Part::Text(" HZ  RENDER "@))
            &&& shows(rows[17], 4, Part::Text(" HZ"@))
            &&& shows(rows[18], 0, Part::Text("BEAT "@))
            &&& shows(rows[18], 2, Part::Text(" HZ  PERIOD "@))
            &&& shows(rows[18], 4, Part::Text(" S"@))
            &&& shows(rows[19], 0, Part::Text("DUP SPECTRA "@))
            &&& shows(rows[19], 2, Part::Text(" ("@))
            &&& shows(rows[19], 4, Part::Text("% OF FRAMES)"@))
            &&& shows(rows[20], 0, Part::Text("AGE MIN "@))
            &&& shows(rows[20], 2, Part::Text(" AVG "@))
            &&& shows(rows[20], 4, Part::Text(" MAX "@))
            &&& shows(rows[20], 6, Part::Text(" MS"@))
            &&& shows(rows[21], 0, Part::Text("HOP "@))
            &&& shows(rows[21], 2, Part::Text(" SMP ("@))
            &&& shows(rows[21], 4, Part::Text(".."@))
            &&& shows(rows[21], 6, Part::Text(") OVERLAP "@))
            &&& shows(rows[21], 8, Part::Text("%"@))
            &&& shows(rows[23], 0, Part::Text("-- GEOMETRY & SETTINGS --------------------"@))
            &&& shows(rows[24], 0, Part::Text("SCENE VERTS "@))
            &&& shows(rows[24], 2, Part::Text("  TRIS "@))
            &&& shows(rows[25], 0, Part::Text("HUD  VERTS  "@))
            &&& shows(rows[25], 2, Part::Text("  UPLOAD "@))
            &&& shows(rows[25], 4, Part::Text(" KB/F"@))
            &&& shows(rows[26], 0, Part::Text("MSAA "@))
            &&& shows(rows[26], 2, Part::Text("X  SUBDIV "@))
            &&& shows(rows[26], 4, Part::Text("  FEATHER "@))
            &&& shows(rows[27], 0, Part::Text("FFT "@))
            &&& shows(rows[27], 2, Part::Text("  BANDS "@))
        }),
{
    let rows = panel_entries(hud, info, now);
    let (a, b) = (timing_entries(hud, info), presentation_entries(hud, info));
    let (c, d) = (handoff_entries(hud, info, now), geometry_entries(hud, info));
    assert(a.len() == 10 && b.len() == 6 && c.len() == 7 && d.len() == 5);
    assert(rows[0] == a[0] && rows[1] == a[1] && rows[3] == a[3] && rows[4] == a[4] && rows[6]
        == a[6] && rows[7] == a[7] && rows[8] == a[8]);
    assert(rows[10] == b[0] && rows[11] == b[1] && rows[12] == b[2] && rows[13] == b[3] && rows[14]
        == b[4]);
    assert(rows[16] == c[0] && rows[17] == c[1] && rows[18] == c[2] && rows[19] == c[3] && rows[20]
        == c[4] && rows[21] == c[5]);
    assert(rows[23] == d[0] && rows[24] == d[1] && rows[25] == d[2] && rows[26] == d[3] && rows[27]
        == d[4]);
}

} // verus!
