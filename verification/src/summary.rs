//! The plain-text summary of the HUD, including the audio-thread counters that
//! are too verbose for the on-screen panel.

use crate::capture::ProbeCounts;
use crate::hud::{dropped_of, refresh_of, Hud};
use crate::panel::{
    beat_of, clock_beat, clock_beat_now, count, count_of, elapsed, elapsed_of, entries, extreme,
    extreme_of, frame_rate, frame_rate_of, hop_rate, hop_rate_of, inverse, invert, num, num_of,
    overlap, overlap_piece, percent, percentage, rate, rate_of, shows, upload, upload_kb, wide_of,
    Entry, Ink, Item,
};
use crate::stats::{greatest, law_extremes, least, mean_of, quantile};
use crate::text::{all_parts_valid, parts, Part, Piece};
use vstd::prelude::*;

verus! {

/// At least one.
pub open spec fn at_least_one(n: int) -> int {
    if n < 1 {
        1
    } else {
        n
    }
}

fn nonzero(n: u64) -> (r: u64)
    ensures
        r == at_least_one(n as int),
{
    if n < 1 {
        1
    } else {
        n
    }
}

/// Difference of two levels.
pub open spec fn span_of(hi: int, lo: int) -> int {
    hi - lo
}

fn span(hi: i64, lo: i64) -> (r: i128)
    ensures
        r == span_of(hi as int, lo as int),
{
    hi as i128 - lo as i128
}

/// Seconds elapsed.
pub open spec fn seconds_of(hud: &Hud, now: int) -> int {
    elapsed_of(hud.started as int, now)
}

fn seconds(hud: &Hud, now: u64) -> (r: i128)
    ensures
        r == seconds_of(hud, now as int),
{
    elapsed(hud.started, now) as i128
}

/// Beat period: endless when there is practically no beat.
pub open spec fn period_part(beat: int) -> Part {
    if beat > 1_000_000 {
        num(inverse(beat, 1), 2, 0)
    } else {
        Part::Right("inf"@, 0)
    }
}

fn period_piece<'a>(beat: i128) -> (p: Piece<'a>)
    ensures
        p@ == period_part(beat as int),
        p@.valid(),
{
    if beat > 1_000_000 {
        wide_of(invert(beat, 1), 2, 0)
    } else {
        Piece::Right("inf", 0)
    }
}

/// Heading: the visual and the time covered.
pub open spec fn head_row(hud: &Hud, now: int) -> Entry {
    Entry::Line(
        Ink::Dim,
        seq![
            Part::Text("=== HUD SUMMARY  "@),
            Part::Text(hud.visual@),
            Part::Text("  ("@),
            num(seconds_of(hud, now), 1, 0),
            Part::Text(" s) ==="@),
        ],
    )
}

fn head<'a>(hud: &Hud, now: u64) -> (item: Item<'a>)
    requires
        hud.wf(),
    ensures
        item@ == head_row(hud, now as int),
        item@.valid(),
{
    let pieces: Vec<Piece> = vec![
        Piece::Text("=== HUD SUMMARY  "),
        Piece::Text(hud.visual),
        Piece::Text("  ("),
        wide_of(seconds(hud, now), 1, 0),
        Piece::Text(" s) ==="),
    ];
    proof {
        let want = head_row(hud, now as int);
        assert(parts(pieces@) =~= want->Line_1);
        assert(all_parts_valid(parts(pieces@)));
    }
    Item::Line(Ink::Dim, pieces)
}

/// CPU time.
pub open spec fn cpu_row(hud: &Hud) -> Entry {
    Entry::Line(
        Ink::Dim,
        seq![
            Part::Text("cpu        mean "@),
            num(mean_of(hud.cpu_total@), 2, 6),
            Part::Text(" ms  p99 "@),
            num(quantile(hud.cpu_total@, 99, 100), 2, 6),
            Part::Text(" ms   (vertex copy "@),
            num(mean_of(hud.cpu_copy@), 3, 0),
            Part::Text(" ms)"@),
        ],
    )
}

fn cpu<'a>(hud: &Hud) -> (item: Item<'a>)
    requires
        hud.wf(),
    ensures
        item@ == cpu_row(hud),
        item@.valid(),
{
    let pieces: Vec<Piece> = vec![
        Piece::Text("cpu        mean "),
        num_of(hud.cpu_total.mean(), 2, 6),
        Piece::Text(" ms  p99 "),
        num_of(hud.cpu_total.percentile(99, 100), 2, 6),
        Piece::Text(" ms   (vertex copy "),
        num_of(hud.cpu_copy.mean(), 3, 0),
        Piece::Text(" ms)"),
    ];
    proof {
        let want = cpu_row(hud);
        assert(parts(pieces@) =~= want->Line_1);
        assert(all_parts_valid(parts(pieces@)));
    }
    Item::Line(Ink::Dim, pieces)
}

/// GPU time when it is not available.
pub open spec fn gpu_none_row() -> Entry {
    Entry::Line(
        Ink::Dim,
        seq![
            Part::Text("gpu        unavailable (no TIMESTAMP_QUERY)"@),
        ],
    )
}

fn gpu_none<'a>() -> (item: Item<'a>)
    ensures
        item@ == gpu_none_row(),
        item@.valid(),
{
    let pieces: Vec<Piece> = vec![
        Piece::Text("gpu        unavailable (no TIMESTAMP_QUERY)"),
    ];
    proof {
        let want = gpu_none_row();
        assert(parts(pieces@) =~= want->Line_1);
        assert(all_parts_valid(parts(pieces@)));
    }
    Item::Line(Ink::Dim, pieces)
}

/// GPU time.
pub open spec fn gpu_row(hud: &Hud) -> Entry {
    Entry::Line(
        Ink::Dim,
        seq![
            Part::Text("gpu        mean "@),
            num(mean_of(hud.gpu@), 2, 6),
            Part::Text(" ms  max "@),
            extreme(greatest(hud.gpu@, hud.gpu@.len() as int), 2, 6, "-inf"@),
            Part::Text(" ms"@),
        ],
    )
}

fn gpu<'a>(hud: &Hud) -> (item: Item<'a>)
    requires
        hud.wf(),
    ensures
        item@ == gpu_row(hud),
        item@.valid(),
{
    let pieces: Vec<Piece> = vec![
        Piece::Text("gpu        mean "),
        num_of(hud.gpu.mean(), 2, 6),
        Piece::Text(" ms  max "),
        extreme_of(hud.gpu.max(), 2, 6, "-inf"),
        Piece::Text(" ms"),
    ];
    proof {
        let want = gpu_row(hud);
        assert(parts(pieces@) =~= want->Line_1);
        assert(all_parts_valid(parts(pieces@)));
    }
    Item::Line(Ink::Dim, pieces)
}

/// Present deltas.
pub open spec fn present_row(hud: &Hud) -> Entry {
    Entry::Line(
        Ink::Dim,
        seq![
            Part::Text("present    mean "@),
            num(mean_of(hud.present_dt@), 2, 6),
            Part::Text(" ms  1% low "@),
            num(quantile(hud.present_dt@, 99, 100), 2, 6),
            Part::Text(" ms  refresh "@),
            num(refresh_of(hud.present_dt@), 2, 0),
            Part::Text(" ms"@),
        ],
    )
}

fn present<'a>(hud: &Hud) -> (item: Item<'a>)
    requires
        hud.wf(),
    ensures
        item@ == present_row(hud),
        item@.valid(),
{
    let pieces: Vec<Piece> = vec![
        Piece::Text("present    mean "),
        num_of(hud.present_dt.mean(), 2, 6),
        Piece::Text(" ms  1% low "),
        num_of(hud.present_dt.percentile(99, 100), 2, 6),
        Piece::Text(" ms  refresh "),
        num_of(hud.refresh_ms(), 2, 0),
        Piece::Text(" ms"),
    ];
    proof {
        let want = present_row(hud);
        assert(parts(pieces@) =~= want->Line_1);
        assert(all_parts_valid(parts(pieces@)));
    }
    Item::Line(Ink::Dim, pieces)
}

/// Upload and encode.
pub open spec fn submit_row(hud: &Hud) -> Entry {
    Entry::Line(
        Ink::Dim,
        seq![
            Part::Text("submit     "@),
            num(mean_of(hud.submit@), 2, 6),
            Part::Text(" ms  (buffer upload + encode)"@),
        ],
    )
}

fn submit<'a>(hud: &Hud) -> (item: Item<'a>)
    requires
        hud.wf(),
    ensures
        item@ == submit_row(hud),
        item@.valid(),
{
    let pieces: Vec<Piece> = vec![
        Piece::Text("submit     "),
        num_of(hud.submit.mean(), 2, 6),
        Piece::Text(" ms  (buffer upload + encode)"),
    ];
    proof {
        let want = submit_row(hud);
        assert(parts(pieces@) =~= want->Line_1);
        assert(all_parts_valid(parts(pieces@)));
    }
    Item::Line(Ink::Dim, pieces)
}

/// Time spent waiting, and frames dropped.
pub open spec fn vsync_row(hud: &Hud) -> Entry {
    Entry::Line(
        Ink::Dim,
        seq![
            Part::Text("vsync block "@),
            num(mean_of(hud.wait@), 2, 5),
            Part::Text(" ms  render lock wait "@),
            num(mean_of(hud.lock_wait@), 3, 0),
            Part::Text(" ms  dropped "@),
            count(hud.dropped_frames as int, 0),
        ],
    )
}

fn vsync<'a>(hud: &Hud) -> (item: Item<'a>)
    requires
        hud.wf(),
    ensures
        item@ == vsync_row(hud),
        item@.valid(),
{
    let pieces: Vec<Piece> = vec![
        Piece::Text("vsync block "),
        num_of(hud.wait.mean(), 2, 5),
        Piece::Text(" ms  render lock wait "),
        num_of(hud.lock_wait.mean(), 3, 0),
        Piece::Text(" ms  dropped "),
        count_of(hud.dropped_frames, 0),
    ];
    proof {
        let want = vsync_row(hud);
        assert(parts(pieces@) =~= want->Line_1);
        assert(all_parts_valid(parts(pieces@)));
    }
    Item::Line(Ink::Dim, pieces)
}

/// Rates of the two clocks and the beat between them.
pub open spec fn rates_row(hud: &Hud, now: int) -> Entry {
    Entry::Line(
        Ink::Dim,
        seq![
            Part::Text("rates      hop "@),
            num(hop_rate_of(hud, now), 2, 0),
            Part::Text(" Hz vs render "@),
            num(frame_rate_of(hud, now), 2, 0),
            Part::Text(" Hz  ->  beat "@),
            num(clock_beat(hud, now), 3, 0),
            Part::Text(" Hz (period "@),
            period_part(clock_beat(hud, now)),
            Part::Text(" s)"@),
        ],
    )
}

fn rates<'a>(hud: &Hud, now: u64) -> (item: Item<'a>)
    requires
        hud.wf(),
    ensures
        item@ == rates_row(hud, now as int),
        item@.valid(),
{
    let pieces: Vec<Piece> = vec![
        Piece::Text("rates      hop "),
        wide_of(hop_rate(hud, now), 2, 0),
        Piece::Text(" Hz vs render "),
        wide_of(frame_rate(hud, now), 2, 0),
        Piece::Text(" Hz  ->  beat "),
        wide_of(clock_beat_now(hud, now), 3, 0),
        Piece::Text(" Hz (period "),
        period_piece(clock_beat_now(hud, now)),
        Piece::Text(" s)"),
    ];
    proof {
        let want = rates_row(hud, now as int);
        assert(parts(pieces@) =~= want->Line_1);
        assert(all_parts_valid(parts(pieces@)));
    }
    Item::Line(Ink::Dim, pieces)
}

/// Duplicate spectra.
pub open spec fn duplicates_row(hud: &Hud) -> Entry {
    Entry::Line(
        Ink::Dim,
        seq![
            Part::Text("duplicates "@),
            count(hud.dup_spectra as int, 0),
            Part::Text(" of "@),
            count(hud.frames as int, 0),
            Part::Text(" frames ("@),
            num(percent(hud.dup_spectra as int, hud.frames as int), 2, 0),
            Part::Text("%) drew a spectrum already drawn"@),
        ],
    )
}

fn duplicates<'a>(hud: &Hud) -> (item: Item<'a>)
    requires
        hud.wf(),
    ensures
        item@ == duplicates_row(hud),
        item@.valid(),
{
    let pieces: Vec<Piece> = vec![
        Piece::Text("duplicates "),
        count_of(hud.dup_spectra, 0),
        Piece::Text(" of "),
        count_of(hud.frames, 0),
        Piece::Text(" frames ("),
        wide_of(percentage(hud.dup_spectra, hud.frames), 2, 0),
        Piece::Text("%) drew a spectrum already drawn"),
    ];
    proof {
        let want = duplicates_row(hud);
        assert(parts(pieces@) =~= want->Line_1);
        assert(all_parts_valid(parts(pieces@)));
    }
    Item::Line(Ink::Dim, pieces)
}

/// Spectrum age.
pub open spec fn age_row(hud: &Hud) -> Entry {
    Entry::Line(
        Ink::Dim,
        seq![
            Part::Text("age        min "@),
            extreme(least(hud.age@, hud.age@.len() as int), 1, 0, "inf"@),
            Part::Text("  mean "@),
            num(mean_of(hud.age@), 1, 0),
            Part::Text("  max "@),
            extreme(greatest(hud.age@, hud.age@.len() as int), 1, 0, "-inf"@),
            Part::Text(" ms"@),
        ],
    )
}

fn age<'a>(hud: &Hud) -> (item: Item<'a>)
    requires
        hud.wf(),
    ensures
        item@ == age_row(hud),
        item@.valid(),
{
    let pieces: Vec<Piece> = vec![
        Piece::Text("age        min "),
        extreme_of(hud.age.min(), 1, 0, "inf"),
        Piece::Text("  mean "),
        num_of(hud.age.mean(), 1, 0),
        Piece::Text("  max "),
        extreme_of(hud.age.max(), 1, 0, "-inf"),
        Piece::Text(" ms"),
    ];
    proof {
        let want = age_row(hud);
        assert(parts(pieces@) =~= want->Line_1);
        assert(all_parts_valid(parts(pieces@)));
    }
    Item::Line(Ink::Dim, pieces)
}

/// Hops and window overlap.
pub open spec fn hop_row(hud: &Hud) -> Entry {
    Entry::Line(
        Ink::Dim,
        seq![
            Part::Text("hop        mean "@),
            num(mean_of(hud.hop@), 0, 0),
            Part::Text(" smp  range "@),
            extreme(least(hud.hop@, hud.hop@.len() as int), 0, 0, "inf"@),
            Part::Text(".."@),
            extreme(greatest(hud.hop@, hud.hop@.len() as int), 0, 0, "-inf"@),
            Part::Text("  overlap "@),
            overlap(mean_of(hud.hop@), 1024, 1, 0),
            Part::Text("%"@),
        ],
    )
}

fn hop<'a>(hud: &Hud) -> (item: Item<'a>)
    requires
        hud.wf(),
    ensures
        item@ == hop_row(hud),
        item@.valid(),
{
    let pieces: Vec<Piece> = vec![
        Piece::Text("hop        mean "),
        num_of(hud.hop.mean(), 0, 0),
        Piece::Text(" smp  range "),
        extreme_of(hud.hop.min(), 0, 0, "inf"),
        Piece::Text(".."),
        extreme_of(hud.hop.max(), 0, 0, "-inf"),
        Piece::Text("  overlap "),
        overlap_piece(hud.hop.mean(), 1024, 1, 0),
        Piece::Text("%"),
    ];
    proof {
        let want = hop_row(hud);
        assert(parts(pieces@) =~= want->Line_1);
        assert(all_parts_valid(parts(pieces@)));
    }
    Item::Line(Ink::Dim, pieces)
}

/// The capture callback.
pub open spec fn callbacks_row(probe: &ProbeCounts) -> Entry {
    Entry::Line(
        Ink::Dim,
        seq![
            Part::Text("audio cb   "@),
            count(probe.callbacks as int, 0),
            Part::Text(" calls  max "@),
            count(probe.callback_max_us as int, 0),
            Part::Text(" us  max lock wait "@),
            count(probe.callback_lock_max_us as int, 0),
            Part::Text(" us"@),
        ],
    )
}

fn callbacks<'a>(probe: &ProbeCounts) -> (item: Item<'a>)
    ensures
        item@ == callbacks_row(probe),
        item@.valid(),
{
    let pieces: Vec<Piece> = vec![
        Piece::Text("audio cb   "),
        count_of(probe.callbacks, 0),
        Piece::Text(" calls  max "),
        count_of(probe.callback_max_us, 0),
        Piece::Text(" us  max lock wait "),
        count_of(probe.callback_lock_max_us, 0),
        Piece::Text(" us"),
    ];
    proof {
        let want = callbacks_row(probe);
        assert(parts(pieces@) =~= want->Line_1);
        assert(all_parts_valid(parts(pieces@)));
    }
    Item::Line(Ink::Dim, pieces)
}

/// The analysis passes.
pub open spec fn analysis_row(probe: &ProbeCounts) -> Entry {
    Entry::Line(
        Ink::Dim,
        seq![
            Part::Text("analysis   "@),
            count(at_least_one(probe.analysis_passes as int), 0),
            Part::Text(" passes: "@),
            count(probe.stale_analyses as int, 0),
            Part::Text(" stale ("@),
            num(percent(probe.stale_analyses as int, at_least_one(probe.analysis_passes as int)), 0, 0),
            Part::Text("%), "@),
            count(probe.dropped_windows as int, 0),
            Part::Text(" with zero overlap ("@),
            num(percent(probe.dropped_windows as int, at_least_one(probe.analysis_passes as int)), 0, 0),
            Part::Text("%)"@),
        ],
    )
}

fn analysis<'a>(probe: &ProbeCounts) -> (item: Item<'a>)
    ensures
        item@ == analysis_row(probe),
        item@.valid(),
{
    let pieces: Vec<Piece> = vec![
        Piece::Text("analysis   "),
        count_of(nonzero(probe.analysis_passes), 0),
        Piece::Text(" passes: "),
        count_of(probe.stale_analyses, 0),
        Piece::Text(" stale ("),
        wide_of(percentage(probe.stale_analyses, nonzero(probe.analysis_passes)), 0, 0),
        Piece::Text("%), "),
        count_of(probe.dropped_windows, 0),
        Piece::Text(" with zero overlap ("),
        wide_of(percentage(probe.dropped_windows, nonzero(probe.analysis_passes)), 0, 0),
        Piece::Text("%)"),
    ];
    proof {
        let want = analysis_row(probe);
        assert(parts(pieces@) =~= want->Line_1);
        assert(all_parts_valid(parts(pieces@)));
    }
    Item::Line(Ink::Dim, pieces)
}

/// Distinct spectra against passes.
pub open spec fn distinct_row(hud: &Hud, now: int, probe: &ProbeCounts) -> Entry {
    Entry::Line(
        Ink::Dim,
        seq![
            Part::Text("           distinct spectra "@),
            num(hop_rate_of(hud, now), 1, 0),
            Part::Text(" Hz vs "@),
            num(rate_of(at_least_one(probe.analysis_passes as int), elapsed_of(hud.started as int, now)), 0, 0),
            Part::Text(" analysis passes/s"@),
        ],
    )
}

fn distinct<'a>(hud: &Hud, now: u64, probe: &ProbeCounts) -> (item: Item<'a>)
    requires
        hud.wf(),
    ensures
        item@ == distinct_row(hud, now as int, probe),
        item@.valid(),
{
    let pieces: Vec<Piece> = vec![
        Piece::Text("           distinct spectra "),
        wide_of(hop_rate(hud, now), 1, 0),
        Piece::Text(" Hz vs "),
        wide_of(rate(nonzero(probe.analysis_passes), elapsed(hud.started, now)), 0, 0),
        Piece::Text(" analysis passes/s"),
    ];
    proof {
        let want = distinct_row(hud, now as int, probe);
        assert(parts(pieces@) =~= want->Line_1);
        assert(all_parts_valid(parts(pieces@)));
    }
    Item::Line(Ink::Dim, pieces)
}

/// Distribution of the band levels.
pub open spec fn bands_row(hud: &Hud) -> Entry {
    Entry::Line(
        Ink::Dim,
        seq![
            Part::Text("bands      min "@),
            num(mean_of(hud.band_min@), 3, 0),
            Part::Text("  median "@),
            num(mean_of(hud.band_med@), 3, 0),
            Part::Text("  p90 "@),
            num(mean_of(hud.band_p90@), 3, 0),
            Part::Text("  max "@),
            num(mean_of(hud.band_max@), 3, 0),
            Part::Text("   (usable span "@),
            num(span_of(mean_of(hud.band_max@), mean_of(hud.band_min@)), 3, 0),
            Part::Text(")"@),
        ],
    )
}

fn bands<'a>(hud: &Hud) -> (item: Item<'a>)
    requires
        hud.wf(),
    ensures
        item@ == bands_row(hud),
        item@.valid(),
{
    let pieces: Vec<Piece> = vec![
        Piece::Text("bands      min "),
        num_of(hud.band_min.mean(), 3, 0),
        Piece::Text("  median "),
        num_of(hud.band_med.mean(), 3, 0),
        Piece::Text("  p90 "),
        num_of(hud.band_p90.mean(), 3, 0),
        Piece::Text("  max "),
        num_of(hud.band_max.mean(), 3, 0),
        Piece::Text("   (usable span "),
        wide_of(span(hud.band_max.mean(), hud.band_min.mean()), 3, 0),
        Piece::Text(")"),
    ];
    proof {
        let want = bands_row(hud);
        assert(parts(pieces@) =~= want->Line_1);
        assert(all_parts_valid(parts(pieces@)));
    }
    Item::Line(Ink::Dim, pieces)
}

/// Geometry and upload.
pub open spec fn geometry_row(hud: &Hud) -> Entry {
    Entry::Line(
        Ink::Dim,
        seq![
            Part::Text("geometry   scene "@),
            count(hud.scene_verts as int, 0),
            Part::Text(" verts / "@),
            count(hud.scene_indices as int / 3, 0),
            Part::Text(" tris   hud "@),
            count(hud.hud_verts as int, 0),
            Part::Text(" verts   upload "@),
            num(upload_kb(hud.scene_verts + hud.hud_verts, hud.scene_indices + hud.hud_indices), 0, 0),
            Part::Text(" KB/frame"@),
        ],
    )
}

fn geometry<'a>(hud: &Hud) -> (item: Item<'a>)
    requires
        hud.wf(),
    ensures
        item@ == geometry_row(hud),
        item@.valid(),
{
    let pieces: Vec<Piece> = vec![
        Piece::Text("geometry   scene "),
        count_of(hud.scene_verts as u64, 0),
        Piece::Text(" verts / "),
        count_of(hud.scene_indices as u64 / 3, 0),
        Piece::Text(" tris   hud "),
        count_of(hud.hud_verts as u64, 0),
        Piece::Text(" verts   upload "),
        wide_of(upload(hud.scene_verts as u64, hud.hud_verts as u64, hud.scene_indices as u64, hud.hud_indices as u64), 0, 0),
        Piece::Text(" KB/frame"),
    ];
    proof {
        let want = geometry_row(hud);
        assert(parts(pieces@) =~= want->Line_1);
        assert(all_parts_valid(parts(pieces@)));
    }
    Item::Line(Ink::Dim, pieces)
}

/// The heading and the frame timing.
pub open spec fn frame_entries(hud: &Hud, now: int) -> Seq<Entry> {
    seq![
        head_row(hud, now),
        cpu_row(hud),
        if hud.gpu@.len() == 0 {
            gpu_none_row()
        } else {
            gpu_row(hud)
        },
        present_row(hud),
        submit_row(hud),
        vsync_row(hud),
    ]
}

/// The handoff from audio to rendering.
pub open spec fn spectrum_entries(hud: &Hud, now: int) -> Seq<Entry> {
    seq![rates_row(hud, now), duplicates_row(hud), age_row(hud), hop_row(hud)]
}

/// The capture and what is drawn from it.
pub open spec fn audio_entries(hud: &Hud, now: int, probe: &ProbeCounts) -> Seq<Entry> {
    seq![
        callbacks_row(probe),
        analysis_row(probe),
        distinct_row(hud, now, probe),
        bands_row(hud),
        geometry_row(hud),
    ]
}

/// The summary, line by line.
pub open spec fn summary_entries(hud: &Hud, now: int, probe: &ProbeCounts) -> Seq<Entry> {
    frame_entries(hud, now) + spectrum_entries(hud, now) + audio_entries(hud, now, probe)
}

/// Every item can be written.
pub open spec fn writable(items: Seq<Item>) -> bool {
    forall|i: int| 0 <= i < items.len() ==> (#[trigger] items[i])@.valid()
}

fn frame_items<'a>(hud: &Hud, now: u64) -> (items: Vec<Item<'a>>)
    requires
        hud.wf(),
    ensures
        entries(items@) == frame_entries(hud, now as int),
        writable(items@),
{
    let gpu_item: Item<'a> = if hud.gpu.is_empty() {
        gpu_none()
    } else {
        gpu(hud)
    };
    let items: Vec<Item<'a>> = vec![
        head(hud, now),
        cpu(hud),
        gpu_item,
        present(hud),
        submit(hud),
        vsync(hud),
    ];
    assert(entries(items@) =~= frame_entries(hud, now as int));
    items
}

fn spectrum_items<'a>(hud: &Hud, now: u64) -> (items: Vec<Item<'a>>)
    requires
        hud.wf(),
    ensures
        entries(items@) == spectrum_entries(hud, now as int),
        writable(items@),
{
    let items: Vec<Item<'a>> = vec![rates(hud, now), duplicates(hud), age(hud), hop(hud)];
    assert(entries(items@) =~= spectrum_entries(hud, now as int));
    items
}

fn audio_items<'a>(hud: &Hud, now: u64, probe: &ProbeCounts) -> (items: Vec<Item<'a>>)
    requires
        hud.wf(),
    ensures
        entries(items@) == audio_entries(hud, now as int, probe),
        writable(items@),
{
    let items: Vec<Item<'a>> = vec![
        callbacks(probe),
        analysis(probe),
        distinct(hud, now, probe),
        bands(hud),
        geometry(hud),
    ];
    assert(entries(items@) =~= audio_entries(hud, now as int, probe));
    items
}

impl Hud {
    /// Compose the plain-text summary, recounting the dropped frames first.
    pub fn dump<'a>(&mut self, now: u64, probe: &ProbeCounts) -> (items: Vec<Item<'a>>)
        requires
            old(self).wf(),
        ensures
            final(self).wf(),
            *final(self) == (Hud {
                dropped_frames: dropped_of(old(self).present_dt@) as u64,
                ..*old(self)
            }),
            entries(items@) == summary_entries(final(self), now as int, probe),
            writable(items@),
    {
        let _: u64 = self.count_dropped();
        let hud: &Hud = &*self;
        let mut items: Vec<Item<'a>> = frame_items(hud, now);
        let mut more: Vec<Item<'a>> = spectrum_items(hud, now);
        let ghost a = items@;
        let ghost b = more@;
        items.append(&mut more);
        more = audio_items(hud, now, probe);
        let ghost c = more@;
        items.append(&mut more);
        proof {
            assert(items@ == a + b + c);
            assert(entries(items@) =~= entries(a) + entries(b) + entries(c));
        }
        items
    }
}

// -- what the summary says ----------------------------------------------------
/// The summary on frames: what is shown and for how long, then the times that the
/// processor, the graphics processor where it was measured, presenting and submitting
/// take, and what was waited for and dropped.
pub proof fn law_frame_summary(hud: &Hud, now: int, probe: &ProbeCounts)
    ensures
        ({
            let rows = summary_entries(hud, now, probe);
            let gpu = hud.gpu@;
            let present = hud.present_dt@;
            &&& rows.len() == 15
            &&& shows(rows[0], 1, Part::Text(hud.visual@))
            &&& shows(rows[0], 3, Part::Num(elapsed_of(hud.started as int, now), 1, 0))
            &&& shows(rows[1], 1, Part::Num(mean_of(hud.cpu_total@), 2, 6))
            &&& shows(rows[1], 3, Part::Num(quantile(hud.cpu_total@, 99, 100), 2, 6))
            &&& shows(rows[1], 5, Part::Num(mean_of(hud.cpu_copy@), 3, 0))
            &&& gpu.len() > 0 ==> shows(rows[2], 1, Part::Num(mean_of(gpu), 2, 6))
            &&& gpu.len() > 0 ==> shows(
                rows[2],
                3,
                Part::Num(greatest(gpu, gpu.len() as int)->0 as int, 2, 6),
            )
            &&& shows(rows[3], 1, Part::Num(mean_of(present), 2, 6))
            &&& shows(rows[3], 3, Part::Num(quantile(present, 99, 100), 2, 6))
            &&& shows(rows[3], 5, Part::Num(refresh_of(present), 2, 0))
            &&& shows(rows[4], 1, Part::Num(mean_of(hud.submit@), 2, 6))
            &&& shows(rows[5], 1, Part::Num(mean_of(hud.wait@), 2, 5))
            &&& shows(rows[5], 3, Part::Num(mean_of(hud.lock_wait@), 3, 0))
            &&& shows(rows[5], 5, Part::Num(1_000_000_000 * hud.dropped_frames, 0, 0))
        }),
{
    let rows = summary_entries(hud, now, probe);
    let part = frame_entries(hud, now);
    assert(part.len() == 6);
    assert forall|i: int| 0 <= i < 6 implies rows[i] == #[trigger] part[i] by {}
    if hud.gpu@.len() > 0 {
        law_extremes(hud.gpu@, hud.gpu@.len() as int, 0);
    }
}

/// The summary on spectra: the two rates, their beat and its period, the spectra that
/// were drawn again and their share, and the ages and hops.
pub proof fn law_spectrum_summary(hud: &Hud, now: int, probe: &ProbeCounts)
    ensures
        ({
            let rows = summary_entries(hud, now, probe);
            let elapsed = elapsed_of(hud.started as int, now);
            let (hops, frames) = (
                rate_of(hud.new_spectra as int, elapsed),
                rate_of(hud.frames as int, elapsed),
            );
            let beat = beat_of(hops, frames);
            let (age, hop) = (hud.age@, hud.hop@);
            &&& shows(rows[6], 1, Part::Num(hops, 2, 0))
            &&& shows(rows[6], 3, Part::Num(frames, 2, 0))
            &&& shows(rows[6], 5, Part::Num(beat, 3, 0))
            &&& beat > 1_000_000 ==> shows(rows[6], 7, Part::Num(inverse(beat, 1), 2, 0))
            &&& beat <= 1_000_000 ==> shows(rows[6], 7, Part::Right("inf"@, 0))
            &&& shows(rows[7], 1, Part::Num(1_000_000_000 * hud.dup_spectra, 0, 0))
            &&& shows(rows[7], 3, Part::Num(1_000_000_000 * hud.frames, 0, 0))
            &&& shows(
                rows[7],
                5,
                Part::Num(percent(hud.dup_spectra as int, hud.frames as int), 2, 0),
            )
            &&& shows(rows[8], 1, extreme(least(age, age.len() as int), 1, 0, "inf"@))
            &&& shows(rows[8], 3, Part::Num(mean_of(age), 1, 0))
            &&& shows(rows[8], 5, extreme(greatest(age, age.len() as int), 1, 0, "-inf"@))
            &&& shows(rows[9], 1, Part::Num(mean_of(hop), 0, 0))
            &&& shows(rows[9], 3, extreme(least(hop, hop.len() as int), 0, 0, "inf"@))
            &&& shows(rows[9], 5, extreme(greatest(hop, hop.len() as int), 0, 0, "-inf"@))
            &&& shows(rows[9], 7, overlap(mean_of(hop), 1024, 1, 0))
        }),
{
    let rows = summary_entries(hud, now, probe);
    let part = spectrum_entries(hud, now);
    assert(frame_entries(hud, now).len() == 6 && part.len() == 4);
    assert(rows[6] == part[0] && rows[7] == part[1] && rows[8] == part[2] && rows[9] == part[3]);
}

/// The summary on audio: the callbacks and their longest times, the passes, at least
/// one, of which some were stale and some dropped a window, the rates of both, the
/// levels of the bands and their span, and the geometry.
pub proof fn law_audio_summary(hud: &Hud, now: int, probe: &ProbeCounts)
    ensures
        ({
            let rows = summary_entries(hud, now, probe);
            let passes = if probe.analysis_passes == 0 {
                1
            } else {
                probe.analysis_passes as int
            };
            let elapsed = elapsed_of(hud.started as int, now);
            let (low, high) = (mean_of(hud.band_min@), mean_of(hud.band_max@));
            let kb = upload_kb(
                hud.scene_verts + hud.hud_verts,
                hud.scene_indices + hud.hud_indices,
            );
            &&& shows(rows[10], 1, Part::Num(1_000_000_000 * probe.callbacks, 0, 0))
            &&& shows(rows[10], 3, Part::Num(1_000_000_000 * probe.callback_max_us, 0, 0))
            &&& shows(rows[10], 5, Part::Num(1_000_000_000 * probe.callback_lock_max_us, 0, 0))
            &&& shows(rows[11], 1, Part::Num(1_000_000_000 * passes, 0, 0))
            &&& shows(rows[11], 3, Part::Num(1_000_000_000 * probe.stale_analyses, 0, 0))
            &&& shows(
                rows[11],
                5,
                Part::Num(percent(probe.stale_analyses as int, passes), 0, 0),
            )
            &&& shows(rows[11], 7, Part::Num(1_000_000_000 * probe.dropped_windows, 0, 0))
            &&& shows(
                rows[11],
                9,
                Part::Num(percent(probe.dropped_windows as int, passes), 0, 0),
            )
            &&& shows(rows[12], 1, Part::Num(rate_of(hud.new_spectra as int, elapsed), 1, 0))
            &&& shows(rows[12], 3, Part::Num(rate_of(passes, elapsed), 0, 0))
            &&& shows(rows[13], 1, Part::Num(low, 3, 0))
            &&& shows(rows[13], 3, Part::Num(mean_of(hud.band_med@), 3, 0))
            &&& shows(rows[13], 5, Part::Num(mean_of(hud.band_p90@), 3, 0))
            &&& shows(rows[13], 7, Part::Num(high, 3, 0))
            &&& shows(rows[13], 9, Part::Num(high - low, 3, 0))
            &&& shows(rows[14], 1, Part::Num(1_000_000_000 * hud.scene_verts, 0, 0))
            &&& shows(rows[14], 3, Part::Num(1_000_000_000 * (hud.scene_indices as int / 3), 0, 0))
            &&& shows(rows[14], 5, Part::Num(1_000_000_000 * hud.hud_verts, 0, 0))
            &&& shows(rows[14], 7, Part::Num(kb, 0, 0))
        }),
{
    let rows = summary_entries(hud, now, probe);
    let part = audio_entries(hud, now, probe);
    assert(frame_entries(hud, now).len() == 6 && spectrum_entries(hud, now).len() == 4 && part.len()
        == 5);
    assert(rows[10] == part[0] && rows[11] == part[1] && rows[12] == part[2]
        && rows[13] == part[3] && rows[14] == part[4]);
}

/// What the rows of the summary say beside their numbers.
pub proof fn law_summary_labels(hud: &Hud, now: int, probe: &ProbeCounts)
    ensures
        ({
            let rows = summary_entries(hud, now, probe);
            &&& shows(rows[0], 0, Part::Text("=== HUD SUMMARY  "@))
            &&& shows(rows[0], 2, Part::Text("  ("@))
            &&& shows(rows[0], 4, Part::Text(" s) ==="@))
            &&& shows(rows[1], 0, Part::Text("cpu        mean "@))
            &&& shows(rows[1], 2, Part::Text(" ms  p99 "@))
            &&& shows(rows[1], 4, Part::Text(" ms   (vertex copy "@))
            &&& shows(rows[1], 6, Part::Text(" ms)"@))
            &&& shows(rows[3], 0, Part::Text("present    mean "@))
            &&& shows(rows[3], 2, Part::Text(" ms  1% low "@))
            &&& shows(rows[3], 4, Part::Text(" ms  refresh "@))
            &&& shows(rows[3], 6, Part::Text(" ms"@))
            &&& shows(rows[4], 0, Part::Text("submit     "@))
            &&& shows(rows[4], 2, Part::Text(" ms  (buffer upload + encode)"@))
            &&& shows(rows[5], 0, Part::Text("vsync block "@))
            &&& shows(rows[5], 2, Part::Text(" ms  render lock wait "@))
            &&& shows(rows[5], 4, Part::Text(" ms  dropped "@))
            &&& shows(rows[6], 0, Part::Text("rates      hop "@))
            &&& shows(rows[6], 2, Part::Text(" Hz vs render "@))
            &&& shows(rows[6], 4, Part::Text(" Hz  ->  beat "@))
            &&& shows(rows[6], 6, Part::Text(" Hz (period "@))
            &&& shows(rows[6], 8, Part::Text(" s)"@))
            &&& shows(rows[7], 0, Part::Text("duplicates "@))
            &&& shows(rows[7], 2, Part::Text(" of "@))
            &&& shows(rows[7], 4, Part::Text(" frames ("@))
            &&& shows(rows[7], 6, Part::Text("%) drew a spectrum already drawn"@))
            &&& shows(rows[8], 0, Part::Text("age        min "@))
            &&& shows(rows[8], 2, Part::Text("  mean "@))
            &&& shows(rows[8], 4, Part::Text("  max "@))
            &&& shows(rows[8], 6, Part::Text(" ms"@))
            &&& shows(rows[9], 0, Part::Text("hop        mean "@))
            &&& shows(rows[9], 2, Part::Text(" smp  range "@))
            &&& shows(rows[9], 4, Part::Text(".."@))
            &&& shows(rows[9], 6, Part::Text("  overlap "@))
            &&& shows(rows[9], 8, Part::Text("%"@))
            &&& shows(rows[10], 0, Part::Text("audio cb   "@))
            &&& shows(rows[10], 2, Part::Text(" calls  max "@))
            &&& shows(rows[10], 4, Part::Text(" us  max lock wait "@))
            &&& shows(rows[10], 6, Part::Text(" us"@))
            &&& shows(rows[11], 0, Part::Text("analysis   "@))
            &&& shows(rows[11], 2, Part::Text(" passes: "@))
            &&& shows(rows[11], 4, Part::Text(" stale ("@))
            &&& shows(rows[11], 6, Part::Text("%), "@))
            &&& shows(rows[11], 8, Part::Text(" with zero overlap ("@))
            &&& shows(rows[11], 10, Part::Text("%)"@))
            &&& shows(rows[12], 0, Part::Text("           distinct spectra "@))
            &&& shows(rows[12], 2, Part::Text(" Hz vs "@))
            &&& shows(rows[12], 4, Part::Text(" analysis passes/s"@))
            &&& shows(rows[13], 0, Part::Text("bands      min "@))
            &&& shows(rows[13], 2, Part::Text("  median "@))
            &&& shows(rows[13], 4, Part::Text("  p90 "@))
            &&& shows(rows[13], 6, Part::Text("  max "@))
            &&& shows(rows[13], 8, Part::Text("   (usable span "@))
            &&& shows(rows[13], 10, Part::Text(")"@))
            &&& shows(rows[14], 0, Part::Text("geometry   scene "@))
            &&& shows(rows[14], 2, Part::Text(" verts / "@))
            &&& shows(rows[14], 4, Part::Text(" tris   hud "@))
            &&& shows(rows[14], 6, Part::Text(" verts   upload "@))
            &&& shows(rows[14], 8, Part::Text(" KB/frame"@))
        }),
{
    let rows = summary_entries(hud, now, probe);
    let (a, b) = (frame_entries(hud, now), spectrum_entries(hud, now));
    let c = audio_entries(hud, now, probe);
    assert(a.len() == 6 && b.len() == 4 && c.len() == 5);
    assert(rows[0] == a[0] && rows[1] == a[1] && rows[3] == a[3] && rows[4] == a[4] && rows[5]
        == a[5]);
    assert(rows[6] == b[0] && rows[7] == b[1] && rows[8] == b[2] && rows[9] == b[3]);
    assert(rows[10] == c[0] && rows[11] == c[1] && rows[12] == c[2] && rows[13] == c[3] && rows[14]
        == c[4]);
}

} // verus!
