//! The HUD: its statistics, its text, and what it draws.

use audio_processor::capture::{AudioProbe, ProbeCounts};
use audio_processor::font::{glyph, is_lit, FONT_W};
use audio_processor::hud::{FrameSample, Hud, StaticInfo};
use audio_processor::mesh::MeshBuilder;
use audio_processor::number::{Sample, ONE};
use audio_processor::overlay::{layout, strip, text_at, Frame, Patch, PANEL_BACK};
use audio_processor::panel::{panel_items, Chart, Ink, Item};
use audio_processor::spline::Point;
use audio_processor::stats::{sort_samples, Ring, HISTORY};
use audio_processor::text::{decimal_text, is_blank, line_text, parse_number, trim, Piece};

fn ms(v: f64) -> i64 {
    (v * 1e9).round() as i64
}

fn turn(angle: i64) -> Point {
    let (sin, cos) = (angle as f64 / 1e9).sin_cos();
    Point { x: (cos * 1e9).round() as i64, y: (sin * 1e9).round() as i64 }
}

fn info() -> StaticInfo {
    StaticInfo {
        sample_count: 1,
        fft_size: 1024,
        num_bands: 64,
        present_mode: "AUTOVSYNC",
        available_modes: "FIFO,MAILBOX".to_string(),
        gpu_timing: true,
        subdivisions: 10,
        feathered: true,
        visualizer: "Bars",
        palette: "AURORA",
    }
}

fn texts(items: &Vec<Item>) -> Vec<String> {
    let mut out: Vec<String> = Vec::new();
    for item in items {
        match item {
            Item::Line(_, pieces) => out.push(line_text(pieces)),
            Item::Gap => out.push("<gap>".to_string()),
            Item::Strip(Chart::Present) => out.push("<present>".to_string()),
            Item::Strip(Chart::Age) => out.push("<age>".to_string()),
        }
    }
    out
}

// -- statistics -------------------------------------------------------------

#[test]
fn ring_orders_oldest_first_after_wrap() {
    let mut r = Ring::new();
    for i in 0..HISTORY + 10 {
        r.push(i as i64 * ONE);
    }
    let v: Vec<i64> = r.samples();
    assert_eq!(v.len(), HISTORY);
    assert_eq!(v[0], 10 * ONE);
    assert_eq!(v[HISTORY - 1], (HISTORY + 9) as i64 * ONE);
}

#[test]
fn percentile_matches_sorted_position() {
    let mut r = Ring::new();
    for i in 0..100 {
        r.push(i * ONE);
    }
    assert_eq!(r.percentile(0, 1), 0);
    assert_eq!(r.percentile(1, 1), 99 * ONE);
    assert_eq!(r.percentile(1, 2), 50 * ONE);
}

#[test]
fn percentile_rank_rounds_like_floating_point() {
    for n in 1..=HISTORY {
        let mut r = Ring::new();
        for i in 0..n {
            r.push(i as i64);
        }
        for (num, den) in [(1u32, 2u32), (99, 100), (9, 10), (1, 100)] {
            let p = num as f32 / den as f32;
            let i = ((n - 1) as f32 * p.clamp(0.0, 1.0)).round() as i64;
            assert_eq!(r.percentile(num as i64, den), i, "{num}/{den} of {n}");
        }
    }
}

#[test]
fn percentiles_limit_their_fraction() {
    let mut r = Ring::new();
    for i in 0..10 {
        r.push(i);
    }
    assert_eq!((r.percentile(-5, 3), r.percentile(7, 3), r.percentile(i64::MAX, u32::MAX)), (0, 9, 9));
}

#[test]
fn duplicate_spectra_are_counted_only_on_repeat_seq() {
    let mut hud = Hud::new(0);
    for seq in [1u64, 1, 2, 2, 2, 3] {
        hud.record(&FrameSample {
            spectrum_seq: seq,
            present_dt_ms: ms(16.6),
            ..Default::default()
        });
    }
    // 6 frames carrying 3 distinct spectra => 3 duplicates.
    assert_eq!(hud.frames, 6);
    assert_eq!(hud.dup_spectra, 3);
    assert_eq!(hud.new_spectra, 3);
}

#[test]
fn dropped_frames_counted_from_present_gaps() {
    let mut hud = Hud::new(0);
    for _ in 0..50 {
        hud.record(&FrameSample {
            present_dt_ms: ms(16.667),
            spectrum_seq: 0,
            ..Default::default()
        });
    }
    assert_eq!(hud.count_dropped(), 0);
    // One 3-refresh gap = two frames the display showed that we missed.
    hud.record(&FrameSample {
        present_dt_ms: ms(50.0),
        spectrum_seq: 1,
        ..Default::default()
    });
    assert_eq!(hud.count_dropped(), 2);
}

#[test]
fn glyphs_cover_the_printable_range_used_by_the_hud() {
    for c in ' '..='_' {
        let g = glyph(c);
        assert!(g.iter().all(|row| row & 0xE0 == 0), "glyph {c:?} overflows 5 columns");
    }
    // Lowercase folds onto uppercase rather than rendering blank.
    assert_eq!(glyph('a'), glyph('A'));
}

#[test]
fn empty_windows_have_no_extremes_and_a_zero_mean() {
    let r = Ring::new();
    assert!(r.is_empty());
    assert_eq!(r.min(), None);
    assert_eq!(r.max(), None);
    assert_eq!(r.mean(), 0);
    assert_eq!(r.percentile(1, 2), 0);
}

#[test]
fn windows_report_mean_and_extremes() {
    let mut r = Ring::new();
    for v in [3i64, -5, 10] {
        r.push(v * ONE);
    }
    assert_eq!(r.min(), Some(-5 * ONE));
    assert_eq!(r.max(), Some(10 * ONE));
    assert_eq!(r.mean(), 2_666_666_666);
    assert_eq!(sort_samples(&vec![3, 1, 2, 1]), vec![1, 1, 2, 3]);
}

#[test]
fn refresh_is_the_median_and_has_a_default() {
    let mut hud = Hud::new(0);
    assert_eq!(hud.refresh_ms(), ms(16.667));
    for v in [8.0, 8.1, 40.0] {
        hud.record(&FrameSample { present_dt_ms: ms(v), ..Default::default() });
    }
    assert_eq!(hud.refresh_ms(), ms(8.1));
}

#[test]
fn steady_presents_drop_nothing_and_whole_gaps_count() {
    for k in 2..=6i64 {
        let mut hud = Hud::new(0);
        for _ in 0..20 {
            hud.record(&FrameSample { present_dt_ms: ms(8.333), ..Default::default() });
        }
        assert_eq!(hud.count_dropped(), 0);
        hud.record(&FrameSample { present_dt_ms: k * ms(8.333), ..Default::default() });
        assert_eq!(hud.count_dropped(), k as u64 - 1);
    }
}

#[test]
fn toggling_keeps_statistics_and_resetting_keeps_visibility() {
    let mut hud = Hud::new(5);
    hud.record(&FrameSample { spectrum_seq: 9, ..Default::default() });
    hud.toggle();
    assert!(hud.enabled);
    assert_eq!(hud.frames, 1);
    hud.reset(77);
    assert!(hud.enabled);
    assert_eq!(hud.frames, 0);
    assert_eq!(hud.started, 77);
    assert_eq!(hud.visual, "?");
    assert!(hud.age.is_empty());
}

#[test]
fn the_first_frame_does_not_pollute_the_present_window() {
    let mut hud = Hud::new(0);
    hud.record(&FrameSample { present_dt_ms: 0, ..Default::default() });
    assert!(hud.present_dt.is_empty());
    assert_eq!(hud.cpu_total.samples(), vec![0]);
}

#[test]
fn band_levels_are_summarized_without_what_is_not_finite() {
    let mut hud = Hud::new(0);
    let levels = [0.25f32, f32::NAN, 0.75, 0.5, f32::INFINITY];
    let bands: Vec<Sample> = levels.iter().map(|v| Sample { bits: v.to_bits() }).collect();
    hud.note_bands(&bands);
    assert_eq!(hud.band_min.samples(), vec![250_000_000]);
    assert_eq!(hud.band_med.samples(), vec![500_000_000]);
    assert_eq!(hud.band_max.samples(), vec![750_000_000]);
    hud.note_bands(&[Sample { bits: f32::NAN.to_bits() }]);
    assert_eq!(hud.band_max.samples().len(), 1);
}

// -- text -------------------------------------------------------------------

#[test]
fn white_space_is_what_unicode_says() {
    for u in 0..=0x10FFFFu32 {
        if let Some(c) = char::from_u32(u) {
            assert_eq!(is_blank(c), c.is_whitespace(), "{u:x}");
        }
    }
}

#[test]
fn trimming_matches_the_standard_library() {
    for t in ["", " ", "a", " a b ", "\u{3000}x\u{2003}", "\t\n7\r\n", "no space"] {
        assert_eq!(trim(t), t.trim());
    }
}

#[test]
fn numbers_parse_as_integers_do() {
    for t in ["", "+", "-1", "0", "+4", "007", "4294967295", "4294967296", "1.0", "8 ", "\u{664}"] {
        assert_eq!(parse_number(t, u32::MAX as u64), t.parse::<u32>().ok().map(|v| v as u64));
    }
    assert_eq!(parse_number("18446744073709551615", u64::MAX), Some(u64::MAX));
    assert_eq!(parse_number("18446744073709551616", u64::MAX), None);
}

#[test]
fn decimals_are_written_with_their_places() {
    assert_eq!(decimal_text(12_340_000_000, 2), "12.34");
    assert_eq!(decimal_text(-500_000_000, 1), "-0.5");
    assert_eq!(decimal_text(7_000_000, 3), "0.007");
    assert_eq!(decimal_text(0, 0), "0");
    assert_eq!(decimal_text(i64::MIN as i128 * 1_000_000_000, 0), "-9223372036854775808");
    assert_eq!(decimal_text(i128::MIN, 0), "-170141183460469231731687303716");
}

#[test]
fn decimals_round_as_floats_are_written() {
    // Halves go to the even digit, and a sign survives rounding to nothing.
    for v in [2.5f64, 3.5, 0.5, 1.5, -2.5, -0.5, -0.25, 0.125, 0.375, 1.24, 1.26, 999.999, -0.04] {
        for d in 0..=3u32 {
            let got = decimal_text((v * 1e9).round() as i128, d);
            assert_eq!(got, format!("{:.*}", d as usize, v), "{v} to {d}");
        }
    }
    assert_eq!(decimal_text(2_500_000_000, 0), "2");
    assert_eq!(decimal_text(-40_000_000, 1), "-0.0");
}

#[test]
fn pieces_align() {
    let pieces = vec![
        Piece::Text("a"),
        Piece::Num(12_340_000_000, 2, 7),
        Piece::Right("x", 3),
        Piece::Left(42, 4),
        Piece::Text("|"),
    ];
    assert_eq!(line_text(&pieces), format!("a{:>7.2}{:>3}{:<4}|", 12.34, "x", 42));
}

#[test]
fn the_panel_says_what_was_recorded() {
    let mut hud = Hud::new(1_000_000_000);
    for i in 0..20u64 {
        hud.record(&FrameSample {
            cpu_build_ms: ms(3.25),
            cpu_copy_ms: ms(0.125),
            cpu_submit_ms: ms(1.0),
            wait_ms: ms(12.0),
            lock_wait_ms: ms(0.0625),
            present_dt_ms: ms(16.5),
            spectrum_age_ms: ms(i as f64),
            spectrum_seq: i / 2,
            hop_frames: 700 + i,
            scene_verts: 12_000,
            scene_indices: 36_000,
            visualizer: "Bars",
        });
    }
    hud.push_gpu_ms(ms(2.5));
    hud.count_dropped();
    let info = info();
    let lines = texts(&panel_items(&hud, &info, 3_000_000_000));
    assert_eq!(lines.len(), 28);
    assert_eq!(lines[0], "AUDIO VISUALIZER HUD    F1 HIDE  F2 RESET");
    assert_eq!(lines[1], "VISUAL Bars  PALETTE AURORA");
    assert_eq!(lines[2], "<gap>");
    assert_eq!(
        lines[4],
        format!("CPU     {:>6.2} MS   P99 {:>6.2}  BUDGET {:>5.2}", 4.375, 4.375, 16.5)
    );
    assert_eq!(lines[5], format!("GPU     {:>6.2} MS   MAX {:>6.2}", 2.5, 2.5));
    assert_eq!(lines[6], format!("  OF WHICH VERTEX COPY {:>6.3} MS", 0.125));
    assert_eq!(lines[7], format!("SUBMIT  {:>6.2} MS   UPLOAD+ENCODE", 1.0));
    assert_eq!(lines[11], format!("PRESENT {:>6.2} MS   1% LOW {:>6.2} MS", 16.5, 16.5));
    assert_eq!(
        lines[12],
        format!("FPS     {:>6.1}      1% LOW {:>6.1}", 1000.0 / 16.5, 1000.0 / 16.5)
    );
    assert_eq!(lines[13], format!("REFRESH {:>6.2} MS   DROPPED {:>4}/{:<4}", 16.5, 0, 20));
    assert_eq!(lines[14], "MODE AUTOVSYNC AVAIL FIFO,MAILBOX");
    assert_eq!(lines[15], "<present>");
    assert_eq!(lines[17], format!("HOP RATE {:>6.2} HZ  RENDER {:>6.2} HZ", 5.0, 10.0));
    assert_eq!(lines[18], format!("BEAT {:>6.2} HZ  PERIOD {:>7.2} S", 5.0, 0.2));
    assert_eq!(lines[19], format!("DUP SPECTRA {:>7} ({:>5.2}% OF FRAMES)", 10, 50.0));
    assert_eq!(lines[20], format!("AGE MIN {:>5.1} AVG {:>5.1} MAX {:>5.1} MS", 0.0, 9.5, 19.0));
    assert_eq!(
        lines[21],
        format!(
            "HOP {:>5.0} SMP ({:>4.0}..{:>4.0}) OVERLAP {:>4.1}%",
            709.0,
            700.0,
            718.0,
            (1.0 - 709.0 / 1024.0) * 100.0
        )
    );
    assert_eq!(lines[22], "<age>");
    assert_eq!(lines[24], format!("SCENE VERTS {:>7}  TRIS {:>7}", 12_000, 12_000));
    assert_eq!(
        lines[25],
        format!(
            "HUD  VERTS  {:>7}  UPLOAD {:>5.0} KB/F",
            0,
            (12_000.0 * 24.0 + 36_000.0 * 4.0) / 1024.0
        )
    );
    assert_eq!(lines[26], "MSAA 1X  SUBDIV 10  FEATHER ON");
    assert_eq!(lines[27], "FFT 1024  BANDS 64");
}

#[test]
fn a_blank_panel_names_what_is_missing() {
    let hud = Hud::new(0);
    let mut info = info();
    info.gpu_timing = false;
    info.feathered = false;
    let items = panel_items(&hud, &info, 0);
    let lines = texts(&items);
    assert_eq!(lines[5], "GPU        N/A     (NO TIMESTAMP QUERY)");
    assert_eq!(lines[12], format!("FPS     {:>6.1}      1% LOW {:>6.1}", 0.0, 0.0));
    assert_eq!(lines[18], format!("BEAT {:>6.2} HZ  PERIOD {:>7.2} S", 0.0, 999.99));
    assert_eq!(
        lines[20],
        format!(
            "AGE MIN {:>5.1} AVG {:>5.1} MAX {:>5.1} MS",
            f32::INFINITY,
            0.0,
            f32::NEG_INFINITY
        )
    );
    assert_eq!(lines[26], "MSAA 1X  SUBDIV 10  FEATHER OFF");
    assert!(matches!(items[19], Item::Line(Ink::Good, _)));
}

#[test]
fn the_summary_reports_the_audio_thread_too() {
    let mut hud = Hud::new(0);
    for i in 0..10u64 {
        hud.record(&FrameSample {
            cpu_build_ms: ms(2.0),
            present_dt_ms: ms(20.0),
            spectrum_age_ms: ms(4.0),
            spectrum_seq: i,
            hop_frames: 512,
            scene_verts: 100,
            scene_indices: 300,
            visualizer: "Ridge Bed",
            ..Default::default()
        });
    }
    let probe = ProbeCounts {
        callbacks: 40,
        callback_max_us: 120,
        callback_lock_max_us: 7,
        analysis_passes: 30,
        stale_analyses: 15,
        dropped_windows: 3,
    };
    let lines = texts(&hud.dump(2_000_000_000, &probe));
    assert_eq!(lines.len(), 15);
    assert_eq!(lines[0], "=== HUD SUMMARY  Ridge Bed  (2.0 s) ===");
    assert_eq!(
        lines[1],
        format!("cpu        mean {:6.2} ms  p99 {:6.2} ms   (vertex copy {:.3} ms)", 2.0, 2.0, 0.0)
    );
    assert_eq!(lines[2], "gpu        unavailable (no TIMESTAMP_QUERY)");
    assert_eq!(
        lines[3],
        format!("present    mean {:6.2} ms  1% low {:6.2} ms  refresh {:.2} ms", 20.0, 20.0, 20.0)
    );
    assert_eq!(lines[5], "vsync block  0.00 ms  render lock wait 0.000 ms  dropped 0");
    assert_eq!(
        lines[6],
        "rates      hop 5.00 Hz vs render 5.00 Hz  ->  beat 0.000 Hz (period inf s)"
    );
    assert_eq!(lines[7], "duplicates 0 of 10 frames (0.00%) drew a spectrum already drawn");
    assert_eq!(lines[8], "age        min 4.0  mean 4.0  max 4.0 ms");
    assert_eq!(lines[9], "hop        mean 512 smp  range 512..512  overlap 50.0%");
    assert_eq!(lines[10], "audio cb   40 calls  max 120 us  max lock wait 7 us");
    assert_eq!(lines[11], "analysis   30 passes: 15 stale (50%), 3 with zero overlap (10%)");
    assert_eq!(lines[12], "           distinct spectra 5.0 Hz vs 15 analysis passes/s");
    assert_eq!(
        lines[14],
        format!(
            "geometry   scene {} verts / {} tris   hud {} verts   upload {:.0} KB/frame",
            100,
            100,
            0,
            (100.0 * 24.0 + 300.0 * 4.0) / 1024.0
        )
    );
    hud.push_gpu_ms(ms(3.0));
    let lines = texts(&hud.dump(2_000_000_000, &AudioProbe::new().counts()));
    assert_eq!(lines[2], format!("gpu        mean {:6.2} ms  max {:6.2} ms", 3.0, 3.0));
    assert_eq!(lines[11], "analysis   1 passes: 0 stale (0%), 0 with zero overlap (0%)");
}

// -- drawing ----------------------------------------------------------------

#[test]
fn text_merges_runs_of_lit_pixels() {
    let mut out: Vec<Patch> = Vec::new();
    text_at(&mut out, 0, 0, ONE, "H", [ONE, ONE, ONE, ONE]);
    let mut covered = vec![vec![0; FONT_W]; 7];
    for p in &out {
        assert_eq!(p.y1, p.y0 + 1);
        for x in p.x0..p.x1 {
            covered[p.y0 as usize][x as usize] += 1;
        }
    }
    let g = glyph('H');
    for row in 0..7 {
        for col in 0..FONT_W {
            assert_eq!(covered[row][col] == 1, is_lit(g[row], col));
            assert!(covered[row][col] <= 1);
        }
    }
    // Two stems on six rows, one bar.
    assert_eq!(out.len(), 13);
}

#[test]
fn text_advances_one_cell_per_character() {
    let mut one: Vec<Patch> = Vec::new();
    text_at(&mut one, 10 * ONE, 5 * ONE, 2 * ONE, "I", [ONE, 0, 0, ONE]);
    let mut two: Vec<Patch> = Vec::new();
    text_at(&mut two, 10 * ONE, 5 * ONE, 2 * ONE, " I", [ONE, 0, 0, ONE]);
    assert_eq!(one.len(), two.len());
    for (a, b) in one.iter().zip(two.iter()) {
        assert_eq!((a.x0 + 12, a.x1 + 12, a.y0, a.y1), (b.x0, b.x1, b.y0, b.y1));
    }
}

#[test]
fn strips_draw_a_bar_per_sample() {
    let mut ring = Ring::new();
    for v in [0i64, 5, 10, 40] {
        ring.push(v * ONE);
    }
    let at = Frame { x: 0, y: 0, w: 40 * ONE, h: 20 * ONE };
    let mut out: Vec<Patch> = Vec::new();
    strip(&mut out, at, &ring, 20_000_000_000, 10 * ONE, [0, ONE, 0, ONE]);
    assert_eq!(out.len(), 6);
    assert_eq!((out[0].x0, out[0].y0, out[0].x1, out[0].y1), (0, 0, 40, 20));
    // The reference line at half height.
    assert_eq!((out[1].y0, out[1].y1), (10, 11));
    // Newest at the right, at least a pixel tall, at most full height.
    assert_eq!((out[2].x0, out[2].y0), (0, 19));
    assert_eq!((out[3].x0, out[3].y0), (10, 15));
    assert_eq!((out[4].x0, out[4].y0), (20, 10));
    assert_eq!((out[5].x0, out[5].y0), (30, 0));
    let mut empty: Vec<Patch> = Vec::new();
    strip(&mut empty, at, &Ring::new(), 20_000_000_000, 10 * ONE, [0, ONE, 0, ONE]);
    assert_eq!(empty.len(), 2);
}

#[test]
fn the_overlay_scales_with_the_framebuffer() {
    let hud = Hud::new(0);
    let info = info();
    for (height, scale) in [(1u32, 1i64), (619, 1), (620, 1), (1240, 2), (1859, 2), (1860, 3), (9000, 3)] {
        let patches = layout(&hud, &info, 0, height);
        let p = patches[0];
        assert_eq!(p.color, PANEL_BACK);
        assert_eq!((p.x0, p.y0), (8 * scale, 8 * scale));
        assert_eq!((p.x1, p.y1), (300 * scale, 275 * scale));
    }
}

#[test]
fn drawing_counts_its_own_geometry() {
    let mut hud = Hud::new(0);
    let info = info();
    assert!(info.is_short());
    let mut mesh = MeshBuilder::new(turn);
    mesh.begin(1100, 620);
    hud.draw(&mut mesh, 1100, 620, &info, 0);
    assert_eq!((hud.hud_verts, hud.hud_indices), (0, 0));
    assert!(mesh.vertices().is_empty());

    hud.toggle();
    let patches = layout(&hud, &info, 0, 620).len();
    hud.draw(&mut mesh, 1100, 620, &info, 0);
    assert_eq!(hud.hud_verts, 4 * patches);
    assert_eq!(mesh.vertices().len(), 4 * patches);
    assert_eq!(mesh.indices().len(), 6 * patches);
    assert_eq!(hud.hud_indices, 6 * patches);
    // The panel's top left corner, eight pixels in.
    let v = mesh.vertices()[0];
    assert_eq!(v.position.x, 8 * 2 * ONE / 1100 - ONE);
    assert_eq!(v.position.y, ONE - 8 * 2 * ONE / 620);
    assert_eq!(v.color, [0, 0, 0, 780_000_000]);
}

#[test]
fn characters_look_different() {
    for a in ' '..='_' {
        for b in ' '..='_' {
            assert_eq!(glyph(a) == glyph(b), a == b, "{a:?} {b:?}");
        }
        assert_eq!(glyph(a) == [0u8; 7], a == ' ', "{a:?}");
    }
}

#[test]
fn the_hop_window_follows_the_new_spectra() {
    let mut hud = Hud::new(0);
    for k in 0..2 * HISTORY as u64 {
        // Every other frame repeats its spectrum.
        hud.record(&FrameSample { spectrum_seq: k / 2 + 1, hop_frames: k, ..Default::default() });
        assert_eq!(hud.hop.samples().len() as u64, hud.new_spectra.min(HISTORY as u64));
    }
    assert_eq!(hud.new_spectra, HISTORY as u64);
    assert_eq!(hud.hop.samples()[1], 2 * ONE);
}

#[test]
fn overlap_follows_the_window_size() {
    let mut hud = Hud::new(0);
    let mut info = info();
    let line = |hud: &Hud, info: &StaticInfo| texts(&panel_items(hud, info, 0))[21].clone();
    let want = |mean: f64, lo: f64, hi: f64, size: f64| {
        format!(
            "HOP {:>5.0} SMP ({:>4.0}..{:>4.0}) OVERLAP {:>4.1}%",
            mean,
            lo,
            hi,
            (1.0 - mean / size) * 100.0
        )
    };
    // No window at all: nothing over nothing, then something over nothing.
    info.fft_size = 0;
    assert_eq!(line(&hud, &info), want(0.0, f64::INFINITY, f64::NEG_INFINITY, 0.0));
    hud.record(&FrameSample { spectrum_seq: 1, hop_frames: 256, ..Default::default() });
    assert_eq!(line(&hud, &info), want(256.0, 256.0, 256.0, 0.0));
    for size in [1usize, 100, 256, 1024, 4096] {
        info.fft_size = size;
        assert_eq!(line(&hud, &info), want(256.0, 256.0, 256.0, size as f64));
    }
}
