//! Capture bookkeeping and band grouping.

use audio_processor::bands::{
    average_levels, band_edges, bass_bins, bass_energy, display_range, level_of_db,
    log_band_edges, ratio_of, spaced_edges, update_bands, BAND_ATTACK_TAU, BAND_RELEASE_TAU, FFT_SIZE, MAX_BIN_POS,
    NUM_BINS,
};
use audio_processor::capture::{
    append_newest, deinterleave, window_ready, AudioMetrics, AudioProbe, Schedule,
};
use audio_processor::number::ONE;
use audio_processor::shape::NUM_BANDS;

fn ease(dt: u64, tau: u64) -> i64 {
    ((1.0 - (-(dt as f64) / (tau as f64).max(1e5)).exp()) * 1e9).round() as i64
}

#[test]
fn the_display_covers_the_audible_range() {
    assert_eq!(display_range(48_000), (20 * ONE, 20_000 * ONE));
    assert_eq!(display_range(16_000), (20 * ONE, 7_600 * ONE));
}

#[test]
fn band_edges_are_logarithmic_and_abut() {
    for rate in [8_000u32, 16_000, 44_100, 48_000, 96_000] {
        let edges = log_band_edges(rate);
        assert_eq!(edges.len(), NUM_BANDS);
        let bin_hz = rate as f64 / FFT_SIZE as f64;
        let (lo, hi) = (20.0f64, (20_000.0f64).min(rate as f64 / 2.0 * 0.95));
        for (k, e) in edges.iter().enumerate() {
            assert!(e.0 <= e.1);
            let f = lo * (hi / lo).powf(k as f64 / NUM_BANDS as f64);
            let want = (f / bin_hz).clamp(0.0, NUM_BINS as f64 - 1.001);
            assert!((e.0 as f64 / 1e9 - want).abs() < 1e-4, "{rate} {k}: {} {want}", e.0);
            if k > 0 {
                assert_eq!(edges[k - 1].1, e.0);
            }
        }
    }
}

#[test]
fn low_bands_stay_distinct_within_one_bin() {
    for rate in [1_000u32, 8_000, 44_100, 48_000, 96_000, 192_000] {
        let edges = log_band_edges(rate);
        for w in edges.windows(2) {
            assert!(w[0].0 < w[0].1 && w[0].1 == w[1].0 && w[0] != w[1], "{rate}: {w:?}");
        }
    }
    // Nine bands lie below the second bin.
    let edges = log_band_edges(48_000);
    assert!(edges.iter().filter(|e| e.1 < ONE).count() >= 7);
    // Their levels differ as the spectrum does between the bins they share.
    let mut spectrum = vec![0i64; NUM_BINS];
    spectrum[1] = ONE;
    let mut levels = vec![0i64; NUM_BANDS];
    update_bands(&spectrum, &edges, &mut levels, 1, &|_dt, _tau| ONE);
    for w in levels[..7].windows(2) {
        assert!(w[0] < w[1]);
    }
}

#[test]
fn bands_are_spaced_by_the_ratio() {
    // At 1024 Hz a bin is a hertz wide: 20, 40, 80, 160, 320 and then the limit.
    let edges = spaced_edges(1_024, 2 * ONE as u64);
    assert_eq!(edges.len(), NUM_BANDS);
    assert_eq!(edges[0], (20 * ONE, 40 * ONE));
    assert_eq!(edges[1], (40 * ONE, 80 * ONE));
    assert_eq!(edges[3], (160 * ONE, 320 * ONE));
    assert_eq!(edges[4], (320 * ONE, MAX_BIN_POS));
    assert_eq!(edges[NUM_BANDS - 1], (MAX_BIN_POS, MAX_BIN_POS));
}

#[test]
fn bands_fill_the_display_range() {
    // The largest ratio whose 64 steps from 20 Hz stay at or below 20 kHz.
    let ratio = ratio_of(48_000);
    assert_eq!(ratio, ratio_of(44_100));
    assert!((ratio as f64 / 1e9 - 1000f64.powf(1.0 / 64.0)).abs() < 1e-8);
    let last = log_band_edges(48_000)[NUM_BANDS - 1].1;
    assert!((last as f64 / 1e9 - 20_000.0 * 1024.0 / 48_000.0).abs() < 1e-4);
    assert_eq!(log_band_edges(48_000), spaced_edges(48_000, ratio));
}

#[test]
fn bands_take_any_values_and_rest_without_time() {
    let spectrum = vec![-3 * ONE, 7 * ONE, i64::MAX, i64::MIN];
    let edges = vec![(ONE, ONE), (-5 * ONE, -4 * ONE), (0, i64::MAX)];
    let mut levels = vec![-ONE, 2 * ONE, i64::MIN, 5];
    update_bands(&spectrum, &edges, &mut levels, 0, &|_dt, _tau| ONE);
    assert_eq!(levels, vec![-ONE, 2 * ONE, i64::MIN, 5]);
    update_bands(&spectrum, &edges, &mut levels, 1, &|_dt, _tau| ONE);
    assert_eq!((levels[0], levels[1], levels[3]), (7 * ONE, 0, 5));
    let mut half = vec![ONE];
    update_bands(&spectrum, &edges[..1], &mut half, 1, &|_dt, _tau| ONE / 2);
    assert_eq!(half, vec![4 * ONE]);
}

#[test]
fn edges_are_limited_to_the_spectrum() {
    let edges = band_edges(&vec![0, 10 * ONE, 100_000 * ONE], 48_000);
    assert_eq!(edges, vec![(0, 213_333_333), (213_333_333, MAX_BIN_POS)]);
}

#[test]
fn decibels_map_linearly_onto_levels() {
    assert_eq!(level_of_db(0), ONE);
    assert_eq!(level_of_db(-90 * ONE), 0);
    assert_eq!(level_of_db(-45 * ONE), 500_000_000);
    assert_eq!(level_of_db(-200 * ONE), 0);
    assert_eq!(level_of_db(12 * ONE), ONE);
}

#[test]
fn bands_keep_the_peak_and_interpolate() {
    let mut spectrum = vec![0i64; 16];
    spectrum[4] = ONE;
    // One band spanning the tone, one between two bins, one elsewhere.
    let edges = vec![(3 * ONE, 6 * ONE), (3_500_000_000, 3_500_000_000), (8 * ONE, 9 * ONE)];
    let mut levels = vec![0i64; 3];
    update_bands(&spectrum, &edges, &mut levels, u64::MAX, &|_dt, _tau| ONE);
    assert_eq!(levels, vec![ONE, 500_000_000, 0]);
}

#[test]
fn bands_rise_faster_than_they_fall() {
    let spectrum = vec![ONE; 16];
    let silent = vec![0i64; 16];
    let edges = vec![(2 * ONE, 3 * ONE)];
    let dt = 16_000_000u64;
    let mut levels = vec![0i64];
    update_bands(&spectrum, &edges, &mut levels, dt, &ease);
    assert_eq!(levels[0], ease(dt, BAND_ATTACK_TAU));
    let mut down = vec![ONE];
    update_bands(&silent, &edges, &mut down, dt, &ease);
    assert!((down[0] - (ONE - ease(dt, BAND_RELEASE_TAU))).abs() <= 1);
    assert!(levels[0] > ONE - down[0]);
}

#[test]
fn band_motion_is_frame_rate_independent() {
    let spectrum = vec![800_000_000i64; 16];
    let edges = vec![(2 * ONE, 3 * ONE)];
    let settled = |fps: u64| {
        let mut levels = vec![0i64];
        for _ in 0..fps / 10 {
            update_bands(&spectrum, &edges, &mut levels, 1_000_000_000 / fps, &ease);
        }
        levels[0]
    };
    let (a, b) = (settled(30), settled(120));
    assert!((a - b).abs() < 1_000_000, "{a} {b}");
}

#[test]
fn levels_past_the_last_edge_are_left_alone() {
    let mut levels = vec![0i64, 123];
    update_bands(&[0, 0], &[(0, 0)], &mut levels, 1, &ease);
    assert_eq!(levels[1], 123);
}

#[test]
fn channels_average() {
    assert_eq!(average_levels(&[0, ONE, 3], &[ONE, ONE, 4]), vec![500_000_000, ONE, 3]);
}

#[test]
fn bass_bins_cover_up_to_250_hertz() {
    for rate in [8_000u32, 22_050, 44_100, 48_000, 96_000, 192_000, 500_000] {
        let bin_hz = rate as f32 / FFT_SIZE as f32;
        let hi = (((250.0 / bin_hz).ceil() as usize).max(2)).min(NUM_BINS);
        assert_eq!(bass_bins(rate), (1, hi), "{rate}");
    }
}

#[test]
fn bass_energy_is_the_mean_of_both_channels() {
    let left = vec![ONE, 600_000_000, 200_000_000, 0];
    let right = vec![0, 400_000_000, 0, ONE];
    assert_eq!(bass_energy(&left, &right, 1, 3), 300_000_000);
}

#[test]
fn the_ring_keeps_the_newest() {
    let mut ring: Vec<u32> = Vec::new();
    append_newest(&mut ring, &[1, 2, 3], 4);
    assert_eq!(ring, vec![1, 2, 3]);
    append_newest(&mut ring, &[4, 5], 4);
    assert_eq!(ring, vec![2, 3, 4, 5]);
    append_newest(&mut ring, &[6, 7, 8, 9, 10, 11], 4);
    assert_eq!(ring, vec![8, 9, 10, 11]);
}

#[test]
fn windows_are_ready_once_full() {
    assert!(!window_ready(2047, 2));
    assert!(window_ready(2048, 2));
    assert!(!window_ready(1023, 1));
}

#[test]
fn channels_come_apart() {
    let pcm: Vec<u32> = (0..3 * FFT_SIZE as u32).collect();
    let (l, r) = deinterleave(&pcm, 3);
    assert_eq!((l[0], r[0]), (0, 1));
    assert_eq!((l[1023], r[1023]), (3069, 3070));
    let (l, r) = deinterleave(&pcm, 1);
    assert_eq!(l, r);
}

#[test]
fn only_new_audio_makes_new_content() {
    let mut s = Schedule::new(0);
    let a = s.advance(800, 16);
    assert_eq!((a.seq, a.hop_frames, a.fresh, a.dropped, a.dt), (1, 800, true, false, 16));
    let b = s.advance(800, 32);
    assert_eq!((b.seq, b.hop_frames, b.fresh), (1, 0, false));
    let c = s.advance(1824, 48);
    assert_eq!((c.seq, c.hop_frames, c.dropped), (2, 1024, true));
    let d = s.advance(1000, 40);
    assert_eq!((d.seq, d.hop_frames, d.dt), (2, 0, 0));
}

#[test]
fn the_probe_counts() {
    let probe = AudioProbe::new();
    assert_eq!(probe.note_callback(480, 3, 20), 20);
    assert_eq!(probe.note_callback(480, 9, 10), 20);
    let mut s = Schedule::new(0);
    probe.note_pass(&s.advance(0, 1));
    probe.note_pass(&s.advance(2000, 2));
    let c = probe.counts();
    assert_eq!((c.callbacks, c.callback_max_us, c.callback_lock_max_us), (2, 20, 9));
    assert_eq!((c.analysis_passes, c.stale_analyses, c.dropped_windows), (2, 1, 1));
    probe.reset_maxima();
    let c = probe.counts();
    assert_eq!((c.callbacks, c.callback_max_us, c.callback_lock_max_us), (2, 0, 0));
}

#[test]
fn metrics_start_empty() {
    let m = AudioMetrics::default();
    assert_eq!(m.seq, 0);
    assert!(m.left_spectrum.is_empty() && m.produced_at.is_none());
}
