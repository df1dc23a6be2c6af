//! The numbers behind each visual.

use audio_processor::area::SpectrumArea;
use audio_processor::bands::{Levels, FFT_SIZE, NUM_BINS};
use audio_processor::bars::Bars;
use audio_processor::capture::{Analysis, AudioMetrics, Schedule};
use audio_processor::motion::AutoRange;
use audio_processor::number::{Sample, ONE};
use audio_processor::palette::{ramp, ramp_stops, Palette, Stop};
use audio_processor::radial::RadialBurst;
use audio_processor::ridge::{breath_of, RidgeBed, BREATH_LEVEL, ROWS};
use audio_processor::scope::Oscilloscope;
use audio_processor::shape::{Curves, FrameData, Screen, Shape, Visualizer, NUM_BANDS};

fn fixed(v: f64) -> i64 {
    (v * 1e9).round() as i64
}

fn s(v: f32) -> Sample {
    Sample { bits: v.to_bits() }
}

fn near(a: i64, b: f64) -> bool {
    (a as f64 / 1e9 - b).abs() < 1e-6
}

type Ease = fn(u64, u64) -> i64;
type Bend = fn(i64) -> i64;
type Power = fn(i64, i64) -> i64;

fn ease(dt: u64, tau: u64) -> i64 {
    fixed(1.0 - (-(dt as f64) / (tau as f64).max(1e5)).exp())
}

fn power(level: i64, exponent: i64) -> i64 {
    fixed((level as f64 / 1e9).powf(exponent as f64 / 1e9))
}

// At their lowest, the undulations add nothing.
fn still(_angle: i64) -> i64 {
    -ONE
}

fn saturate(v: i64) -> i64 {
    fixed((v as f64 / 1e9).tanh())
}

fn curves() -> Curves<Ease, Power, Bend, Bend> {
    Curves { ease, power, sine: still, saturate }
}

const SCREEN: Screen = Screen { width: 1200, height: 600 };

struct Audio {
    bands: Vec<Sample>,
    wave: Vec<Sample>,
    stops: Vec<Stop>,
}

impl Audio {
    fn level(v: f32) -> Self {
        Audio {
            bands: vec![s(v); NUM_BANDS],
            wave: (0..FFT_SIZE).map(|i| s((i as f32 * 0.05).sin() * 0.5)).collect(),
            stops: ramp_stops(Palette::Aurora),
        }
    }

    fn frame(&self, bass: f32, time: u64) -> FrameData<'_> {
        FrameData {
            bands: &self.bands,
            left_bands: &self.bands,
            right_bands: &self.bands,
            waveform: &self.wave,
            left_waveform: &self.wave,
            right_waveform: &self.wave,
            bass: s(bass),
            rms: s(0.25),
            time,
            background: [10_000_000, 20_000_000, 30_000_000],
            stops: &self.stops,
        }
    }
}

fn linear(b: u32) -> f64 {
    let v = b as f64 / 255.0;
    if v <= 0.04045 {
        v / 12.92
    } else {
        ((v + 0.055) / 1.055).powf(2.4)
    }
}

#[test]
fn the_ramp_matches_its_stops() {
    let stops: [(f64, u32, f64); 6] = [
        (0.00, 0x2A1258, 0.35),
        (0.22, 0x5E35B1, 0.50),
        (0.45, 0x2979FF, 0.68),
        (0.68, 0x1DE9B6, 0.82),
        (0.88, 0xDCF3FF, 0.95),
        (1.00, 0xFFF0E6, 0.98),
    ];
    let table = ramp_stops(Palette::Aurora);
    for step in 0..=64 {
        for quarter in 0..=4 {
            // Both are exact in single precision.
            let h = step as f64 / 64.0;
            let f = quarter as f64 / 4.0;
            let seg = (0..5).find(|&i| h <= stops[i + 1].0).unwrap();
            let (p0, c0, a0) = stops[seg];
            let (p1, c1, a1) = stops[seg + 1];
            let t = (h - p0) / (p1 - p0);
            let ch = |shift: u32| {
                let a = linear((c0 >> shift) & 0xFF);
                a + (linear((c1 >> shift) & 0xFF) - a) * t
            };
            let warm = (f - 0.5) * 2.0 * 0.12;
            let want = [
                ch(16) * (1.0 + warm) / 1.12,
                ch(8) / 1.12,
                ch(0) * (1.0 - warm) / 1.12,
                a0 + (a1 - a0) * t,
            ];
            let got = ramp(&table, s(h as f32), s(f as f32));
            for k in 0..4 {
                assert!(near(got[k], want[k]), "{h} {f} {k}: {} {}", got[k], want[k]);
            }
        }
    }
}

#[test]
fn the_range_follows_its_envelope() {
    let mut range = AutoRange::new();
    assert_eq!(range.hi, 277_777_777);
    let bands = vec![s(0.75); 3];
    range.update(&bands, 16_000_000, &ease);
    let span = 25.0 / 90.0;
    let up = span + (0.75 - span) * (1.0 - (-0.016f64 / 0.15).exp());
    assert!(near(range.hi, up));
    range.update(&[s(0.0)], 16_000_000, &ease);
    let down = up + (0.0 - up) * (1.0 - (-0.016f64 / 2.5).exp());
    assert!(near(range.hi, down));
    assert!(near(range.apply(s(0.25)), ((0.25 - (down - span)) / span).clamp(0.0, 1.0)));
    assert_eq!(range.apply(s(f32::NAN)), 0);
    assert_eq!(range.apply(s(f32::INFINITY)), 0);
}

#[test]
fn bars_have_columns_and_markers() {
    let curves = curves();
    let loud = Audio::level(0.9);
    let mut vis = Bars::new();
    let shapes = vis.draw(&loud.frame(0.5, 0), SCREEN, &curves);
    assert_eq!(shapes.len(), NUM_BANDS);
    match &shapes[10] {
        Shape::Stroke { pts, width, additive, colors } => {
            assert_eq!((pts.len(), colors.len(), *additive), (25, 25, false));
            let x0 = -1.0 + 10.0 * 2.0 / 64.0;
            assert!(near(pts[0].x, x0 + 0.5 * 0.82 * 2.0 / 64.0));
            assert!(near(pts[0].y, -0.9) && near(pts[24].y, 0.9) && near(pts[12].y, 0.0));
            assert!(near(*width, 0.82 * 2.0 / 64.0 * 2.0 * 600.0 * 0.5));
            assert_eq!(colors[12], ramp(&loud.stops, s(0.0), Sample { bits: f32_of(10) }));
        }
        _ => panic!("a loud bar is a column"),
    }
    // A moment later it is silent: a pill, and two markers falling.
    let quiet = Audio::level(0.0);
    let shapes = vis.draw(&quiet.frame(0.5, 50_000_000), SCREEN, &curves);
    assert_eq!(shapes.len(), 3 * NUM_BANDS);
    let px = 2.0 / 600.0;
    match (&shapes[0], &shapes[1], &shapes[2]) {
        (
            Shape::RoundRect { y0, y1, .. },
            Shape::RoundRect { y0: up0, y1: up1, .. },
            Shape::RoundRect { y0: down0, y1: down1, .. },
        ) => {
            assert!(near(*y1, 1.5 * px) && *y0 == -*y1);
            let top = (1.0 - 0.36 * 0.05) * 0.9;
            assert!(near(*up0, top) && near(*up1, top + 3.0 * px));
            assert!(near(*down1, -top) && near(*down0, -top - 3.0 * px));
        }
        _ => panic!("a silent bar is a pill with markers"),
    }
}

/// Bits of a frequency position that reads back to the bar's own.
fn f32_of(i: i64) -> u32 {
    let want = i * ONE / 63;
    let mut v = (want as f64 / 1e9) as f32;
    while s(v).to_fixed() < want {
        v = f32::from_bits(v.to_bits() + 1);
    }
    v.to_bits()
}

#[test]
fn silence_breathes_at_two_rates() {
    assert_eq!(breath_of(ONE, ONE), BREATH_LEVEL);
    assert_eq!(breath_of(-ONE, -ONE), 0);
    assert_eq!(breath_of(0, 0), BREATH_LEVEL / 2);
    assert_eq!(breath_of(ONE, -ONE), 33_000_000);
    assert_eq!(breath_of(i64::MAX, i64::MIN), 33_000_000);
    let sine = |angle: i64| fixed((angle as f64 / 1e9).sin());
    for (band, time) in [(0usize, 0u64), (7, 1_250_000_000), (63, 4_000_000_000_000)] {
        let (t, tau) = (time as f64 / 1e9, std::f64::consts::TAU);
        let phase = band as f64 * 0.19;
        let a = (t * 0.07 * tau + phase).sin();
        let b = (t * 0.11 * tau + phase * 1.7).sin();
        assert!(near(RidgeBed::breath(band, time, &sine), ((a * 0.6 + b * 0.4) * 0.5 + 0.5) * 0.055));
    }
}

#[test]
fn ridges_scroll_on_a_schedule() {
    let curves = curves();
    let audio = Audio::level(0.5);
    let mut vis = RidgeBed::new();
    let shapes = vis.draw(&audio.frame(0.5, 0), SCREEN, &curves);
    assert_eq!((vis.history.len(), shapes.len()), (1, 2));
    vis.draw(&audio.frame(0.5, 49_000_000), SCREEN, &curves);
    assert_eq!(vis.history.len(), 1);
    vis.draw(&audio.frame(0.5, 50_000_000), SCREEN, &curves);
    assert_eq!(vis.history.len(), 2);
    for step in 2..60u64 {
        vis.draw(&audio.frame(0.5, step * 50_000_000), SCREEN, &curves);
    }
    assert_eq!(vis.history.len(), ROWS);
    let shapes = vis.draw(&audio.frame(0.5, 3_000_000_000), SCREEN, &curves);
    assert_eq!(shapes.len(), 2 * ROWS);
    // The oldest row is squeezed, thin and high; the newest is neither, and glows.
    match (&shapes[0], &shapes[1], &shapes[2 * ROWS - 2], &shapes[2 * ROWS - 1]) {
        (
            Shape::Fill { pts, baseline, colors },
            Shape::Stroke { width, .. },
            Shape::Fill { pts: near_pts, baseline: near_base, .. },
            Shape::Glow { width: near_width, layers, .. },
        ) => {
            assert!(near(pts[0].x, -0.72) && near(*baseline, 0.32 - 0.08));
            assert_eq!(colors[0], [10_000_000, 20_000_000, 30_000_000, ONE]);
            assert!(near(*width, 1.3));
            assert!(near(near_pts[0].x, -1.0) && near(*near_base, 0.32 - 29.0 * 0.04 - 0.08));
            assert!(near(*near_width, 2.6));
            assert_eq!(*layers, 2);
        }
        _ => panic!("rows are a fill and a line"),
    }
}

#[test]
fn ridge_heights_follow_the_smooth_step() {
    for step in 0..=64 {
        let v = step as f64 / 64.0;
        let want = 0.012 + (0.62 - 0.012) * (v * v * (3.0 - 2.0 * v));
        assert!(near(RidgeBed::ridge_height(s(v as f32)), want));
    }
}

#[test]
fn rows_are_tilted_stretched_and_bent() {
    let curves = curves();
    let mut vis = RidgeBed::new();
    let row = vis.shape_row(&vec![s(0.1875); NUM_BANDS], 0, 0, &curves);
    let span = 25.0 / 90.0;
    for (i, v) in row.iter().enumerate() {
        let octave = i as f64 / 63.0 * 9.97;
        let raw = 0.1875 * (1.0 + 2.2 * octave / 90.0);
        let want = (raw / span).clamp(0.0, 1.0).powf(0.65);
        assert!((*v as f64 / 1e9 - want).abs() < 1e-5, "{i}: {v} {want}");
    }
    // Missing and unusable bands are silent.
    let row = vis.shape_row(&[s(f32::NAN)], 0, 0, &curves);
    assert!(row.iter().all(|&v| v == 0));
}

#[test]
fn areas_are_slabs_a_reflection_and_a_crest() {
    let curves = curves();
    let audio = Audio::level(0.9);
    for (height, slabs) in [(40u32, 12usize), (100, 19), (200, 38), (600, 60)] {
        let mut vis = SpectrumArea::new();
        let screen = Screen { width: 1200, height };
        let shapes = vis.draw(&audio.frame(0.5, 0), screen, &curves);
        assert_eq!(shapes.len(), slabs + 8 + 1, "{height}");
        match (&shapes[0], &shapes[slabs], &shapes[slabs + 8]) {
            (
                Shape::Fill { pts, baseline, .. },
                Shape::Fill { baseline: mirror, colors, .. },
                Shape::Glow { pts: crest, width, layers, .. },
            ) => {
                // A flat silhouette costs two columns.
                assert_eq!(pts.len(), 2);
                assert_eq!((*baseline, *mirror), (-750_000_000, -750_000_000));
                assert!(near(pts[0].y, -0.75 + 1.5 / slabs as f64));
                assert!(colors[0][3] < 280_000_000);
                assert_eq!((crest.len(), *width, *layers), (63 * 4 + 1, 2 * ONE, 2));
                assert!(near(crest[0].y, 0.75));
            }
            _ => panic!("slabs, then the crest"),
        }
    }
}

#[test]
fn bursts_turn_and_swell_with_the_bass() {
    let curves = curves();
    let audio = Audio::level(0.9);
    let mut vis = RadialBurst::new();
    vis.draw(&audio.frame(1.0, 0), SCREEN, &curves);
    let shapes = vis.draw(&audio.frame(1.0, 50_000_000), SCREEN, &curves);
    assert!(near(vis.rotation, (0.09 + 0.24) * 0.05));
    assert_eq!(shapes.len(), 2 * NUM_BANDS + 1);
    let turn = (0.09 + 0.24) * 0.05;
    match (&shapes[126], &shapes[127], &shapes[128]) {
        (
            Shape::Spoke { inner, reach, angle, width, colors },
            Shape::Spoke { angle: other, .. },
            Shape::Ring { r, width: ring, .. },
        ) => {
            assert!(near(*inner, 0.3) && near(*reach, 0.62));
            assert!(near(*angle, turn + std::f64::consts::PI));
            assert!(near(*other, turn - std::f64::consts::PI));
            let pitch = std::f64::consts::TAU * 0.3 / 64.0 * 600.0 * 0.5;
            assert!(near(*width, (pitch * 0.72).clamp(2.0, 14.0)));
            assert_eq!(colors.len(), 7);
            assert!(near(*r, 0.28) && *ring == 2 * ONE);
        }
        _ => panic!("spokes, then the hub"),
    }
}

#[test]
fn traces_ride_the_signal_level() {
    let curves = curves();
    let mut audio = Audio::level(0.5);
    // A step up at sample 100: the trigger anchors there.
    audio.wave = (0..1024).map(|i| s(if i < 100 { -0.125 } else { 0.125 })).collect();
    let mut vis = Oscilloscope::new();
    let shapes = vis.draw(&audio.frame(0.5, 0), SCREEN, &curves);
    assert_eq!(shapes.len(), 2);
    assert_eq!(vis.pts.len(), 320);
    let gain = 1.6 / 0.25f64.sqrt();
    let want = (0.125 * gain).tanh() * 0.92;
    assert!(vis.pts.iter().all(|p| near(p.y, want)));
    assert_eq!((vis.pts[0].x, vis.pts[319].x), (-ONE, ONE));
    // Too short a window draws nothing.
    audio.wave.truncate(63);
    assert!(vis.draw(&audio.frame(0.5, 0), SCREEN, &curves).is_empty());
}

#[test]
fn published_metrics_hold_the_analysis() {
    let mut m = AudioMetrics::default();
    let pass = Schedule::new(0).advance(480, 16_000_000);
    let mut left = vec![0i64; NUM_BINS];
    left[1] = ONE;
    let right = vec![ONE / 2; NUM_BINS];
    let a = Analysis {
        left_spectrum: left,
        right_spectrum: right,
        left_rms: s(0.5),
        right_rms: s(0.25),
        waveform: vec![s(0.1)],
        left_waveform: vec![s(0.2)],
        right_waveform: vec![s(0.3)],
    };
    m.publish(a, &pass, (1, 3), 99);
    assert_eq!((m.seq, m.hop_frames, m.analysis_dt, m.produced_at), (1, 480, 16_000_000, Some(99)));
    assert_eq!(m.bass_energy, ONE / 2);
    assert_eq!(m.right_waveform, vec![s(0.3)]);
}

#[test]
fn levels_wait_for_the_first_spectrum() {
    let edges = vec![(ONE, 2 * ONE); NUM_BANDS];
    let mut levels = Levels::new();
    levels.update(&[], &[], &edges, 1_000_000, &ease);
    assert!(levels.average.iter().all(|&v| v == 0));
    levels.update(&[ONE; 8], &[0; 8], &edges, u64::MAX, &|_dt, _tau| ONE);
    assert!(levels.left.iter().all(|&v| v == ONE));
    assert!(levels.right.iter().all(|&v| v == 0));
    assert!(levels.average.iter().all(|&v| v == ONE / 2));
}

#[test]
fn traces_flatten_under_a_boundless_level() {
    let curves = curves();
    let audio = Audio::level(0.5);
    for rms in [f32::INFINITY, f32::MAX, 1e30] {
        let mut vis = Oscilloscope::new();
        let mut frame = audio.frame(0.5, 0);
        frame.rms = s(rms);
        vis.draw(&frame, SCREEN, &curves);
        assert!(vis.pts.iter().all(|p| p.y == 0), "{rms}");
    }
    // What is not a number reads as quiet, like a level of zero.
    for rms in [f32::NAN, f32::NEG_INFINITY, -1.0, 0.0] {
        let mut vis = Oscilloscope::new();
        let mut frame = audio.frame(0.5, 0);
        frame.rms = s(rms);
        vis.draw(&frame, SCREEN, &curves);
        let peak = vis.pts.iter().map(|p| p.y).max().unwrap();
        assert!(peak > 900_000_000, "{rms}: {peak}");
    }
    // A large level still leaves its own gain.
    let mut vis = Oscilloscope::new();
    let mut frame = audio.frame(0.5, 0);
    frame.rms = s(1e12);
    vis.draw(&frame, SCREEN, &curves);
    let peak = vis.pts.iter().map(|p| p.y).max().unwrap();
    assert!(near(peak, (0.5 * 1.6e-6f64).tanh() * 0.92), "{peak}");
}
