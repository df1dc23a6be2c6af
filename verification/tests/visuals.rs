//! Every visual, driven over runs of frames, and the shapes they share.

use audio_processor::area::SpectrumArea;
use audio_processor::bands::FFT_SIZE;
use audio_processor::bars::{Bars, PEAK_MAX};
use audio_processor::mesh::MeshBuilder;
use audio_processor::motion::{smoothstep, AutoRange, Clock, DT_CEILING};
use audio_processor::number::{Sample, ONE};
use audio_processor::palette::{ramp as ramp_of, ramp_stops, Palette, Stop};
use audio_processor::radial::RadialBurst;
use audio_processor::ridge::{
    RidgeBed, AMP, MAX_RIDGE, MIN_RIDGE, RIDGE_TOP, ROWS, ROW_SPACING, SAFE_TOP,
    VERTEX_TOP,
};
use audio_processor::scope::{Oscilloscope, Vectorscope};
use audio_processor::shape::{
    Curves, FrameData, Screen, Visualizer, NUM_BANDS, TRIANGLE_BUDGET, VERTEX_BUDGET,
};
use audio_processor::spline::Point;
use audio_processor::visuals::{all, draw_into, Visual};
use std::time::Instant;

fn fixed(v: f64) -> i64 {
    (v * 1e9).round() as i64
}

fn unit(v: i64) -> f32 {
    (v as f64 / 1e9) as f32
}

fn s(v: f32) -> Sample {
    Sample { bits: v.to_bits() }
}

fn ns(seconds: f32) -> u64 {
    (seconds as f64 * 1e9).round() as u64
}

fn turn(angle: i64) -> Point {
    let (sin, cos) = (angle as f64 / 1e9).sin_cos();
    Point { x: fixed(cos), y: fixed(sin) }
}

fn ease(dt: u64, tau: u64) -> i64 {
    fixed(1.0 - (-(dt as f64) / (tau as f64).max(1e5)).exp())
}

fn power(level: i64, exponent: i64) -> i64 {
    fixed((level as f64 / 1e9).max(0.0).powf(exponent as f64 / 1e9))
}

fn sine(angle: i64) -> i64 {
    fixed((angle as f64 / 1e9).sin())
}

fn saturate(v: i64) -> i64 {
    fixed((v as f64 / 1e9).tanh())
}

type Ease = fn(u64, u64) -> i64;
type Bend = fn(i64) -> i64;
type Power = fn(i64, i64) -> i64;

fn curves() -> Curves<Ease, Power, Bend, Bend> {
    Curves { ease, power, sine, saturate }
}

fn stops() -> Vec<Stop> {
    ramp_stops(Palette::Aurora)
}

fn samples(values: &[f32]) -> Vec<Sample> {
    values.iter().map(|&v| s(v)).collect()
}

fn frame_at<'a>(
    bands: &'a [Sample],
    waveform: &'a [Sample],
    stops: &'a [Stop],
    time: f32,
) -> FrameData<'a> {
    FrameData {
        bands,
        left_bands: bands,
        right_bands: bands,
        waveform,
        left_waveform: waveform,
        right_waveform: waveform,
        bass: s(0.5),
        rms: s(0.2),
        time: ns(time),
        background: [20_000_000, 20_000_000, 50_000_000],
        stops,
    }
}

/// Drive every visual over a run of frames and check what it emits.
fn exercise(signal: impl Fn(usize, usize) -> f32, width_px: u32, height_px: u32) {
    let mut mesh = MeshBuilder::new(turn);
    let stops = stops();
    let curves = curves();

    for mut vis in all() {
        let mut produced = 0usize;

        for frame_idx in 0..12 {
            let bands: Vec<f32> = (0..NUM_BANDS).map(|b| signal(frame_idx, b)).collect();
            let waveform: Vec<f32> = (0..FFT_SIZE)
                .map(|i| (i as f32 * 0.05 + frame_idx as f32).sin() * 0.5)
                .collect();
            let bands = samples(&bands);
            let waveform = samples(&waveform);

            mesh.begin(width_px, height_px);
            let frame = frame_at(&bands, &waveform, &stops, frame_idx as f32 / 60.0);
            draw_into(&mut vis, &frame, &curves, &mut mesh);

            for v in mesh.vertices() {
                assert!(
                    v.color.iter().all(|c| (0..=ONE).contains(c)),
                    "{} emitted a color out of range: {:?}",
                    vis.name(),
                    v.color
                );
                assert!(
                    v.position.x.abs() < 100_000 * ONE && v.position.y.abs() < 100_000 * ONE,
                    "{} emitted a runaway vertex: {:?}",
                    vis.name(),
                    v.position
                );
            }

            let n = mesh.vertices().len() as u32;
            for &i in mesh.indices() {
                assert!(i < n, "{} emitted index {} past {} vertices", vis.name(), i, n);
            }
            assert_eq!(mesh.indices().len() % 3, 0, "{} emitted a partial triangle", vis.name());

            produced += mesh.vertices().len();
        }

        assert!(produced > 0, "{} never emitted any geometry", vis.name());
    }
}

#[test]
fn visualizers_handle_normal_audio() {
    exercise(|f, b| (b as f32 * 0.2 + f as f32 * 0.3).sin() * 0.5 + 0.5, 1600, 900);
}

#[test]
fn visualizers_handle_silence() {
    exercise(|_, _| 0.0, 1600, 900);
}

/// Levels are clamped downstream, but a visual shouldn't blow up if the
/// smoothing ever hands it something outside 0..1.
#[test]
fn visualizers_handle_out_of_range_levels() {
    exercise(|_, b| if b % 2 == 0 { 1.8 } else { -0.4 }, 900, 900);
}

/// Aspect 0.15 (tall and narrow) and 3.0 (wide and short).
#[test]
fn visualizers_handle_extreme_aspect() {
    exercise(|_, b| b as f32 / NUM_BANDS as f32, 150, 1000);
    exercise(|_, b| b as f32 / NUM_BANDS as f32, 3000, 1000);
}

#[test]
fn visualizers_survive_levels_that_are_not_numbers() {
    exercise(
        |f, b| match (f + b) % 3 {
            0 => f32::NAN,
            1 => f32::INFINITY,
            _ => f32::NEG_INFINITY,
        },
        1100,
        620,
    );
}

// -- ramp -------------------------------------------------------------------

fn ramp(h: f32, f: f32) -> [f32; 4] {
    let c = ramp_of(&stops(), s(h), s(f));
    [unit(c[0]), unit(c[1]), unit(c[2]), unit(c[3])]
}

fn luminance(c: [f32; 4]) -> f32 {
    0.2126 * c[0] + 0.7152 * c[1] + 0.0722 * c[2]
}

#[test]
fn ramp_is_finite_and_in_range_over_the_whole_domain() {
    let probes = [
        f32::NEG_INFINITY,
        -1e9,
        -0.5,
        0.0,
        0.37,
        0.88,
        1.0,
        1.7,
        1e9,
        f32::INFINITY,
        f32::NAN,
    ];
    for &h in &probes {
        for &f in &probes {
            let c = ramp(h, f);
            assert!(
                c.iter().all(|v| v.is_finite()),
                "ramp({h}, {f}) produced a non-finite component: {c:?}"
            );
            assert!(
                c.iter().all(|v| (0.0..=1.0).contains(v)),
                "ramp({h}, {f}) escaped 0..1: {c:?}"
            );
        }
    }
}

/// A dark band in the middle of a gradient is the single most common reason
/// one reads badly, so luminance must never decrease with height.
#[test]
fn ramp_is_monotone_in_luminance_and_alpha() {
    for &f in &[-0.5, 0.0, 0.25, 0.5, 0.75, 1.0, 1.5] {
        let mut prev_lum = f32::NEG_INFINITY;
        let mut prev_alpha = f32::NEG_INFINITY;
        for step in 0..=400 {
            // Deliberately sweeps outside 0..1 at both ends.
            let h = -0.5 + step as f32 * (2.0 / 400.0);
            let c = ramp(h, f);
            let lum = luminance(c);
            assert!(
                lum >= prev_lum - 1e-5,
                "luminance fell from {prev_lum} to {lum} at height {h}, freq {f}"
            );
            assert!(
                c[3] >= prev_alpha - 1e-5,
                "alpha fell from {prev_alpha} to {} at height {h}, freq {f}",
                c[3]
            );
            prev_lum = lum;
            prev_alpha = c[3];
        }
    }
}

#[test]
fn ramp_base_is_dim_and_tip_is_bright() {
    let base = ramp(0.0, 0.5);
    let tip = ramp(1.0, 0.5);
    assert!(base[3] < 0.4, "base alpha {} should be dim", base[3]);
    assert!(tip[3] > 0.9, "tip alpha {} should be near opaque", tip[3]);
    assert!(luminance(tip) > luminance(base) * 20.0, "tip should be far brighter than base");
}

/// Frequency must only modulate. If it dominated, two bars at the same
/// height but different bands would read as unrelated colors.
#[test]
fn frequency_only_modulates_the_ramp() {
    for step in 0..=20 {
        let h = step as f32 / 20.0;
        let cool = luminance(ramp(h, 0.0));
        let warm = luminance(ramp(h, 1.0));
        let mid = luminance(ramp(h, 0.5));
        assert!(
            (warm - cool).abs() <= 0.02 + mid * 0.30,
            "freq shifted luminance by {} at height {h}; it should only tilt hue",
            (warm - cool).abs()
        );
    }
}

#[test]
fn every_palette_is_monotone_in_luminance_and_alpha() {
    for palette in [Palette::Aurora, Palette::Sunset, Palette::Glacial] {
        let stops = ramp_stops(palette);
        assert_eq!(stops.len(), 6);
        for w in stops.windows(2) {
            let lum = |x: &Stop| {
                2126 * x.rgb[0] as i128 + 7152 * x.rgb[1] as i128 + 722 * x.rgb[2] as i128
            };
            assert!(w[0].pos < w[1].pos);
            assert!(w[0].alpha <= w[1].alpha);
            assert!(lum(&w[0]) < lum(&w[1]), "{} darkens", palette.name());
        }
    }
}

#[test]
fn palettes_cycle_and_have_names() {
    assert_eq!(Palette::Aurora.next(), Palette::Sunset);
    assert_eq!(Palette::Aurora.next().next().next(), Palette::Aurora);
    assert_eq!(Palette::Aurora.name(), "AURORA");
    assert_eq!(Palette::Sunset.name(), "SUNSET");
    assert_eq!(Palette::Glacial.name(), "GLACIAL");
}

// -- ridge dynamics ---------------------------------------------------------

#[test]
fn ridge_height_stays_within_bounds_for_every_input() {
    let mut probes: Vec<f32> = (0..=300).map(|i| -1.0 + i as f32 / 100.0).collect();
    probes.extend_from_slice(&[f32::NAN, f32::INFINITY, f32::NEG_INFINITY, 1e9, -1e9]);

    for &p in &probes {
        let h = RidgeBed::ridge_height(s(p));
        assert!(
            (MIN_RIDGE..=MAX_RIDGE).contains(&h),
            "ridge_height({p}) = {h} escaped {MIN_RIDGE}..={MAX_RIDGE}"
        );
    }
    // Silence still breathes; full scale still reaches the ceiling.
    assert_eq!(RidgeBed::ridge_height(s(0.0)), MIN_RIDGE);
    assert!((unit(RidgeBed::ridge_height(s(1.0))) - unit(MAX_RIDGE)).abs() < 1e-6);
}

#[test]
fn ridge_layout_leaves_headroom_at_the_top() {
    assert!(
        RIDGE_TOP + MAX_RIDGE <= SAFE_TOP,
        "a peak on the top row reaches {}, past the {SAFE_TOP} safe margin",
        RIDGE_TOP + MAX_RIDGE
    );
    // Rows must overlap or the bed reads as a stack of separate lines.
    assert_eq!(ROW_SPACING * ROWS as i64, 1_200_000_000);
    assert!(
        AMP > 5 * ROW_SPACING,
        "overlap ratio {} is too low for the layered look",
        AMP / ROW_SPACING
    );
}

/// The margin must hold at any aspect, since ridge height is a pure NDC-y
/// quantity and must not pick up an aspect dependency.
#[test]
fn ridge_peaks_never_escape_the_safe_margin() {
    // Round caps and the feathered fringe extend a couple of pixels past
    // the polyline vertices; at 620 px tall that is well under 0.02 NDC.
    let tolerance = 20_000_000;
    let stops = stops();
    let curves = curves();

    for (w, h) in [(150, 1000), (3000, 1000), (1100, 620)] {
        for signal in [0.0f32, 0.5, 1.8] {
            let mut vis = Visual::RidgeBed(RidgeBed::new());
            let mut mesh = MeshBuilder::new(turn);
            let bands = samples(&vec![signal; NUM_BANDS]);
            let waveform = samples(&vec![0.0f32; FFT_SIZE]);

            for step in 0..90 {
                mesh.begin(w, h);
                let frame = frame_at(&bands, &waveform, &stops, step as f32 * 0.05);
                draw_into(&mut vis, &frame, &curves, &mut mesh);

                for v in mesh.vertices() {
                    assert!(
                        v.position.y <= SAFE_TOP + tolerance,
                        "ridge vertex reached y={} at {w}x{h} with level {signal}",
                        v.position.y
                    );
                }
            }
        }
    }
}

#[test]
fn shaped_levels_stay_normalized_for_silence_and_clipping() {
    let curves = curves();
    for signal in [0.0f32, 0.25, 1.0, 1.8, -0.4] {
        let mut vis = RidgeBed::new();
        let bands = samples(&vec![signal; NUM_BANDS]);
        let mut row: Vec<i64> = Vec::new();
        for step in 0..60 {
            row = vis.shape_row(&bands, ns(0.05), ns(step as f32 * 0.05), &curves);
            for (i, &v) in row.iter().enumerate() {
                assert!((0..=ONE).contains(&v), "band {i} shaped to {v} for input {signal}");
            }
        }
        // The normalization floor is what stops silence from being scaled
        // up into full-height noise.
        if signal <= 0.0 {
            let peak = row.iter().fold(0.0f32, |a, &b| a.max(unit(b)));
            assert!(peak < 0.85, "silence normalized up to {peak}; the floor is not holding");
        }
    }
}

/// The distribution measured on real material through the HUD:
/// min 0.20, median 0.71, p90 0.81, max 0.83.
fn measured_bands() -> Vec<Sample> {
    (0..NUM_BANDS)
        .map(|i| {
            s(match i {
                0..=5 => 0.20 + i as f32 * 0.02,
                6..=31 => 0.55 + (i - 6) as f32 * 0.006,
                _ => 0.71 + ((i - 32) as f32 / 31.0) * 0.12,
            })
        })
        .collect()
}

fn settle(range: &mut AutoRange, bands: &[Sample], seconds: f32) {
    let dt = 1.0 / 60.0;
    for _ in 0..((seconds / dt) as usize) {
        range.update(bands, ns(dt), &ease);
    }
}

#[test]
fn auto_range_spreads_the_measured_distribution() {
    let bands = measured_bands();
    let mut range = AutoRange::new();
    settle(&mut range, &bands, 5.0);

    let loudest = unit(range.apply(s(0.83)));
    let median = unit(range.apply(s(0.71)));
    let quiet = unit(range.apply(s(0.20)));

    assert!(loudest > 0.9, "loudest band only reached {loudest}");
    assert!(
        (0.35..0.75).contains(&median),
        "median band landed at {median}; it should sit near the middle, \
         not bunched against the top"
    );
    assert_eq!(quiet, 0.0, "the dead bottom of the range should clamp away");
    // The whole point: the spread must be far wider than the raw 0.12.
    assert!(loudest - median > 0.3, "loudest and median differ by only {}", loudest - median);
}

#[test]
fn auto_range_keeps_silence_dark() {
    let mut range = AutoRange::new();
    settle(&mut range, &vec![s(0.0); NUM_BANDS], 10.0);
    assert_eq!(range.apply(s(0.0)), 0, "silence must not be stretched up to full scale");
}

/// The envelope is a time-constant filter, so where it settles must not
/// depend on how many frames it took to get there.
#[test]
fn auto_range_is_frame_rate_independent() {
    let bands = measured_bands();
    let settled = |fps: f32| {
        let mut range = AutoRange::new();
        let dt = 1.0 / fps;
        for _ in 0..(fps as usize * 3) {
            range.update(&bands, ns(dt), &ease);
        }
        unit(range.apply(s(0.71)))
    };
    let (a, b, c) = (settled(30.0), settled(60.0), settled(144.0));
    assert!(
        (a - b).abs() < 0.01 && (b - c).abs() < 0.01,
        "auto-range diverged across frame rates: 30={a} 60={b} 144={c}"
    );
}

/// The spectral tilt must actually lift the treble end, or the right-hand
/// side of every ridge stays a flat line.
#[test]
fn spectral_tilt_lifts_the_treble_end() {
    let low = unit(RidgeBed::tilt_lift(0));
    let high = unit(RidgeBed::tilt_lift(NUM_BANDS - 1));
    assert!(low.abs() < 1e-6, "lowest band should not be tilted");
    assert!(high > 0.15 && high < 0.4, "top band lift {high} is outside the useful range");
    for i in 1..NUM_BANDS {
        assert!(
            RidgeBed::tilt_lift(i) >= RidgeBed::tilt_lift(i - 1),
            "tilt must rise monotonically with frequency"
        );
    }
    // 2.2 dB per octave over 9.97 octaves of a 90 dB range.
    assert!((high - 2.2 * 9.97 / 90.0).abs() < 1e-5);
}

/// Motion is integrated against the frame's time, so the same elapsed time must
/// produce the same state at any frame rate.
#[test]
fn peak_decay_is_frame_rate_independent() {
    let stops = stops();
    let curves = curves();
    let settled = |fps: f32| {
        let mut vis = Visual::Bars(Bars::new());
        let mut mesh = MeshBuilder::new(turn);
        let waveform = samples(&vec![0.0f32; FFT_SIZE]);
        let steps = fps as usize; // one second of frames
        for step in 0..=steps {
            // A single loud frame, then silence for the rest of the second.
            let level = if step == 0 { 1.0 } else { 0.0 };
            let bands = samples(&vec![level; NUM_BANDS]);
            mesh.begin(1100, 620);
            let frame = frame_at(&bands, &waveform, &stops, step as f32 / fps);
            draw_into(&mut vis, &frame, &curves, &mut mesh);
        }
        match vis {
            Visual::Bars(bars) => bars.peaks[0] as f32 / PEAK_MAX as f32,
            _ => unreachable!(),
        }
    };

    let a = settled(30.0);
    let b = settled(60.0);
    let c = settled(144.0);
    assert!(
        (a - b).abs() < 0.02 && (b - c).abs() < 0.02,
        "peak decay diverged across frame rates: 30={a} 60={b} 144={c}"
    );
}

/// Geometry of each visual stays within the per-frame budgets. Timing is printed
/// but not asserted: it depends on the machine.
#[test]
fn geometry_build_cost() {
    let bands: Vec<f32> =
        (0..NUM_BANDS).map(|b| ((b as f32) * 0.37).sin() * 0.5 + 0.5).collect();
    let waveform: Vec<f32> = (0..1024).map(|i| (i as f32 * 0.05).sin() * 0.5).collect();
    let bands = samples(&bands);
    let waveform = samples(&waveform);
    let stops = stops();
    let curves = curves();

    let make = |t: f32| FrameData {
        bands: &bands,
        left_bands: &bands,
        right_bands: &bands,
        waveform: &waveform,
        left_waveform: &waveform,
        right_waveform: &waveform,
        bass: s(0.4),
        rms: s(0.2),
        time: ns(t),
        background: [20_000_000, 20_000_000, 50_000_000],
        stops: &stops,
    };

    for mut vis in all() {
        let mut mesh = MeshBuilder::new(turn);
        // Warm up cross-frame state.
        for i in 0..128 {
            mesh.begin(1100, 620);
            draw_into(&mut vis, &make(i as f32 / 60.0), &curves, &mut mesh);
        }

        let iters = 200;
        let start = Instant::now();
        for i in 0..iters {
            mesh.begin(1100, 620);
            draw_into(&mut vis, &make((128 + i) as f32 / 60.0), &curves, &mut mesh);
        }
        let per_frame = start.elapsed().as_secs_f64() * 1000.0 / iters as f64;
        let verts = mesh.vertices().len();
        let tris = mesh.indices().len() / 3;
        println!(
            "{:<15} {:>8.3} ms/frame  {:>7} verts  {:>7} tris  {:>6.0} KB/frame",
            vis.name(),
            per_frame,
            verts,
            tris,
            (verts as f32 * 24.0 + mesh.indices().len() as f32 * 4.0) / 1024.0
        );
        assert!(
            verts <= VERTEX_BUDGET,
            "{} emits {verts} vertices, over the {VERTEX_BUDGET} budget",
            vis.name()
        );
        assert!(
            tris <= TRIANGLE_BUDGET,
            "{} emits {tris} triangles, over the {TRIANGLE_BUDGET} budget",
            vis.name()
        );
    }
}

// -- more -------------------------------------------------------------------

#[test]
fn the_catalogue_lists_six_visuals() {
    let names: Vec<&'static str> = all().iter().map(|v| v.name()).collect();
    assert_eq!(
        names,
        vec!["Bars", "Ridge Bed", "Spectrum Area", "Radial Burst", "Oscilloscope", "Vectorscope"]
    );
}

#[test]
fn the_clock_clamps_stalls_and_never_runs_backwards() {
    let mut clock = Clock::default();
    assert_eq!(clock.tick(5_000_000_000), 0);
    assert_eq!(clock.tick(5_016_000_000), 16_000_000);
    assert_eq!(clock.tick(9_000_000_000), DT_CEILING);
    assert_eq!(clock.tick(1_000_000_000), 0);
}

#[test]
fn auto_range_follows_the_volume() {
    let loud = AutoRange { hi: 900_000_000 };
    let soft = AutoRange { hi: 700_000_000 };
    assert_eq!(loud.stretch(900_000_000), ONE);
    assert_eq!(soft.stretch(700_000_000), ONE);
    assert_eq!(loud.stretch(850_000_000), soft.stretch(650_000_000));
    assert_eq!(loud.stretch(622_222_223), 0);
}

#[test]
fn smoothstep_is_flat_at_both_ends() {
    assert_eq!(smoothstep(-5), 0);
    assert_eq!(smoothstep(0), 0);
    assert_eq!(smoothstep(500_000_000), 500_000_000);
    assert_eq!(smoothstep(ONE), ONE);
    assert_eq!(smoothstep(2 * ONE), ONE);
    assert_eq!(smoothstep(250_000_000), 156_250_000);
}

#[test]
fn peaks_fall_at_the_stated_rate() {
    let stops = stops();
    let curves = curves();
    let mut vis = Bars::new();
    let quiet = samples(&vec![0.0f32; NUM_BANDS]);
    let loud = samples(&vec![1.0f32; NUM_BANDS]);
    let wave = samples(&vec![0.0f32; 16]);
    let screen = Screen { width: 1100, height: 620 };
    vis.draw(&frame_at(&loud, &wave, &stops, 0.0), screen, &curves);
    let top = vis.peaks[0];
    let mut later = frame_at(&quiet, &wave, &stops, 0.0);
    later.time = 50_000_000;
    vis.draw(&later, screen, &curves);
    // 0.36 of full height per second.
    assert_eq!(top - vis.peaks[0], PEAK_MAX * 36 / 100 / 20);
}

#[test]
fn the_trigger_finds_a_rising_crossing() {
    let wave: Vec<f32> =
        (0..1024).map(|i| ((i as f32 - 100.0) * 0.05).sin()).collect();
    let at = Oscilloscope::trigger(&samples(&wave), 512);
    assert!(wave[at - 1] <= 0.0 && wave[at] > 0.0, "no rising crossing at {at}");
    // Without one, the trace starts at the beginning.
    assert_eq!(Oscilloscope::trigger(&samples(&vec![0.3f32; 1024]), 512), 0);
}

#[test]
fn mono_collapses_to_a_vertical_line() {
    let stops = stops();
    let curves = curves();
    let wave: Vec<f32> = (0..1024).map(|i| (i as f32 * 0.05).sin() * 0.5).collect();
    let wave = samples(&wave);
    let bands = samples(&vec![0.5f32; NUM_BANDS]);
    let mut vis = Vectorscope::new();
    vis.draw(
        &frame_at(&bands, &wave, &stops, 0.0),
        Screen { width: 1100, height: 620 },
        &curves,
    );
    assert!(!vis.pts.is_empty());
    assert!(vis.pts.iter().all(|p| p.x == 0));
    assert!(vis.pts.iter().any(|p| p.y != 0));
}

#[test]
fn opposed_channels_lie_flat() {
    let stops = stops();
    let curves = curves();
    let wave: Vec<f32> = (0..1024).map(|i| (i as f32 * 0.05).sin() * 0.5).collect();
    let anti: Vec<f32> = wave.iter().map(|v| -v).collect();
    let wave = samples(&wave);
    let anti = samples(&anti);
    let bands = samples(&vec![0.5f32; NUM_BANDS]);
    let mut frame = frame_at(&bands, &wave, &stops, 0.0);
    frame.right_waveform = &anti;
    let mut vis = Vectorscope::new();
    vis.draw(&frame, Screen { width: 1100, height: 620 }, &curves);
    assert!(vis.pts.iter().all(|p| p.y == 0));
    assert!(vis.pts.iter().any(|p| p.x != 0));
}

#[test]
fn each_visual_can_be_built_on_its_own() {
    let list = vec![
        Visual::Bars(Bars::new()),
        Visual::SpectrumArea(SpectrumArea::new()),
        Visual::RadialBurst(RadialBurst::new()),
        Visual::Oscilloscope(Oscilloscope::new()),
    ];
    let names: Vec<&'static str> = list.iter().map(|v| v.name()).collect();
    assert_eq!(names, vec!["Bars", "Spectrum Area", "Radial Burst", "Oscilloscope"]);
}

#[test]
fn spikes_stay_below_the_margin_on_a_tall_screen() {
    let stops = stops();
    let curves = curves();
    let mut vis = Visual::RidgeBed(RidgeBed::new());
    let mut mesh = MeshBuilder::new(turn);
    let waveform = samples(&vec![0.0f32; FFT_SIZE]);
    for step in 0..90 {
        let mut levels = vec![0.0f32; NUM_BANDS];
        levels[step % NUM_BANDS] = 1.8;
        let bands = samples(&levels);
        mesh.begin(1100, 854);
        let frame = frame_at(&bands, &waveform, &stops, step as f32 * 0.05);
        draw_into(&mut vis, &frame, &curves, &mut mesh);
        for v in mesh.vertices() {
            assert!(v.position.y <= SAFE_TOP + 20_000_000, "{} at {step}", v.position.y);
        }
    }
}

#[test]
fn every_tip_outshines_its_base() {
    for palette in [Palette::Aurora, Palette::Sunset, Palette::Glacial] {
        let stops = ramp_stops(palette);
        let at = |h: f32, f: f32| {
            let c = ramp_of(&stops, s(h), s(f));
            (luminance([unit(c[0]), unit(c[1]), unit(c[2]), 0.0]), unit(c[3]))
        };
        let (base, tip) = (at(0.0, 0.5), at(1.0, 0.5));
        assert!(tip.0 > 20.0 * base.0, "{}", palette.name());
        assert!(base.1 < 0.4 && tip.1 > 0.9, "{}", palette.name());
        for step in 0..=20 {
            let h = step as f32 / 20.0;
            let change = (at(h, 1.0).0 - at(h, 0.0).0).abs();
            assert!(change <= 0.30 * at(h, 0.5).0 + 1e-4, "{} {h}", palette.name());
        }
    }
}

#[test]
fn silent_areas_still_draw() {
    let stops = stops();
    let curves = curves();
    let mut vis = Visual::SpectrumArea(SpectrumArea::new());
    let mut mesh = MeshBuilder::new(turn);
    let bands = samples(&vec![f32::NAN; NUM_BANDS]);
    mesh.begin(1100, 620);
    draw_into(&mut vis, &frame_at(&bands, &[], &stops, 0.0), &curves, &mut mesh);
    assert!(mesh.vertices().len() >= 4 && mesh.indices().len() >= 6);
}

#[test]
fn peaks_sink_by_the_time_passed_alone() {
    let stops = stops();
    let curves = curves();
    let quiet = samples(&vec![0.0f32; NUM_BANDS]);
    let loud = samples(&vec![1.0f32; NUM_BANDS]);
    let screen = Screen { width: 1100, height: 620 };
    let end = 1_000_000_000u64;
    let mut ends = Vec::new();
    for step in [10_000_000u64, 20_000_000, 50_000_000] {
        let mut vis = Bars::new();
        vis.draw(&frame_at(&loud, &[], &stops, 0.0), screen, &curves);
        let top = vis.peaks[0];
        let mut time = 0u64;
        while time < end {
            time += step;
            let mut frame = frame_at(&quiet, &[], &stops, 0.0);
            frame.time = time;
            vis.draw(&frame, screen, &curves);
        }
        ends.push(vis.peaks[0]);
        assert_eq!(top - vis.peaks[0], PEAK_MAX * 36 / 100);
    }
    assert!(ends.iter().all(|&v| v == ends[0]));
}

#[test]
fn gentle_rows_stay_below_the_margin_on_small_screens() {
    let stops = stops();
    let curves = curves();
    let waveform = samples(&vec![0.0f32; FFT_SIZE]);
    for (w, h) in [(640, 360), (1100, 500), (1100, 620)] {
        let mut vis = Visual::RidgeBed(RidgeBed::new());
        let mut mesh = MeshBuilder::new(turn);
        for step in 0..60 {
            // One wide hill over the whole spectrum.
            let bands: Vec<f32> = (0..NUM_BANDS)
                .map(|i| (i as f32 / 63.0 * std::f32::consts::PI).sin() * 0.9)
                .collect();
            let bands = samples(&bands);
            mesh.begin(w, h);
            let frame = frame_at(&bands, &waveform, &stops, step as f32 * 0.05);
            draw_into(&mut vis, &frame, &curves, &mut mesh);
            for v in mesh.vertices() {
                assert!(v.position.y <= VERTEX_TOP, "{} at {w}x{h}", v.position.y);
            }
        }
    }
}

#[test]
fn frames_are_drawn_on_top() {
    let stops = stops();
    let curves = curves();
    let bands = samples(&vec![0.6f32; NUM_BANDS]);
    let waveform = samples(&vec![0.1f32; FFT_SIZE]);
    let mut mesh = MeshBuilder::new(turn);
    mesh.begin(800, 600);
    for mut vis in all() {
        let (verts, indices) = (mesh.vertices().to_vec(), mesh.indices().to_vec());
        draw_into(&mut vis, &frame_at(&bands, &waveform, &stops, 0.0), &curves, &mut mesh);
        assert!(mesh.vertices().len() > verts.len(), "{}", vis.name());
        assert_eq!(&mesh.vertices()[..verts.len()], &verts[..]);
        assert_eq!(&mesh.indices()[..indices.len()], &indices[..]);
    }
}
