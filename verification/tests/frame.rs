//! Settings, keys, GPU decisions, bloom and the frame loop.

use audio_processor::bloom::{
    half_size, pass_params, plan, requested_intensity, target_size, Step, Target, INTENSITY,
    THRESHOLD,
};
use audio_processor::controls::{on_key, Action, Key};
use audio_processor::gpu::{
    elapsed_ms, first_size, mode_labels, needs_msaa, pick_format, readback_ms, recover, resize,
    sample_count, Capacity, GpuTimer, PresentMode, Recovery, SurfaceFault,
};
use audio_processor::mesh::MeshBuilder;
use audio_processor::number::{Sample, ONE};
use audio_processor::session::{background, dump_due, gap_ms};
use audio_processor::settings::{
    named_source, pick_device, requested_sample_count, resolve_monitor_source, sink_monitor,
    start_visual,
};
use audio_processor::spline::Point;

fn turn(angle: i64) -> Point {
    let (sin, cos) = (angle as f64 / 1e9).sin_cos();
    Point { x: (cos * 1e9).round() as i64, y: (sin * 1e9).round() as i64 }
}

// -- settings ---------------------------------------------------------------

#[test]
fn multisampling_is_one_of_four_counts() {
    for (var, n) in [
        (None, 1),
        (Some("1"), 1),
        (Some(" 2\n"), 2),
        (Some("4"), 4),
        (Some("+8"), 8),
        (Some("3"), 1),
        (Some("16"), 1),
        (Some("-2"), 1),
        (Some("four"), 1),
        (Some(""), 1),
    ] {
        assert_eq!(requested_sample_count(var), n, "{var:?}");
    }
}

#[test]
fn the_start_visual_is_one_based_and_limited() {
    for (var, n) in [
        (None, 0),
        (Some("0"), 0),
        (Some("1"), 0),
        (Some("3"), 2),
        (Some("6"), 5),
        (Some("99"), 5),
        (Some("x"), 0),
    ] {
        assert_eq!(start_visual(var, 6), n, "{var:?}");
    }
}

#[test]
fn the_override_wins_over_the_default_sink() {
    assert_eq!(named_source(Some("  mine.monitor ")), Some("mine.monitor".to_string()));
    assert_eq!(named_source(Some("   ")), None);
    assert_eq!(named_source(None), None);
    assert_eq!(sink_monitor(Some("alsa_output\n")), Some("alsa_output.monitor".to_string()));
    assert_eq!(sink_monitor(Some("\n")), None);
    assert_eq!(sink_monitor(None), None);
    assert_eq!(resolve_monitor_source(Some("a"), Some("b")), Some("a".to_string()));
    assert_eq!(resolve_monitor_source(Some(""), Some("b")), Some("b.monitor".to_string()));
    assert_eq!(resolve_monitor_source(None, None), None);
}

#[test]
fn the_sound_server_is_picked_when_a_monitor_was_resolved() {
    let names = vec![Some("default".to_string()), None, Some("pulse".to_string())];
    assert_eq!(pick_device(true, &names), Some(2));
    assert_eq!(pick_device(false, &names), None);
    assert_eq!(pick_device(true, &names[..2]), None);
    assert_eq!(pick_device(true, &[Some("pulseaudio".to_string())]), None);
}

// -- keys -------------------------------------------------------------------

#[test]
fn keys_cycle_and_jump() {
    assert_eq!(on_key(Key::Space, true, 0, 6), Action::Show(1));
    assert_eq!(on_key(Key::ArrowRight, true, 5, 6), Action::Show(0));
    assert_eq!(on_key(Key::ArrowLeft, true, 0, 6), Action::Show(5));
    assert_eq!(on_key(Key::ArrowLeft, true, 3, 6), Action::Show(2));
    assert_eq!(on_key(Key::Digit(4), true, 0, 6), Action::Show(3));
    assert_eq!(on_key(Key::Digit(4), true, 3, 6), Action::Nothing);
    assert_eq!(on_key(Key::Digit(7), true, 0, 6), Action::Nothing);
    assert_eq!(on_key(Key::Digit(0), true, 0, 6), Action::Nothing);
    assert_eq!(on_key(Key::Space, true, 0, 1), Action::Nothing);
    assert_eq!(on_key(Key::Space, false, 0, 6), Action::Nothing);
}

#[test]
fn keys_control_the_program() {
    assert_eq!(on_key(Key::Escape, true, 0, 6), Action::Exit);
    assert_eq!(on_key(Key::F1, true, 0, 6), Action::ToggleHud);
    assert_eq!(on_key(Key::F2, true, 0, 6), Action::ResetHud);
    assert_eq!(on_key(Key::F3, true, 0, 6), Action::DumpHud);
    assert_eq!(on_key(Key::F11, true, 0, 6), Action::ToggleFullscreen);
    assert_eq!(on_key(Key::P, true, 0, 6), Action::NextPalette);
    assert_eq!(on_key(Key::Other, true, 0, 6), Action::Nothing);
    assert_eq!(on_key(Key::Escape, false, 0, 6), Action::Nothing);
}

#[test]
fn forward_and_back_cancel() {
    for count in 1..8usize {
        for current in 0..count {
            let step = |key, at| match on_key(key, true, at, count) {
                Action::Show(next) => next,
                _ => at,
            };
            assert_eq!(step(Key::ArrowLeft, step(Key::Space, current)), current);
            assert_eq!(step(Key::Space, step(Key::ArrowLeft, current)), current);
            let mut at = current;
            for _ in 0..count {
                at = step(Key::Space, at);
            }
            assert_eq!(at, current);
        }
    }
}

// -- GPU --------------------------------------------------------------------

#[test]
fn index_bytes_are_native() {
    let mut mesh = MeshBuilder::new(turn);
    mesh.begin(100, 100);
    for _ in 0..200 {
        mesh.rect(0, 0, ONE, ONE, [ONE, ONE, ONE, ONE]);
    }
    let mut want: Vec<u8> = Vec::new();
    for i in mesh.indices() {
        want.extend_from_slice(&i.to_ne_bytes());
    }
    assert_eq!(mesh.index_bytes(), &want[..]);
    assert_eq!(mesh.index_bytes().len(), 4 * mesh.indices().len());
    assert!(mesh.indices().iter().any(|&i| i > 255));
}

#[test]
fn timestamps_are_read_back() {
    let words: Vec<u64> = vec![1_000_000, 3_500_000];
    let mut bytes: Vec<u8> = Vec::new();
    for w in &words {
        bytes.extend_from_slice(&w.to_ne_bytes());
    }
    // Wherever the bytes start.
    for skip in 0..8 {
        let mut room = vec![0u8; 32];
        room[skip..skip + 16].copy_from_slice(&bytes);
        assert_eq!(readback_ms(&room[skip..skip + 16], ONE), Some(2_500_000_000));
        assert_eq!(readback_ms(&room[skip..skip + 8], ONE), None);
        assert_eq!(readback_ms(&room[skip..skip + 15], ONE), None);
        assert_eq!(readback_ms(&room[skip..skip + 24], ONE), None);
    }

    let mut timer = GpuTimer::new(Sample { bits: 1.0f32.to_bits() });
    assert_eq!(timer.collect(Some(&bytes)), None);
    assert!(timer.resolves());
    assert!(timer.map());
    assert!(!timer.map());
    assert!(!timer.resolves());
    assert_eq!(timer.collect(None), None);
    assert!(timer.in_flight);
    assert_eq!(timer.collect(Some(&bytes)), Some(2_500_000_000));
    assert!(!timer.in_flight);
}

#[test]
fn tick_periods_scale_durations() {
    assert_eq!(elapsed_ms(10, 5, ONE), 0);
    assert_eq!(elapsed_ms(0, 1000, 41_666_666_666), 41_666_666);
    assert_eq!(elapsed_ms(0, u64::MAX, i64::MAX), i64::MAX);
    assert_eq!(GpuTimer::new(Sample { bits: f32::NAN.to_bits() }).period, 0);
    assert_eq!(GpuTimer::new(Sample { bits: 2.5f32.to_bits() }).period, 2_500_000_000);
    assert_eq!(GpuTimer::new(Sample { bits: (-1.0f32).to_bits() }).period, 0);
}

#[test]
fn buffers_grow_to_powers_of_two() {
    let mut c = Capacity::default();
    assert_eq!((c.verts, c.indices), (1 << 16, 1 << 18));
    assert_eq!(c.ensure(65_536, 262_144), (false, false));
    assert_eq!(c.ensure(65_537, 10), (true, false));
    assert_eq!((c.verts, c.indices), (131_072, 262_144));
    assert_eq!(c.ensure(3, 1_000_000), (false, true));
    assert_eq!((c.verts, c.indices), (131_072, 1_048_576));
    for need in 1..3000usize {
        let mut c = Capacity { verts: 0, indices: 0 };
        c.ensure(need, 0);
        assert_eq!(c.verts, need.next_power_of_two() as u64);
    }
}

#[test]
fn surfaces_are_never_empty() {
    assert_eq!(resize(0, 5), None);
    assert_eq!(resize(5, 0), None);
    assert_eq!(resize(5, 6), Some((5, 6)));
    assert_eq!(first_size(0, 7), (1, 7));
    assert_eq!(first_size(9, 0), (9, 1));
}

#[test]
fn sample_counts_fall_back_to_one() {
    assert_eq!(sample_count(4, true), 4);
    assert_eq!(sample_count(4, false), 1);
    assert_eq!(sample_count(1, true), 1);
    assert!(needs_msaa(2));
    assert!(!needs_msaa(1));
}

#[test]
fn srgb_formats_are_preferred() {
    assert_eq!(pick_format(&[false, true, true]), 1);
    assert_eq!(pick_format(&[false, false]), 0);
    assert_eq!(pick_format(&[true]), 0);
}

#[test]
fn present_modes_are_listed() {
    assert_eq!(mode_labels(&[]), "");
    assert_eq!(
        mode_labels(&[
            PresentMode::Fifo,
            PresentMode::FifoRelaxed,
            PresentMode::Mailbox,
            PresentMode::Immediate,
            PresentMode::Auto,
        ]),
        "FIFO,FIFOREL,MAILBOX,IMMEDIATE,AUTO"
    );
}

#[test]
fn surface_faults_are_recovered_from() {
    assert_eq!(recover(SurfaceFault::Lost), Recovery::Reconfigure);
    assert_eq!(recover(SurfaceFault::Outdated), Recovery::Reconfigure);
    assert_eq!(recover(SurfaceFault::OutOfMemory), Recovery::Exit);
    assert_eq!(recover(SurfaceFault::Timeout), Recovery::Report);
}

// -- bloom ------------------------------------------------------------------

#[test]
fn half_targets_are_never_empty() {
    assert_eq!(half_size(1100, 620), (550, 310));
    assert_eq!(half_size(1, 0), (1, 1));
    assert_eq!(half_size(3, 2), (1, 1));
    assert_eq!(target_size(Target::Scene, 0, 620), (1, 620));
    assert_eq!(target_size(Target::BlurB, 1100, 621), (550, 310));
}

#[test]
fn only_the_composite_presents() {
    let plan = plan();
    let steps: Vec<Step> = plan.iter().map(|p| p.step).collect();
    assert_eq!(steps, vec![Step::Threshold, Step::BlurRows, Step::BlurColumns, Step::Composite]);
    for (i, p) in plan.iter().enumerate() {
        assert_eq!(p.target == Target::Surface, i == 3);
        assert!(
            p.source == Target::Scene || plan[..i].iter().any(|q| q.target == p.source),
            "{:?} reads what was not drawn",
            p.step
        );
    }
    assert_eq!(plan[3].glow, Some(Target::BlurB));
}

#[test]
fn each_pass_has_its_own_parameters() {
    let t = pass_params(Step::Threshold, 550, 310, 850_000_000);
    assert_eq!((t.threshold, t.intensity, t.dir_x, t.dir_y), (THRESHOLD, 0, 0, 0));
    let h = pass_params(Step::BlurRows, 550, 310, 850_000_000);
    assert_eq!((h.threshold, h.intensity, h.dir_x, h.dir_y), (0, 0, 1_818_181, 0));
    let v = pass_params(Step::BlurColumns, 550, 310, 850_000_000);
    assert_eq!((v.dir_x, v.dir_y), (0, 3_225_806));
    let c = pass_params(Step::Composite, 550, 310, 850_000_000);
    assert_eq!((c.threshold, c.intensity, c.dir_x, c.dir_y), (0, 850_000_000, 0, 0));
}

#[test]
fn bloom_intensity_is_finite_and_not_negative() {
    let of = |v: f32| requested_intensity(Some(Sample { bits: v.to_bits() }));
    assert_eq!(requested_intensity(None), INTENSITY);
    assert_eq!(of(1.5), 1_500_000_000);
    assert_eq!(of(0.0), 0);
    assert_eq!(of(-0.0), 0);
    assert_eq!(of(-0.25), INTENSITY);
    assert_eq!(of(f32::NAN), INTENSITY);
    assert_eq!(of(f32::INFINITY), INTENSITY);
}

// -- frame loop -------------------------------------------------------------

#[test]
fn bass_lifts_the_background_slightly() {
    let lin = |b: u32| {
        let v = b as f64 / 255.0;
        if v <= 0.04045 {
            v / 12.92
        } else {
            ((v + 0.055) / 1.055).powf(2.4)
        }
    };
    for bass in [-ONE, 0, 250_000_000, ONE, 5 * ONE] {
        let t = (bass as f64 / 1e9).clamp(0.0, 1.0) * 0.12;
        let c = background(bass);
        for (k, (a, b)) in [(0x12u32, 0x31u32), (0x12, 0x1B), (0x12, 0x92)].iter().enumerate() {
            let want = lin(*a) + (lin(*b) - lin(*a)) * t;
            assert!((c[k] as f64 / 1e9 - want).abs() < 1e-7, "{bass} {k}");
        }
    }
}

#[test]
fn gaps_are_milliseconds() {
    assert_eq!(gap_ms(None, 5), 0);
    assert_eq!(gap_ms(Some(1_000_000), 17_667_000), 16_667_000_000);
    assert_eq!(gap_ms(Some(9), 3), 0);
    // Eleven days of standing still, in full.
    assert_eq!(gap_ms(Some(0), 1_000_000_000_000_000), 1_000_000_000_000_000_000);
    assert_eq!(gap_ms(Some(0), u64::MAX), 3_000_000_000_000_000_000);
}

#[test]
fn summaries_are_due_at_intervals() {
    assert!(!dump_due(None, 0, 100));
    assert!(!dump_due(Some(50), 0, 49));
    assert!(dump_due(Some(50), 0, 50));
    assert!(!dump_due(Some(50), 100, 20));
}
