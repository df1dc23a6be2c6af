//! Debug HUD: frame pacing, the audio-to-render handoff and geometry counters.
//!
//! What matters is the phase relationship between two unlocked clocks, the
//! analysis producing spectra and the display presenting frames. Comparing their
//! rates hides a problem; comparing the age of the spectrum at draw time exposes
//! it. So the headline numbers are the age and the duplicates.
//!
//! Milliseconds, levels, rates and hops are fixed-point, in billionths.

use crate::number::{law_rounded, law_sample_value, rounded, Sample, ONE};
use crate::stats::{
    ascending, law_ascending, law_quantile, quantile, recent, sort_samples, Ring, HISTORY,
};
use vstd::prelude::*;
use vstd::string::*;

verus! {

/// Largest measured time, in milliseconds: over thirty days. Three of them fit in
/// a sum.
pub const MS_MAX: i64 = 3_000_000_000_000_000_000;

/// Refresh period taken when there is nothing to measure it from.
pub const DEFAULT_REFRESH_MS: i64 = 16_667_000_000;

/// Everything the HUD records about one frame.
#[derive(Clone, Copy)]
pub struct FrameSample {
    /// Building the mesh: audio snapshot and drawing. Excludes the vsync block.
    pub cpu_build_ms: i64,
    /// Copying vertices, measured on its own.
    pub cpu_copy_ms: i64,
    /// Encode and submit. Excludes the vsync block.
    pub cpu_submit_ms: i64,
    /// Time blocked waiting for the next surface image: vsync, not work.
    pub wait_ms: i64,
    /// Time the render thread waited for the metrics.
    pub lock_wait_ms: i64,
    /// Time between successive presents.
    pub present_dt_ms: i64,
    /// Age of the spectrum this frame drew.
    pub spectrum_age_ms: i64,
    /// Identifier of the spectrum drawn; equal to the last frame's means a
    /// duplicate.
    pub spectrum_seq: u64,
    /// Input frames delivered between the last two analysis passes.
    pub hop_frames: u64,
    pub scene_verts: usize,
    pub scene_indices: usize,
    /// Recorded per frame, so a summary cannot be attributed to the wrong
    /// visual after a switch.
    pub visualizer: &'static str,
}

impl Default for FrameSample {
    fn default() -> (s: Self)
        ensures
            s.cpu_build_ms == 0,
            s.cpu_copy_ms == 0,
            s.cpu_submit_ms == 0,
            s.wait_ms == 0,
            s.lock_wait_ms == 0,
            s.present_dt_ms == 0,
            s.spectrum_age_ms == 0,
            s.spectrum_seq == 0,
            s.hop_frames == 0,
            s.scene_verts == 0,
            s.scene_indices == 0,
            s.visualizer@.len() == 0,
    {
        proof {
            reveal_strlit("");
        }
        FrameSample {
            cpu_build_ms: 0,
            cpu_copy_ms: 0,
            cpu_submit_ms: 0,
            wait_ms: 0,
            lock_wait_ms: 0,
            present_dt_ms: 0,
            spectrum_age_ms: 0,
            spectrum_seq: 0,
            hop_frames: 0,
            scene_verts: 0,
            scene_indices: 0,
            visualizer: "",
        }
    }
}

impl FrameSample {
    /// Times that can be measured.
    pub open spec fn wf(&self) -> bool {
        &&& 0 <= self.cpu_build_ms <= MS_MAX
        &&& 0 <= self.cpu_copy_ms <= MS_MAX
        &&& 0 <= self.cpu_submit_ms <= MS_MAX
    }
}

/// Settings the HUD reports but does not own.
pub struct StaticInfo {
    pub sample_count: u32,
    pub fft_size: usize,
    pub num_bands: usize,
    pub present_mode: &'static str,
    pub available_modes: String,
    pub gpu_timing: bool,
    /// Spline subdivisions per band.
    pub subdivisions: u32,
    /// Whether strokes carry an alpha-feathered fringe.
    pub feathered: bool,
    pub visualizer: &'static str,
    pub palette: &'static str,
}

impl StaticInfo {
    /// No name is longer than ten thousand characters.
    pub open spec fn short(&self) -> bool {
        &&& self.present_mode@.len() <= 10_000
        &&& self.available_modes@.len() <= 10_000
        &&& self.visualizer@.len() <= 10_000
        &&& self.palette@.len() <= 10_000
    }

    /// Whether no name is longer than ten thousand characters.
    pub fn is_short(&self) -> (r: bool)
        ensures
            r == self.short(),
    {
        self.present_mode.unicode_len() <= 10_000 && self.available_modes.as_str().unicode_len()
            <= 10_000 && self.visualizer.unicode_len() <= 10_000 && self.palette.unicode_len() <= 10_000
    }
}

/// Rolling statistics and the overlay that shows them.
pub struct Hud {
    pub enabled: bool,
    pub present_dt: Ring,
    pub cpu_total: Ring,
    pub cpu_copy: Ring,
    pub submit: Ring,
    pub wait: Ring,
    pub lock_wait: Ring,
    pub gpu: Ring,
    pub age: Ring,
    pub hop: Ring,
    pub band_min: Ring,
    pub band_med: Ring,
    pub band_max: Ring,
    pub band_p90: Ring,
    pub frames: u64,
    pub dup_spectra: u64,
    pub dropped_frames: u64,
    pub last_seq: u64,
    pub new_spectra: u64,
    pub scene_verts: usize,
    pub scene_indices: usize,
    pub hud_verts: usize,
    pub hud_indices: usize,
    pub visual: &'static str,
    /// When the statistics were started, in nanoseconds.
    pub started: u64,
}

/// A hop as a fixed-point sample.
pub open spec fn hop_sample(hop: u64) -> int {
    if hop > 9_000_000_000 {
        9_000_000_000_000_000_000
    } else {
        hop * ONE
    }
}

/// Estimated refresh period: the median present delta. A handful of long frames
/// would drag a mean.
pub open spec fn refresh_of(present: Seq<i64>) -> int {
    let m = quantile(present, 1, 2);
    if present.len() > 0 && m > 100_000_000 {
        m
    } else {
        DEFAULT_REFRESH_MS as int
    }
}

/// Frames the display showed that were not produced, in one present gap.
pub open spec fn missed(dt: int, period: int) -> int {
    let slots = rounded(dt, period);
    if dt > 0 && slots > 1 {
        slots - 1
    } else {
        0
    }
}

/// Frames missed over the first `n` gaps.
pub open spec fn missed_total(present: Seq<i64>, period: int, n: int) -> int
    decreases n,
{
    if n <= 0 {
        0
    } else {
        missed_total(present, period, n - 1) + missed(present[n - 1] as int, period)
    }
}

/// Frames missed over a window.
pub open spec fn dropped_of(present: Seq<i64>) -> int {
    missed_total(present, refresh_of(present), present.len() as int)
}

/// The finite levels of the first `n` bands.
pub open spec fn finite_levels(bands: Seq<Sample>, n: int) -> Seq<i64>
    decreases n,
{
    if n <= 0 {
        Seq::empty()
    } else if bands[n - 1].finite() {
        finite_levels(bands, n - 1).push(bands[n - 1].fixed() as i64)
    } else {
        finite_levels(bands, n - 1)
    }
}

/// A window after a sample arrived.
pub open spec fn pushed(before: Seq<i64>, v: int) -> Seq<i64> {
    recent(before.push(v as i64))
}

impl Hud {
    /// `after` is `before` with one frame recorded.
    pub open spec fn recorded(before: Hud, after: Hud, s: &FrameSample) -> bool {
        let repeated = s.spectrum_seq == before.last_seq;
        &&& after.cpu_total@ == pushed(
            before.cpu_total@,
            s.cpu_build_ms + s.cpu_copy_ms + s.cpu_submit_ms,
        )
        &&& after.cpu_copy@ == pushed(before.cpu_copy@, s.cpu_copy_ms as int)
        &&& after.submit@ == pushed(before.submit@, s.cpu_submit_ms as int)
        &&& after.wait@ == pushed(before.wait@, s.wait_ms as int)
        &&& after.lock_wait@ == pushed(before.lock_wait@, s.lock_wait_ms as int)
        &&& after.age@ == pushed(before.age@, s.spectrum_age_ms as int)
        &&& after.present_dt@ == if s.present_dt_ms > 0 {
            pushed(before.present_dt@, s.present_dt_ms as int)
        } else {
            before.present_dt@
        }
        &&& after.hop@ == if repeated {
            before.hop@
        } else {
            pushed(before.hop@, hop_sample(s.hop_frames))
        }
        &&& after.frames == before.frames + 1
        &&& after.dup_spectra == before.dup_spectra + if repeated {
            1int
        } else {
            0
        }
        &&& after.new_spectra == before.new_spectra + if repeated {
            0int
        } else {
            1
        }
        &&& after.last_seq == s.spectrum_seq
        &&& after.scene_verts == s.scene_verts
        &&& after.scene_indices == s.scene_indices
    }

    /// `after` is `before` with the levels of one set of bands noted.
    pub open spec fn noted(before: Hud, after: Hud, bands: Seq<Sample>) -> bool {
        let levels = finite_levels(bands, bands.len() as int);
        let sorted = ascending(levels);
        let n = levels.len() as int;
        if n == 0 {
            after == before
        } else {
            &&& after.band_min@ == pushed(before.band_min@, sorted[0] as int)
            &&& after.band_med@ == pushed(before.band_med@, sorted[n / 2] as int)
            &&& after.band_p90@ == pushed(before.band_p90@, sorted[n * 9 / 10] as int)
            &&& after.band_max@ == pushed(before.band_max@, sorted[n - 1] as int)
        }
    }
}

impl Hud {
    /// Every window is well formed, every frame drew either a new spectrum or a
    /// duplicate, and the hops seen are those of the latest new spectra.
    pub open spec fn wf(&self) -> bool {
        &&& self.dup_spectra + self.new_spectra == self.frames
        &&& self.hop@.len() == if self.new_spectra < HISTORY {
            self.new_spectra as int
        } else {
            HISTORY as int
        }
        &&& self.present_dt.wf()
        &&& self.cpu_total.wf()
        &&& self.cpu_copy.wf()
        &&& self.submit.wf()
        &&& self.wait.wf()
        &&& self.lock_wait.wf()
        &&& self.gpu.wf()
        &&& self.age.wf()
        &&& self.hop.wf()
        &&& self.band_min.wf()
        &&& self.band_med.wf()
        &&& self.band_max.wf()
        &&& self.band_p90.wf()
    }

    /// Nothing has been recorded.
    pub open spec fn blank(&self) -> bool {
        &&& self.present_dt@.len() == 0
        &&& self.cpu_total@.len() == 0
        &&& self.cpu_copy@.len() == 0
        &&& self.submit@.len() == 0
        &&& self.wait@.len() == 0
        &&& self.lock_wait@.len() == 0
        &&& self.gpu@.len() == 0
        &&& self.age@.len() == 0
        &&& self.hop@.len() == 0
        &&& self.band_min@.len() == 0
        &&& self.band_med@.len() == 0
        &&& self.band_max@.len() == 0
        &&& self.band_p90@.len() == 0
        &&& self.frames == 0
        &&& self.dup_spectra == 0
        &&& self.dropped_frames == 0
        &&& self.last_seq == u64::MAX
        &&& self.new_spectra == 0
        &&& self.scene_verts == 0
        &&& self.scene_indices == 0
        &&& self.hud_verts == 0
        &&& self.hud_indices == 0
        &&& self.visual@ == "?"@
    }

    /// A hidden HUD with no statistics, started at `now`.
    pub fn new(now: u64) -> (h: Self)
        ensures
            h.wf(),
            h.blank(),
            !h.enabled,
            h.started == now,
    {
        Hud {
            enabled: false,
            present_dt: Ring::new(),
            cpu_total: Ring::new(),
            cpu_copy: Ring::new(),
            submit: Ring::new(),
            wait: Ring::new(),
            lock_wait: Ring::new(),
            gpu: Ring::new(),
            age: Ring::new(),
            hop: Ring::new(),
            band_min: Ring::new(),
            band_med: Ring::new(),
            band_max: Ring::new(),
            band_p90: Ring::new(),
            frames: 0,
            dup_spectra: 0,
            dropped_frames: 0,
            last_seq: u64::MAX,
            new_spectra: 0,
            scene_verts: 0,
            scene_indices: 0,
            hud_verts: 0,
            hud_indices: 0,
            visual: "?",
            started: now,
        }
    }

    /// Show or hide the overlay.
    pub fn toggle(&mut self)
        ensures
            *final(self) == (Hud { enabled: !old(self).enabled, ..*old(self) }),
    {
        self.enabled = !self.enabled;
    }

    /// Forget all statistics, keeping the overlay shown or hidden as it is.
    pub fn reset(&mut self, now: u64)
        ensures
            final(self).wf(),
            final(self).blank(),
            final(self).enabled == old(self).enabled,
            final(self).started == now,
    {
        let enabled: bool = self.enabled;
        *self = Hud::new(now);
        self.enabled = enabled;
    }

    /// Record one frame. Called whether or not the overlay is shown, so the
    /// statistics are already warm when it is.
    pub fn record(&mut self, s: &FrameSample)
        requires
            old(self).wf(),
            s.wf(),
            old(self).frames < u64::MAX,
        ensures
            final(self).wf(),
            final(self).frames == old(self).frames + 1,
            final(self).scene_verts == s.scene_verts,
            final(self).scene_indices == s.scene_indices,
            final(self).visual == (if s.visualizer@.len() > 0 {
                s.visualizer
            } else {
                old(self).visual
            }),
            final(self).cpu_total@ == pushed(
                old(self).cpu_total@,
                s.cpu_build_ms + s.cpu_copy_ms + s.cpu_submit_ms,
            ),
            final(self).cpu_copy@ == pushed(old(self).cpu_copy@, s.cpu_copy_ms as int),
            final(self).submit@ == pushed(old(self).submit@, s.cpu_submit_ms as int),
            final(self).wait@ == pushed(old(self).wait@, s.wait_ms as int),
            final(self).lock_wait@ == pushed(old(self).lock_wait@, s.lock_wait_ms as int),
            final(self).age@ == pushed(old(self).age@, s.spectrum_age_ms as int),
            final(self).present_dt@ == (if s.present_dt_ms > 0 {
                pushed(old(self).present_dt@, s.present_dt_ms as int)
            } else {
                old(self).present_dt@
            }),
            ({
                let dup = s.spectrum_seq == old(self).last_seq;
                &&& final(self).dup_spectra == old(self).dup_spectra + (if dup {
                    1int
                } else {
                    0
                })
                &&& final(self).new_spectra == old(self).new_spectra + (if dup {
                    0int
                } else {
                    1
                })
                &&& final(self).last_seq == s.spectrum_seq
                &&& final(self).hop@ == (if dup {
                    old(self).hop@
                } else {
                    pushed(old(self).hop@, hop_sample(s.hop_frames))
                })
            }),
            final(self).enabled == old(self).enabled,
            final(self).gpu@ == old(self).gpu@,
            final(self).band_min@ == old(self).band_min@,
            final(self).band_med@ == old(self).band_med@,
            final(self).band_max@ == old(self).band_max@,
            final(self).band_p90@ == old(self).band_p90@,
            final(self).dropped_frames == old(self).dropped_frames,
            final(self).hud_verts == old(self).hud_verts,
            final(self).hud_indices == old(self).hud_indices,
            final(self).started == old(self).started,
            Hud::recorded(*old(self), *final(self), s),
    {
        self.frames = self.frames + 1;
        self.scene_verts = s.scene_verts;
        self.scene_indices = s.scene_indices;
        if s.visualizer.unicode_len() > 0 {
            self.visual = s.visualizer;
        }
        self.cpu_total.push(s.cpu_build_ms + s.cpu_copy_ms + s.cpu_submit_ms);
        self.cpu_copy.push(s.cpu_copy_ms);
        self.submit.push(s.cpu_submit_ms);
        self.wait.push(s.wait_ms);
        self.lock_wait.push(s.lock_wait_ms);
        self.age.push(s.spectrum_age_ms);
        if s.present_dt_ms > 0 {
            self.present_dt.push(s.present_dt_ms);
        }
        if s.spectrum_seq == self.last_seq {
            self.dup_spectra = self.dup_spectra + 1;
        } else {
            self.new_spectra = self.new_spectra + 1;
            let hop: i64 = if s.hop_frames > 9_000_000_000 {
                9_000_000_000_000_000_000
            } else {
                s.hop_frames as i64 * ONE
            };
            self.hop.push(hop);
            self.last_seq = s.spectrum_seq;
        }
    }

    /// Estimated display refresh period, in milliseconds.
    pub fn refresh_ms(&self) -> (r: i64)
        requires
            self.wf(),
        ensures
            r == refresh_of(self.present_dt@),
            r > 100_000_000,
    {
        if self.present_dt.is_empty() {
            return DEFAULT_REFRESH_MS;
        }
        let m: i64 = self.present_dt.percentile(1, 2);
        if m > 100_000_000 {
            m
        } else {
            DEFAULT_REFRESH_MS
        }
    }

    /// Count the frames the display showed that were not produced, over the
    /// rolling window: any present gap of about twice the refresh period or
    /// longer.
    pub fn count_dropped(&mut self) -> (n: u64)
        requires
            old(self).wf(),
        ensures
            n == dropped_of(old(self).present_dt@),
            *final(self) == (Hud { dropped_frames: n, ..*old(self) }),
    {
        let period: i64 = self.refresh_ms();
        let gaps: Vec<i64> = self.present_dt.samples();
        let mut dropped: u64 = 0;
        let mut i: usize = 0;
        while i < gaps.len()
            invariant
                i <= gaps@.len() <= HISTORY,
                period > 100_000_000,
                dropped == missed_total(gaps@, period as int, i as int),
                dropped <= i * 200_000_000_000,
            decreases gaps@.len() - i,
        {
            let dt: i64 = gaps[i];
            if dt > 0 {
                let slots: u64 = crate::number::div_round(dt as u64, period as u64);
                proof {
                    let a = 2 * dt + period;
                    let d = 2 * period as int;
                    assert(a / d <= 200_000_000_000) by (nonlinear_arith)
                        requires
                            a == 2 * dt + period,
                            d == 2 * period,
                            0 < dt <= 0x7FFF_FFFF_FFFF_FFFF,
                            period > 100_000_000,
                    ;
                }
                if slots > 1 {
                    dropped = dropped + (slots - 1);
                }
            }
            i = i + 1;
        }
        self.dropped_frames = dropped;
        dropped
    }

    /// Record the distribution of this frame's band levels. If the minimum
    /// never approaches zero, the bottom of the display range is dead.
    pub fn note_bands(&mut self, bands: &[Sample])
        requires
            old(self).wf(),
        ensures
            final(self).wf(),
            Hud::noted(*old(self), *final(self), bands@),
            ({
                let sorted = ascending(finite_levels(bands@, bands@.len() as int));
                let n = finite_levels(bands@, bands@.len() as int).len() as int;
                if n == 0 {
                    *final(self) == *old(self)
                } else {
                    &&& final(self).band_min@ == pushed(old(self).band_min@, sorted[0] as int)
                    &&& final(self).band_med@ == pushed(old(self).band_med@, sorted[n / 2] as int)
                    &&& final(self).band_p90@ == pushed(
                        old(self).band_p90@,
                        sorted[n * 9 / 10] as int,
                    )
                    &&& final(self).band_max@ == pushed(old(self).band_max@, sorted[n - 1] as int)
                    &&& *final(self) == (Hud {
                        band_min: final(self).band_min,
                        band_med: final(self).band_med,
                        band_p90: final(self).band_p90,
                        band_max: final(self).band_max,
                        ..*old(self)
                    })
                }
            }),
    {
        let mut levels: Vec<i64> = Vec::with_capacity(bands.len());
        let mut i: usize = 0;
        while i < bands.len()
            invariant
                i <= bands@.len(),
                levels@ == finite_levels(bands@, i as int),
                levels@.len() <= i,
            decreases bands@.len() - i,
        {
            if bands[i].is_finite() {
                levels.push(bands[i].to_fixed());
            }
            i = i + 1;
        }
        let n: usize = levels.len();
        if n == 0 {
            return;
        }
        let sorted: Vec<i64> = sort_samples(&levels);
        self.band_min.push(sorted[0]);
        self.band_med.push(sorted[n / 2]);
        self.band_p90.push(sorted[(n as u128 * 9 / 10) as usize]);
        self.band_max.push(sorted[n - 1]);
    }

    /// Record the duration of a finished render pass.
    pub fn push_gpu_ms(&mut self, ms: i64)
        requires
            old(self).wf(),
        ensures
            final(self).wf(),
            final(self).gpu@ == pushed(old(self).gpu@, ms as int),
            *final(self) == (Hud { gpu: final(self).gpu, ..*old(self) }),
    {
        self.gpu.push(ms);
    }

    /// Set the scene geometry, so the panel reports this frame's counts.
    pub fn note_scene_geometry(&mut self, verts: usize, indices: usize)
        ensures
            *final(self) == (Hud { scene_verts: verts, scene_indices: indices, ..*old(self) }),
    {
        self.scene_verts = verts;
        self.scene_indices = indices;
    }
}

/// A steady display drops nothing: where every gap is shorter than one and a
/// half refresh periods, no frame is missed.
pub proof fn law_steady_drops_nothing(present: Seq<i64>, period: int, n: int)
    requires
        0 <= n <= present.len(),
        period > 0,
        forall|i: int| 0 <= i < n ==> 2 * (#[trigger] present[i]) < 3 * period,
    ensures
        missed_total(present, period, n) == 0,
    decreases n,
{
    if n > 0 {
        law_steady_drops_nothing(present, period, n - 1);
        let dt = present[n - 1] as int;
        if dt > 0 {
            let a = 2 * dt + period;
            let d = 2 * period;
            assert(a / d <= 1) by (nonlinear_arith)
                requires
                    0 <= a < 2 * d,
                    d > 0,
            ;
        }
    }
}

/// A gap of exactly `k` refresh periods misses `k - 1` frames.
pub proof fn law_gap_of_periods(k: int, period: int)
    requires
        k >= 1,
        period > 0,
    ensures
        missed(k * period, period) == k - 1,
{
    let dt = k * period;
    assert(dt > 0) by (nonlinear_arith)
        requires
            dt == k * period,
            k >= 1,
            period > 0,
    ;
    let a = 2 * dt + period;
    let d = 2 * period;
    assert(a / d == k) by (nonlinear_arith)
        requires
            a == 2 * (k * period) + period,
            d == 2 * period,
            period > 0,
    ;
}

/// A window takes a new sample in as its newest, and keeps those before it.
pub proof fn law_pushed(before: Seq<i64>, v: i64, i: int)
    requires
        before.len() <= 240,
        0 <= i < before.len(),
    ensures
        ({
            let after = pushed(before, v as int);
            &&& after.last() == v
            &&& before.len() < 240 ==> after.len() == before.len() + 1 && after[i] == before[i]
            &&& before.len() == 240 ==> after.len() == 240 && (i > 0 ==> after[i - 1] == before[i])
        }),
{
}

/// The refresh period is the median of the times between presents, or that of 60 Hz
/// as long as nothing longer than a tenth of a millisecond was seen.
pub proof fn law_refresh(present: Seq<i64>) -> (rank: int)
    ensures
        present.len() == 0 ==> refresh_of(present) == 16_667_000_000,
        present.len() > 0 ==> ({
            let median = ascending(present)[rank];
            &&& 0 <= rank < present.len()
            &&& present.len() - 2 <= 2 * rank <= present.len()
            &&& median > 100_000_000 ==> refresh_of(present) == median
            &&& median <= 100_000_000 ==> refresh_of(present) == 16_667_000_000
        }),
{
    law_quantile(present, 1, 2)
}

/// A gap between presents misses all but one of the refresh periods that it holds,
/// rounded to the nearest.
pub proof fn law_missed(dt: int, period: int)
    requires
        period > 0,
    ensures
        2 * dt < 3 * period ==> missed(dt, period) == 0,
        2 * dt >= 3 * period ==> -period <= 2 * (dt - period * (missed(dt, period) + 1)) < period,
        missed(dt, period) >= 0,
{
    law_rounded(dt, period);
    let slots = rounded(dt, period);
    if 2 * dt < 3 * period {
        assert(slots <= 1) by (nonlinear_arith)
            requires
                -period <= 2 * (dt - period * slots),
                2 * dt < 3 * period,
                period > 0,
        ;
    } else {
        assert(slots >= 2) by (nonlinear_arith)
            requires
                2 * (dt - period * slots) < period,
                2 * dt >= 3 * period,
                period > 0,
        ;
    }
}

/// Each gap counts for itself: the misses of a window are those of its gaps, so that
/// exchanging one gap exchanges its misses.
pub proof fn law_missed_counts_each(present: Seq<i64>, period: int, n: int, i: int, v: i64)
    requires
        0 <= i < n <= present.len(),
    ensures
        missed_total(present.update(i, v), period, n) == missed_total(present, period, n) + missed(
            v as int,
            period,
        ) - missed(present[i] as int, period),
    decreases n,
{
    if i < n - 1 {
        law_missed_counts_each(present, period, n - 1, i, v);
    } else {
        lemma_missed_before(present, present.update(i, v), period, n - 1);
    }
}

proof fn lemma_missed_before(s: Seq<i64>, t: Seq<i64>, period: int, n: int)
    requires
        0 <= n <= s.len(),
        n <= t.len(),
        forall|i: int| 0 <= i < n ==> #[trigger] s[i] == t[i],
    ensures
        missed_total(s, period, n) == missed_total(t, period, n),
    decreases n,
{
    if n > 0 {
        lemma_missed_before(s, t, period, n - 1);
        assert(s[n - 1] == t[n - 1]);
    }
}

/// The levels that are summarized are those of the finite bands, in their order: a
/// finite band stands behind as many levels as there are finite bands before it.
pub proof fn law_finite_levels(bands: Seq<Sample>, n: int, i: int)
    requires
        0 <= i < n <= bands.len(),
    ensures
        ({
            let levels = finite_levels(bands, n);
            let at = finite_levels(bands, i).len() as int;
            &&& levels.len() <= n
            &&& bands[i].finite() ==> at < levels.len() && levels[at] == bands[i].fixed()
            &&& bands[i].finite() ==> finite_levels(bands, i + 1).len() == at + 1
            &&& !bands[i].finite() ==> finite_levels(bands, i + 1).len() == at
        }),
    decreases n,
{
    assert(finite_levels(bands, 0).len() == 0);
    if i < n - 1 {
        law_finite_levels(bands, n - 1, i);
    } else {
        if n > 1 {
            law_finite_levels(bands, n - 1, 0);
        }
        if bands[i].finite() {
            lemma_level_fits(bands[i]);
        }
    }
}

proof fn lemma_level_fits(s: Sample)
    requires
        s.finite(),
    ensures
        s.fixed() as i64 == s.fixed(),
{
    law_sample_value(s);
}

/// A hop is recorded as a whole number of frames, as far as it fits.
pub proof fn law_hop_sample(hop: u64)
    ensures
        hop <= 9_000_000_000 ==> hop_sample(hop) == 1_000_000_000 * hop,
        hop > 9_000_000_000 ==> hop_sample(hop) == 9_000_000_000_000_000_000,
{
}

/// A recorded frame is the newest sample of every window: each of its times in the
/// window of that time, and the three that the processor spends in all together. A
/// frame that was not presented adds no time between presents.
pub proof fn law_record_times(before: Hud, after: Hud, s: &FrameSample)
    requires
        Hud::recorded(before, after, s),
        before.wf(),
        s.wf(),
    ensures
        after.cpu_total@.last() == s.cpu_build_ms + s.cpu_copy_ms + s.cpu_submit_ms,
        after.cpu_copy@.last() == s.cpu_copy_ms,
        after.submit@.last() == s.cpu_submit_ms,
        after.wait@.last() == s.wait_ms,
        after.lock_wait@.last() == s.lock_wait_ms,
        after.age@.last() == s.spectrum_age_ms,
        s.present_dt_ms > 0 ==> after.present_dt@.last() == s.present_dt_ms,
        s.present_dt_ms <= 0 ==> after.present_dt@ == before.present_dt@,
        after.scene_verts == s.scene_verts,
        after.scene_indices == s.scene_indices,
{
}

/// A frame counts as drawing its spectrum again or as drawing a new one, by whether
/// the last one drew the same; only a new one adds its hop.
pub proof fn law_record_spectra(before: Hud, after: Hud, s: &FrameSample)
    requires
        Hud::recorded(before, after, s),
        before.wf(),
    ensures
        after.frames == before.frames + 1,
        after.last_seq == s.spectrum_seq,
        s.spectrum_seq == before.last_seq ==> after.dup_spectra == before.dup_spectra + 1
            && after.new_spectra == before.new_spectra && after.hop@ == before.hop@,
        s.spectrum_seq != before.last_seq ==> after.new_spectra == before.new_spectra + 1
            && after.dup_spectra == before.dup_spectra,
        s.spectrum_seq != before.last_seq && s.hop_frames <= 9_000_000_000 ==> after.hop@.last()
            == 1_000_000_000 * s.hop_frames,
{
}

/// The summary of the bands holds what it is called: no finite band lies below the
/// least or above the greatest that were noted, and both are bands; the middle and
/// the ninth tenth lie in between, in that order.
pub proof fn law_noted_bands(before: Hud, after: Hud, bands: Seq<Sample>, i: int)
    requires
        Hud::noted(before, after, bands),
        before.wf(),
        0 <= i < bands.len(),
        bands[i].finite(),
    ensures
        after.band_min@.last() <= bands[i].fixed() <= after.band_max@.last(),
        after.band_min@.last() <= after.band_med@.last() <= after.band_p90@.last()
            <= after.band_max@.last(),
{
    let levels = finite_levels(bands, bands.len() as int);
    let sorted = ascending(levels);
    law_finite_levels(bands, bands.len() as int, i);
    let at = finite_levels(bands, i).len() as int;
    law_ascending(levels);
    levels.to_multiset_ensures();
    sorted.to_multiset_ensures();
    assert(levels.contains(levels[at]));
    assert(sorted.to_multiset().count(levels[at]) > 0);
    assert(sorted.contains(levels[at]));
    let k = choose|k: int| 0 <= k < sorted.len() && sorted[k] == levels[at];
    assert(sorted[0] <= sorted[k] <= sorted[levels.len() - 1]);
    let n = levels.len() as int;
    assert(0 <= n / 2 <= n * 9 / 10 <= n - 1);
    assert(sorted[0] <= sorted[n / 2] <= sorted[n * 9 / 10] <= sorted[n - 1]);
}

/// Frames are dropped where a gap between presents holds more than one refresh period:
/// without a gap of a period and a half none is, and each gap that is added adds what
/// it missed.
pub proof fn law_dropped(present: Seq<i64>, gap: i64)
    ensures
        (forall|i: int|
            0 <= i < present.len() ==> 2 * (#[trigger] present[i]) < 3 * refresh_of(present))
            ==> dropped_of(present) == 0,
        refresh_of(present.push(gap)) == refresh_of(present) ==> dropped_of(present.push(gap))
            == dropped_of(present) + missed(gap as int, refresh_of(present)),
{
    let period = refresh_of(present);
    law_refresh(present);
    let n = present.len() as int;
    if forall|i: int| 0 <= i < n ==> 2 * (#[trigger] present[i]) < 3 * period {
        law_steady_drops_nothing(present, period, n);
    }
    lemma_missed_before(present, present.push(gap), period, n);
}

} // verus!
