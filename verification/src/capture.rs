//! Audio capture bookkeeping: the sample ring, the analysis schedule and the
//! lock-free probe counters.

use crate::bands::{
    all_levels, bass_energy, law_mean_level, mean_level, sum_range, FFT_SIZE, NUM_BINS,
};
use crate::number::Sample;
use std::sync::atomic::{AtomicU64, Ordering};
use vstd::prelude::*;

verus! {

/// Lock-free counters written from the real-time capture callback.
///
/// Deliberately atomics rather than fields of [`AudioMetrics`]: the point is to
/// measure how long the callback waits for a lock, so the measurement cannot
/// itself take one.
pub struct AudioProbe {
    /// Input frames delivered by the capture callback since startup.
    pub frames_captured: AtomicU64,
    /// Capture callbacks served.
    pub callbacks: AtomicU64,
    /// Longest single capture callback, in microseconds.
    pub callback_max_us: AtomicU64,
    /// Longest time a capture callback waited for the ring.
    pub callback_lock_max_us: AtomicU64,
    /// Analysis passes run, including ones that recomputed identical data.
    pub analysis_passes: AtomicU64,
    /// Analysis passes that saw no new input at all.
    pub stale_analyses: AtomicU64,
    /// Analysis passes that skipped a full window or more of input.
    pub dropped_windows: AtomicU64,
}

/// What the probe counted, at one moment.
#[derive(Clone, Copy, PartialEq, Eq, Debug)]
pub struct ProbeCounts {
    pub callbacks: u64,
    pub callback_max_us: u64,
    pub callback_lock_max_us: u64,
    pub analysis_passes: u64,
    pub stale_analyses: u64,
    pub dropped_windows: u64,
}

/// The larger of two counts.
pub open spec fn larger(a: u64, b: u64) -> u64 {
    if a < b {
        b
    } else {
        a
    }
}

/// The larger of two counts.
pub fn max_of(a: u64, b: u64) -> (r: u64)
    ensures
        r == larger(a, b),
{
    if a < b {
        b
    } else {
        a
    }
}

// Counters are shared between threads, so what one holds is not a value of the
// counter. What is said of a call is which counter it reached, with what, and
// what came back.
/// `cell` is a counter made to start at `v`.
pub open spec fn starts_at(cell: AtomicU64, v: u64) -> bool {
    call_ensures(AtomicU64::new, (v,), cell)
}

/// `v` is what a load of `cell` gave.
pub open spec fn loaded(cell: &AtomicU64, v: u64) -> bool {
    call_ensures(AtomicU64::load, (cell, Ordering::Relaxed), v)
}

/// `v` was stored in `cell`.
pub open spec fn stored(cell: &AtomicU64, v: u64) -> bool {
    call_ensures(AtomicU64::store, (cell, v, Ordering::Relaxed), ())
}

/// `n` was added to `cell`, which held `before`.
pub open spec fn counted(cell: &AtomicU64, n: u64, before: u64) -> bool {
    call_ensures(AtomicU64::fetch_add, (cell, n, Ordering::Relaxed), before)
}

/// `cell`, which held `before`, was raised to `v` unless it held more.
pub open spec fn raised(cell: &AtomicU64, v: u64, before: u64) -> bool {
    call_ensures(AtomicU64::fetch_max, (cell, v, Ordering::Relaxed), before)
}

impl AudioProbe {
    /// All counters at zero.
    pub fn new() -> (probe: Self)
        ensures
            starts_at(probe.frames_captured, 0),
            starts_at(probe.callbacks, 0),
            starts_at(probe.callback_max_us, 0),
            starts_at(probe.callback_lock_max_us, 0),
            starts_at(probe.analysis_passes, 0),
            starts_at(probe.stale_analyses, 0),
            starts_at(probe.dropped_windows, 0),
    {
        AudioProbe {
            frames_captured: AtomicU64::new(0),
            callbacks: AtomicU64::new(0),
            callback_max_us: AtomicU64::new(0),
            callback_lock_max_us: AtomicU64::new(0),
            analysis_passes: AtomicU64::new(0),
            stale_analyses: AtomicU64::new(0),
            dropped_windows: AtomicU64::new(0),
        }
    }

    /// Monotonically raise a maximum without taking a lock, and return what it
    /// was raised to: never less than `v`.
    pub fn raise_max(cell: &AtomicU64, v: u64) -> (r: u64)
        ensures
            exists|before: u64| #[trigger] raised(cell, v, before) && r == larger(before, v),
            r >= v,
    {
        let before: u64 = cell.fetch_max(v, Ordering::Relaxed);
        assert(raised(cell, v, before));
        max_of(before, v)
    }

    /// Record one capture callback: the frames it delivered, how long it waited
    /// for the ring, and how long it ran. Returns the longest run so far.
    pub fn note_callback(&self, frames: u64, waited_us: u64, ran_us: u64) -> (longest: u64)
        ensures
            exists|before: u64| #[trigger] counted(&self.frames_captured, frames, before),
            exists|before: u64| #[trigger] counted(&self.callbacks, 1, before),
            exists|before: u64| #[trigger] raised(&self.callback_lock_max_us, waited_us, before),
            exists|before: u64|
                #[trigger] raised(&self.callback_max_us, ran_us, before) && longest == larger(
                    before,
                    ran_us,
                ),
            longest >= ran_us,
    {
        let frames_before: u64 = self.frames_captured.fetch_add(frames, Ordering::Relaxed);
        assert(counted(&self.frames_captured, frames, frames_before));
        let callbacks_before: u64 = self.callbacks.fetch_add(1, Ordering::Relaxed);
        assert(counted(&self.callbacks, 1, callbacks_before));
        let _: u64 = AudioProbe::raise_max(&self.callback_lock_max_us, waited_us);
        AudioProbe::raise_max(&self.callback_max_us, ran_us)
    }

    /// Read the counters, each by a load of its own.
    pub fn counts(&self) -> (c: ProbeCounts)
        ensures
            loaded(&self.callbacks, c.callbacks),
            loaded(&self.callback_max_us, c.callback_max_us),
            loaded(&self.callback_lock_max_us, c.callback_lock_max_us),
            loaded(&self.analysis_passes, c.analysis_passes),
            loaded(&self.stale_analyses, c.stale_analyses),
            loaded(&self.dropped_windows, c.dropped_windows),
    {
        ProbeCounts {
            callbacks: self.callbacks.load(Ordering::Relaxed),
            callback_max_us: self.callback_max_us.load(Ordering::Relaxed),
            callback_lock_max_us: self.callback_lock_max_us.load(Ordering::Relaxed),
            analysis_passes: self.analysis_passes.load(Ordering::Relaxed),
            stale_analyses: self.stale_analyses.load(Ordering::Relaxed),
            dropped_windows: self.dropped_windows.load(Ordering::Relaxed),
        }
    }

    /// Forget the longest callback times.
    pub fn reset_maxima(&self)
        ensures
            stored(&self.callback_max_us, 0),
            stored(&self.callback_lock_max_us, 0),
    {
        self.callback_max_us.store(0, Ordering::Relaxed);
        self.callback_lock_max_us.store(0, Ordering::Relaxed);
    }

    /// Record one analysis pass, and return what it added to the counts of stale
    /// passes and of skipped windows.
    pub fn note_pass(&self, pass: &Pass) -> (added: (u64, u64))
        ensures
            added == pass.added(),
            exists|before: u64| #[trigger] counted(&self.analysis_passes, 1, before),
            exists|before: u64| #[trigger] counted(&self.stale_analyses, added.0, before),
            exists|before: u64| #[trigger] counted(&self.dropped_windows, added.1, before),
    {
        let (stale, dropped): (u64, u64) = pass.tally();
        let passes_before: u64 = self.analysis_passes.fetch_add(1, Ordering::Relaxed);
        assert(counted(&self.analysis_passes, 1, passes_before));
        let stale_before: u64 = self.stale_analyses.fetch_add(stale, Ordering::Relaxed);
        assert(counted(&self.stale_analyses, stale, stale_before));
        let dropped_before: u64 = self.dropped_windows.fetch_add(dropped, Ordering::Relaxed);
        assert(counted(&self.dropped_windows, dropped, dropped_before));
        (stale, dropped)
    }
}

/// One published analysis, ready for drawing.
pub struct AudioMetrics {
    pub left_spectrum: Vec<i64>,
    pub right_spectrum: Vec<i64>,
    pub left_rms: Sample,
    pub right_rms: Sample,
    /// Low-frequency pulse, 20 Hz to 250 Hz.
    pub bass_energy: i64,
    /// Raw mono PCM for the current window, before windowing.
    pub waveform: Vec<Sample>,
    /// Raw per-channel PCM, before windowing.
    pub left_waveform: Vec<Sample>,
    pub right_waveform: Vec<Sample>,
    /// Identifier of the content, bumped only when new audio reached the
    /// analyser.
    pub seq: u64,
    /// When this spectrum was published, in nanoseconds since startup.
    pub produced_at: Option<u64>,
    /// Input frames delivered since the previous pass: the hop that actually
    /// happened.
    pub hop_frames: u64,
    /// Gap between this pass and the previous one, in nanoseconds.
    pub analysis_dt: u64,
}

impl Default for AudioMetrics {
    fn default() -> (m: Self)
        ensures
            m.left_spectrum@.len() == 0,
            m.right_spectrum@.len() == 0,
            m.left_rms.bits == 0,
            m.right_rms.bits == 0,
            m.bass_energy == 0,
            m.waveform@.len() == 0,
            m.left_waveform@.len() == 0,
            m.right_waveform@.len() == 0,
            m.seq == 0,
            m.produced_at is None,
            m.hop_frames == 0,
            m.analysis_dt == 0,
    {
        AudioMetrics {
            left_spectrum: Vec::new(),
            right_spectrum: Vec::new(),
            left_rms: Sample { bits: 0 },
            right_rms: Sample { bits: 0 },
            bass_energy: 0,
            waveform: Vec::new(),
            left_waveform: Vec::new(),
            right_waveform: Vec::new(),
            seq: 0,
            produced_at: None,
            hop_frames: 0,
            analysis_dt: 0,
        }
    }
}

/// What one analysis pass computed from its window.
pub struct Analysis {
    pub left_spectrum: Vec<i64>,
    pub right_spectrum: Vec<i64>,
    pub left_rms: Sample,
    pub right_rms: Sample,
    pub waveform: Vec<Sample>,
    pub left_waveform: Vec<Sample>,
    pub right_waveform: Vec<Sample>,
}

impl AudioMetrics {
    /// `after` holds what the analysis `a` of the pass found.
    pub open spec fn published(
        after: AudioMetrics,
        a: Analysis,
        pass: &Pass,
        bass: (usize, usize),
        now: u64,
    ) -> bool {
        &&& after.left_spectrum == a.left_spectrum
        &&& after.right_spectrum == a.right_spectrum
        &&& after.left_rms == a.left_rms
        &&& after.right_rms == a.right_rms
        &&& after.bass_energy == mean_level(
            a.left_spectrum@,
            a.right_spectrum@,
            bass.0 as int,
            bass.1 as int,
        ) as i64
        &&& after.waveform == a.waveform
        &&& after.left_waveform == a.left_waveform
        &&& after.right_waveform == a.right_waveform
        &&& after.seq == pass.seq
        &&& after.produced_at == Some(now)
        &&& after.hop_frames == pass.hop_frames
        &&& after.analysis_dt == pass.dt
    }
}

impl AudioMetrics {
    /// Publish an analysis at time `now`, with the bass energy over the bins
    /// from `bass.0` to `bass.1`.
    pub fn publish(&mut self, a: Analysis, pass: &Pass, bass: (usize, usize), now: u64)
        requires
            bass.0 < bass.1 <= NUM_BINS,
            a.left_spectrum@.len() == NUM_BINS,
            a.right_spectrum@.len() == NUM_BINS,
            all_levels(a.left_spectrum@),
            all_levels(a.right_spectrum@),
        ensures
            *final(self) == (AudioMetrics {
                left_spectrum: a.left_spectrum,
                right_spectrum: a.right_spectrum,
                left_rms: a.left_rms,
                right_rms: a.right_rms,
                bass_energy: mean_level(
                    a.left_spectrum@,
                    a.right_spectrum@,
                    bass.0 as int,
                    bass.1 as int,
                ) as i64,
                waveform: a.waveform,
                left_waveform: a.left_waveform,
                right_waveform: a.right_waveform,
                seq: pass.seq,
                produced_at: Some(now),
                hop_frames: pass.hop_frames,
                analysis_dt: pass.dt,
            }),
            AudioMetrics::published(*final(self), a, pass, bass, now),
    {
        let energy: i64 = bass_energy(
            a.left_spectrum.as_slice(),
            a.right_spectrum.as_slice(),
            bass.0,
            bass.1,
        );
        *self = AudioMetrics {
            left_spectrum: a.left_spectrum,
            right_spectrum: a.right_spectrum,
            left_rms: a.left_rms,
            right_rms: a.right_rms,
            bass_energy: energy,
            waveform: a.waveform,
            left_waveform: a.left_waveform,
            right_waveform: a.right_waveform,
            seq: pass.seq,
            produced_at: Some(now),
            hop_frames: pass.hop_frames,
            analysis_dt: pass.dt,
        };
    }
}

// -- the ring ---------------------------------------------------------------
/// The last `cap` entries of `s`, or all of them.
pub open spec fn newest<T>(s: Seq<T>, cap: int) -> Seq<T> {
    if s.len() > cap {
        s.skip(s.len() - cap)
    } else {
        s
    }
}

/// Append captured samples to the ring and trim it from the front to `cap`.
pub fn append_newest<T: Copy>(ring: &mut Vec<T>, data: &[T], cap: usize)
    requires
        old(ring)@.len() <= cap,
        old(ring)@.len() + data@.len() <= usize::MAX,
    ensures
        final(ring)@ == newest(old(ring)@ + data@, cap as int),
        final(ring)@.len() <= cap,
{
    let have: usize = ring.len();
    let total: usize = have + data.len();
    let skip: usize = if total > cap {
        total - cap
    } else {
        0
    };
    let ghost all = ring@ + data@;
    let keep: usize = if skip < have {
        have - skip
    } else {
        0
    };
    let ghost before = ring@;
    let mut i: usize = 0;
    while i < keep
        invariant
            i <= keep,
            keep == 0 || keep + skip == have,
            before.len() == have,
            ring@.len() == have,
            forall|j: int| 0 <= j < i ==> #[trigger] ring@[j] == before[j + skip],
            forall|j: int| i <= j < have ==> #[trigger] ring@[j] == before[j],
        decreases keep - i,
    {
        let v: T = ring[i + skip];
        ring.set(i, v);
        i = i + 1;
    }
    ring.truncate(keep);
    let mut k: usize = if skip < have {
        0
    } else {
        skip - have
    };
    let ghost from = k as int;
    while k < data.len()
        invariant
            from <= k <= data@.len(),
            from == (if skip < have {
                0
            } else {
                skip - have
            }),
            before.len() == have,
            all == before + data@,
            keep + from + skip == have + 2 * from,
            keep == 0 || from == 0,
            ring@.len() == keep + (k - from),
            forall|j: int| 0 <= j < ring@.len() ==> #[trigger] ring@[j] == all[j + skip],
        decreases data@.len() - k,
    {
        ring.push(data[k]);
        k = k + 1;
    }
    assert(ring@ =~= newest(all, cap as int));
}

/// The ring holds a full analysis window.
pub open spec fn window_full(len: int, channels: int) -> bool {
    len >= FFT_SIZE * channels
}

/// Whether the ring holds a full analysis window of interleaved frames.
pub fn window_ready(len: usize, channels: u16) -> (r: bool)
    ensures
        r == window_full(len as int, channels as int),
{
    let need: u64 = 1024 * channels as u64;
    len as u64 >= need
}

/// Split an interleaved window into left and right channels; a mono stream
/// gives both the same samples.
pub fn deinterleave<T: Copy>(pcm: &[T], channels: usize) -> (r: (Vec<T>, Vec<T>))
    requires
        1 <= channels <= 0xFFFF,
        window_full(pcm@.len() as int, channels as int),
    ensures
        r.0@.len() == FFT_SIZE,
        r.1@.len() == FFT_SIZE,
        forall|i: int| 0 <= i < FFT_SIZE ==> #[trigger] r.0@[i] == pcm@[i * channels],
        forall|i: int|
            0 <= i < FFT_SIZE ==> #[trigger] r.1@[i] == (if channels > 1 {
                pcm@[i * channels + 1]
            } else {
                pcm@[i * channels]
            }),
{
    let mut left: Vec<T> = Vec::with_capacity(FFT_SIZE);
    let mut right: Vec<T> = Vec::with_capacity(FFT_SIZE);
    let mut i: usize = 0;
    while i < FFT_SIZE
        invariant
            i <= FFT_SIZE,
            1 <= channels <= 0xFFFF,
            window_full(pcm@.len() as int, channels as int),
            left@.len() == i,
            right@.len() == i,
            forall|j: int| 0 <= j < i ==> #[trigger] left@[j] == pcm@[j * channels],
            forall|j: int|
                0 <= j < i ==> #[trigger] right@[j] == (if channels > 1 {
                    pcm@[j * channels + 1]
                } else {
                    pcm@[j * channels]
                }),
        decreases FFT_SIZE - i,
    {
        assert(i * channels + channels <= 1024 * channels) by (nonlinear_arith)
            requires
                i < 1024,
                channels >= 1,
        ;
        assert(0 <= i * channels <= 1024 * 0xFFFF) by (nonlinear_arith)
            requires
                0 <= i <= 1024,
                0 <= channels <= 0xFFFF,
        ;
        let at: usize = i * channels;
        left.push(pcm[at]);
        right.push(
            if channels > 1 {
                pcm[at + 1]
            } else {
                pcm[at]
            },
        );
        i = i + 1;
    }
    (left, right)
}

// -- the schedule -----------------------------------------------------------
/// What one analysis pass found.
#[derive(Clone, Copy, PartialEq, Eq, Debug)]
pub struct Pass {
    /// Content identifier.
    pub seq: u64,
    /// Frames captured since the previous pass.
    pub hop_frames: u64,
    /// Time since the previous pass, in nanoseconds.
    pub dt: u64,
    /// New audio arrived.
    pub fresh: bool,
    /// The window advanced by at least its own length.
    pub dropped: bool,
}

impl Pass {
    /// What the pass adds to the counts of stale passes and of skipped windows.
    pub open spec fn added(&self) -> (u64, u64) {
        (
            if self.fresh {
                0
            } else {
                1
            },
            if self.dropped {
                1
            } else {
                0
            },
        )
    }

    /// What the pass adds to the counts of stale passes and of skipped windows.
    pub fn tally(&self) -> (t: (u64, u64))
        ensures
            t == self.added(),
    {
        (
            if self.fresh {
                0
            } else {
                1
            },
            if self.dropped {
                1
            } else {
                0
            },
        )
    }
}

/// Tracks how far the capture advanced between analysis passes.
#[derive(Clone, Copy, PartialEq, Eq, Debug)]
pub struct Schedule {
    pub seq: u64,
    pub last_captured: u64,
    pub last_pass: u64,
}

/// `a - b`, or zero.
pub open spec fn less_or_zero(a: u64, b: u64) -> u64 {
    if a > b {
        (a - b) as u64
    } else {
        0
    }
}

fn minus(a: u64, b: u64) -> (r: u64)
    ensures
        r == less_or_zero(a, b),
{
    if a > b {
        a - b
    } else {
        0
    }
}

impl Schedule {
    /// `p` is the pass from `before` to `after`, with `captured` frames in all by `now`.
    pub open spec fn advanced(
        before: Schedule,
        after: Schedule,
        captured: u64,
        now: u64,
        p: Pass,
    ) -> bool {
        &&& p.hop_frames == less_or_zero(captured, before.last_captured)
        &&& p.dt == less_or_zero(now, before.last_pass)
        &&& p.fresh == (p.hop_frames > 0)
        &&& p.dropped == (p.hop_frames >= FFT_SIZE)
        &&& p.seq == before.seq + if p.fresh {
            1int
        } else {
            0
        }
        &&& after == Schedule { seq: p.seq, last_captured: captured, last_pass: now }
    }
}

impl Schedule {
    /// Nothing captured yet.
    pub fn new(now: u64) -> (s: Self)
        ensures
            s.seq == 0,
            s.last_captured == 0,
            s.last_pass == now,
    {
        Schedule { seq: 0, last_captured: 0, last_pass: now }
    }

    /// Run a pass at time `now`, with `captured` frames delivered so far.
    ///
    /// Only new audio makes new content, so a pass that saw none keeps the
    /// previous identifier.
    pub fn advance(&mut self, captured: u64, now: u64) -> (p: Pass)
        requires
            old(self).seq < u64::MAX,
        ensures
            p.hop_frames == less_or_zero(captured, old(self).last_captured),
            p.dt == less_or_zero(now, old(self).last_pass),
            p.fresh == (p.hop_frames > 0),
            p.dropped == (p.hop_frames >= FFT_SIZE),
            p.seq == (if p.fresh {
                old(self).seq + 1
            } else {
                old(self).seq as int
            }),
            final(self).seq == p.seq,
            final(self).last_captured == captured,
            final(self).last_pass == now,
            Schedule::advanced(*old(self), *final(self), captured, now, p),
    {
        let hop: u64 = minus(captured, self.last_captured);
        let dt: u64 = minus(now, self.last_pass);
        self.last_captured = captured;
        self.last_pass = now;
        if hop > 0 {
            self.seq = self.seq + 1;
        }
        Pass { seq: self.seq, hop_frames: hop, dt, fresh: hop > 0, dropped: hop >= 1024 }
    }
}

/// Consecutive hops add up to everything captured: no input is counted twice or
/// lost between passes.
pub proof fn law_hops_add_up(a: u64, b: u64, c: u64)
    requires
        a <= b <= c,
    ensures
        less_or_zero(b, a) + less_or_zero(c, b) == less_or_zero(c, a),
{
}

/// Trimming as samples arrive keeps exactly the newest ones, however the input
/// is divided into callbacks.
pub proof fn law_ring_keeps_newest<T>(ring: Seq<T>, a: Seq<T>, b: Seq<T>, cap: int)
    requires
        0 <= cap,
    ensures
        newest(newest(ring + a, cap) + b, cap) == newest(ring + a + b, cap),
{
    let l = newest(newest(ring + a, cap) + b, cap);
    let r = newest(ring + a + b, cap);
    assert(l.len() == r.len());
    assert(l =~= r);
}

/// A ring keeps the last of what it was given, in order, as far as it can hold.
pub proof fn law_newest<T>(s: Seq<T>, cap: int, i: int)
    requires
        0 <= cap,
        0 <= i < s.len(),
        i + cap >= s.len(),
    ensures
        s.len() <= cap ==> newest(s, cap).len() == s.len() && newest(s, cap)[i] == s[i],
        s.len() > cap ==> newest(s, cap).len() == cap && newest(s, cap)[i + cap - s.len()] == s[i],
{
}

/// A difference that does not go below nothing.
pub proof fn law_less_or_zero(a: u64, b: u64)
    ensures
        b <= a ==> less_or_zero(a, b) + b == a,
        a <= b ==> less_or_zero(a, b) == 0,
{
}

/// The larger of two values is one of them, and no less than the other.
pub proof fn law_larger(a: u64, b: u64)
    ensures
        larger(a, b) >= a,
        larger(a, b) >= b,
        larger(a, b) == a || larger(a, b) == b,
{
}

/// A window is full with 1024 frames of every channel.
pub proof fn law_window_full(len: int, channels: int)
    ensures
        window_full(len, channels) <==> len >= 1024 * channels,
{
}

/// A pass counts as stale where it found nothing new, and as one that dropped a
/// window where more came than a window holds.
pub proof fn law_pass_counts(pass: Pass)
    ensures
        pass.added().0 == 1 <==> !pass.fresh,
        pass.added().0 == 0 <==> pass.fresh,
        pass.added().1 == 1 <==> pass.dropped,
        pass.added().1 == 0 <==> !pass.dropped,
{
}

/// The channels of interleaved sound are told apart: frame `i` has its first sample on
/// the left and its second on the right, or the same on both where there is but one.
pub proof fn law_channels(pcm: &[i64], channels: usize, r: (Vec<i64>, Vec<i64>), i: int)
    requires
        1 <= channels <= 0xFFFF,
        pcm@.len() >= 1024 * channels,
        call_ensures(deinterleave::<i64>, (pcm, channels), r),
        0 <= i < 1024,
    ensures
        r.0@.len() == 1024,
        r.1@.len() == 1024,
        r.0@[i] == pcm@[i * channels],
        channels >= 2 ==> r.1@[i] == pcm@[i * channels + 1],
        channels == 1 ==> r.1@[i] == r.0@[i] == pcm@[i],
{
    if channels == 1 {
        assert(i * channels == i) by (nonlinear_arith)
            requires
                channels == 1,
        ;
    }
}

/// A pass covers what was captured and the time that went by since the pass before:
/// it is fresh where anything came, and counts only then; one that brought a whole
/// window or more dropped some.
pub proof fn law_schedule_advances(
    before: Schedule,
    after: Schedule,
    captured: u64,
    now: u64,
    p: Pass,
)
    requires
        Schedule::advanced(before, after, captured, now, p),
    ensures
        before.last_captured <= captured ==> before.last_captured + p.hop_frames == captured,
        captured <= before.last_captured ==> p.hop_frames == 0,
        before.last_pass <= now ==> before.last_pass + p.dt == now,
        now <= before.last_pass ==> p.dt == 0,
        p.fresh <==> captured > before.last_captured,
        p.dropped <==> captured >= before.last_captured + 1024,
        p.fresh ==> p.seq == before.seq + 1,
        !p.fresh ==> p.seq == before.seq,
        after.seq == p.seq,
        after.last_captured == captured,
        after.last_pass == now,
{
}

/// Two passes cover between them what one in their place would have covered.
pub proof fn law_passes_add_up(
    a: Schedule,
    b: Schedule,
    c: Schedule,
    d: Schedule,
    first: Pass,
    second: Pass,
    both: Pass,
    captured: u64,
    more: u64,
    now: u64,
    later: u64,
)
    requires
        Schedule::advanced(a, b, captured, now, first),
        Schedule::advanced(b, c, more, later, second),
        Schedule::advanced(a, d, more, later, both),
        a.last_captured <= captured <= more,
        a.last_pass <= now <= later,
    ensures
        first.hop_frames + second.hop_frames == both.hop_frames,
        first.dt + second.dt == both.dt,
        both.fresh <==> first.fresh || second.fresh,
        c.last_captured == d.last_captured,
        c.last_pass == d.last_pass,
{
}

/// What is published are the findings of the pass, each channel's as that channel's,
/// under the pass's number and with the time it came.
pub proof fn law_published(
    after: AudioMetrics,
    a: Analysis,
    pass: &Pass,
    bass: (usize, usize),
    now: u64,
    i: int,
)
    requires
        AudioMetrics::published(after, a, pass, bass, now),
    ensures
        after.left_spectrum@[i] == a.left_spectrum@[i],
        after.right_spectrum@[i] == a.right_spectrum@[i],
        after.left_rms == a.left_rms,
        after.right_rms == a.right_rms,
        after.waveform@ == a.waveform@,
        after.left_waveform@ == a.left_waveform@,
        after.right_waveform@ == a.right_waveform@,
        after.seq == pass.seq,
        after.hop_frames == pass.hop_frames,
        after.analysis_dt == pass.dt,
        after.produced_at == Some(now),
{
}

/// The bass that is published is the mean of both channels over the bass bins.
pub proof fn law_published_bass(
    after: AudioMetrics,
    a: Analysis,
    pass: &Pass,
    bass: (usize, usize),
    now: u64,
)
    requires
        AudioMetrics::published(after, a, pass, bass, now),
        bass.0 < bass.1 <= 512,
        a.left_spectrum@.len() == 512,
        a.right_spectrum@.len() == 512,
        all_levels(a.left_spectrum@),
        all_levels(a.right_spectrum@),
    ensures
        ({
            let (from, to) = (bass.0 as int, bass.1 as int);
            let sum = sum_range(a.left_spectrum@, from, to) + sum_range(
                a.right_spectrum@,
                from,
                to,
            );
            0 <= sum - 2 * (to - from) * after.bass_energy < 2 * (to - from)
        }),
{
    let (from, to) = (bass.0 as int, bass.1 as int);
    let (left, right) = (a.left_spectrum@, a.right_spectrum@);
    law_mean_level(left, right, from, to);
    lemma_sum_range(left, from, to);
    lemma_sum_range(right, from, to);
    let sum = sum_range(left, from, to) + sum_range(right, from, to);
    let n = 2 * (to - from);
    let m = mean_level(left, right, from, to);
    assert(-1 < m <= 1_000_000_000) by (nonlinear_arith)
        requires
            0 <= sum - n * m < n,
            0 <= sum <= n * 1_000_000_000,
            n >= 2,
    ;
}

proof fn lemma_sum_range(s: Seq<i64>, from: int, to: int)
    requires
        0 <= from <= to <= s.len(),
        all_levels(s),
    ensures
        0 <= sum_range(s, from, to) <= (to - from) * 1_000_000_000,
    decreases to - from,
{
    if from < to {
        lemma_sum_range(s, from, to - 1);
        assert(0 <= s[to - 1] <= 1_000_000_000);
    }
}

} // verus!
