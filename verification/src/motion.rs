//! Time-driven state shared by the visuals: the frame clock and the
//! auto-ranging contrast stretch.
//!
//! Times are nanoseconds. Every animated quantity integrates against elapsed
//! time rather than counting frames, so motion is the same at any frame rate.

use crate::number::{
    blend, clamp, clamped, law_blend, lemma_blend_between, lerp, mul_div, trunc, Sample, ONE,
};
use vstd::prelude::*;

verus! {

/// Largest frame delta any time-driven filter will integrate. Caps how far a
/// stall can teleport an animation.
pub const DT_CEILING: u64 = 100_000_000;

/// Frame-delta source.
#[derive(Clone, Copy, PartialEq, Eq, Debug)]
pub struct Clock {
    pub last: Option<u64>,
}

impl Default for Clock {
    fn default() -> (c: Self)
        ensures
            c.last is None,
    {
        Clock { last: None }
    }
}

/// Time since the previous tick: zero on the first one or when time runs
/// backwards, and never more than [`DT_CEILING`].
pub open spec fn tick_of(last: Option<u64>, time: u64) -> u64 {
    match last {
        None => 0,
        Some(prev) => if time <= prev {
            0
        } else if time - prev > DT_CEILING {
            DT_CEILING
        } else {
            (time - prev) as u64
        },
    }
}

impl Clock {
    /// Advance to `time` and return the frame delta.
    pub fn tick(&mut self, time: u64) -> (dt: u64)
        ensures
            final(self).last == Some(time),
            dt == tick_of(old(self).last, time),
            dt <= DT_CEILING,
    {
        let dt: u64 = match self.last {
            None => 0,
            Some(prev) => if time <= prev {
                0
            } else if time - prev > DT_CEILING {
                DT_CEILING
            } else {
                time - prev
            },
        };
        self.last = Some(time);
        dt
    }
}

/// Frame deltas add up to the elapsed time however it is divided into frames,
/// as long as no frame exceeds the ceiling.
pub proof fn law_ticks_add_up(a: u64, b: u64, c: u64)
    requires
        a <= b <= c,
        c - a <= DT_CEILING,
    ensures
        tick_of(Some(a), b) + tick_of(Some(b), c) == tick_of(Some(a), c),
{
}

/// Width of the contrast window in normalized level: 25 dB of the 90 dB range.
pub const RANGE_SPAN: i64 = 277_777_777;

/// Time constant for the window's ceiling to rise to a new peak.
pub const RANGE_ATTACK: u64 = 150_000_000;

/// Time constant for it to fall back. Slow, so the image does not pump between
/// loud and quiet passages.
pub const RANGE_RELEASE: u64 = 2_500_000_000;

/// Loudest finite level among the first `n` bands, at least zero.
pub open spec fn loudest(bands: Seq<Sample>, n: int) -> int
    decreases n,
{
    if n <= 0 {
        0
    } else {
        let rest = loudest(bands, n - 1);
        if bands[n - 1].finite() && bands[n - 1].fixed() > rest {
            bands[n - 1].fixed()
        } else {
            rest
        }
    }
}

/// Peak of the bands, limited to `0..=ONE`.
pub open spec fn peak_of(bands: Seq<Sample>) -> int {
    clamped(loudest(bands, bands.len() as int), 0, ONE as int)
}

/// Measure the peak of the bands, ignoring non-finite levels.
pub fn band_peak(bands: &[Sample]) -> (peak: i64)
    ensures
        peak == peak_of(bands@),
        0 <= peak <= ONE,
{
    let mut top: i64 = 0;
    let mut i: usize = 0;
    while i < bands.len()
        invariant
            i <= bands@.len(),
            top == loudest(bands@, i as int),
            top >= 0,
        decreases bands@.len() - i,
    {
        if bands[i].is_finite() {
            let v: i64 = bands[i].to_fixed();
            if v > top {
                top = v;
            }
        }
        i = i + 1;
    }
    clamp(top, 0, ONE)
}

/// Auto-ranging contrast stretch, shared by every band-driven visual.
///
/// The band levels arrive on a 90 dB scale mapped into `0..=ONE`, but music only
/// occupies a narrow slice near the top of it. This tracks the loudest band with
/// a fast-attack, slow-release envelope and stretches the window below that peak
/// to fill `0..=ONE`. Tracking the peak is what keeps the picture stable when
/// the playback volume changes.
///
/// The ceiling never falls below the window width; otherwise silence would
/// stretch up to full scale.
#[derive(Clone, Copy, PartialEq, Eq, Debug)]
pub struct AutoRange {
    pub hi: i64,
}

/// Ceiling after moving `alpha` of the way to `peak`.
pub open spec fn ranged(hi: int, peak: int, alpha: int) -> int {
    clamped(
        blend(hi, peak, clamped(alpha, 0, ONE as int)),
        RANGE_SPAN as int,
        ONE as int,
    )
}

/// Level `v` stretched by the window below `hi`.
pub open spec fn stretched(hi: int, v: int) -> int {
    clamped(trunc((v - (hi - RANGE_SPAN)) * ONE, RANGE_SPAN as int), 0, ONE as int)
}

/// A level as read by the stretch: non-finite levels are dark.
pub open spec fn applied(hi: int, level: Sample) -> int {
    if level.finite() {
        stretched(hi, level.fixed())
    } else {
        0
    }
}

/// Time constant for a move towards `peak`.
pub open spec fn range_tau(hi: int, peak: int) -> u64 {
    if peak > hi {
        RANGE_ATTACK
    } else {
        RANGE_RELEASE
    }
}

impl AutoRange {
    /// The window stays inside the scale.
    pub open spec fn wf(&self) -> bool {
        RANGE_SPAN <= self.hi <= ONE
    }

    /// The lowest window.
    pub fn new() -> (r: Self)
        ensures
            r.wf(),
            r.hi == RANGE_SPAN,
    {
        AutoRange { hi: RANGE_SPAN }
    }

    /// `after` is the window once `peak` was followed for `dt`, easing with
    /// `ease`. No time, no motion.
    pub open spec fn followed<E: Fn(u64, u64) -> i64>(
        before: AutoRange,
        after: AutoRange,
        peak: int,
        dt: u64,
        ease: &E,
    ) -> bool {
        if dt == 0 {
            after == before
        } else {
            exists|alpha: i64|
                #![trigger call_ensures(ease, (dt, range_tau(before.hi as int, peak)), alpha)]
                call_ensures(ease, (dt, range_tau(before.hi as int, peak)), alpha) && after.hi
                    == ranged(before.hi as int, peak, alpha as int)
        }
    }

    /// `after` is the window once `bands` were seen for `dt`.
    pub open spec fn updated<E: Fn(u64, u64) -> i64>(
        before: AutoRange,
        after: AutoRange,
        bands: Seq<Sample>,
        dt: u64,
        ease: &E,
    ) -> bool {
        AutoRange::followed(before, after, peak_of(bands), dt, ease)
    }

    /// Follow the bands for `dt`.
    ///
    /// `ease` gives the fraction of the way a first-order filter of time
    /// constant `tau` moves in `dt`; its result is limited to `0..=ONE`.
    pub fn update<E: Fn(u64, u64) -> i64>(&mut self, bands: &[Sample], dt: u64, ease: &E)
        requires
            old(self).wf(),
            forall|t: u64, tau: u64| call_requires(ease, (t, tau)),
        ensures
            final(self).wf(),
            AutoRange::updated(*old(self), *final(self), bands@, dt, ease),
            dt == 0 ==> *final(self) == *old(self),
    {
        let peak: i64 = band_peak(bands);
        self.follow(peak, dt, ease);
    }

    /// Follow a peak for `dt`.
    pub fn follow<E: Fn(u64, u64) -> i64>(&mut self, peak: i64, dt: u64, ease: &E)
        requires
            old(self).wf(),
            0 <= peak <= ONE,
            forall|t: u64, tau: u64| call_requires(ease, (t, tau)),
        ensures
            final(self).wf(),
            AutoRange::followed(*old(self), *final(self), peak as int, dt, ease),
            dt == 0 ==> *final(self) == *old(self),
    {
        if dt == 0 {
            return;
        }
        let tau: u64 = if peak > self.hi {
            RANGE_ATTACK
        } else {
            RANGE_RELEASE
        };
        let alpha: i64 = ease(dt, tau);
        self.advance(peak, alpha);
        assert(call_ensures(ease, (dt, range_tau(old(self).hi as int, peak as int)), alpha));
    }

    /// Move the ceiling `alpha` of the way to `peak`.
    pub fn advance(&mut self, peak: i64, alpha: i64)
        requires
            old(self).wf(),
            0 <= peak <= ONE,
        ensures
            final(self).wf(),
            final(self).hi == ranged(old(self).hi as int, peak as int, alpha as int),
    {
        let a: i64 = clamp(alpha, 0, ONE);
        self.hi = clamp(lerp(self.hi, peak, a), RANGE_SPAN, ONE);
    }

    /// Stretch one level.
    pub fn apply(&self, level: Sample) -> (r: i64)
        requires
            self.wf(),
        ensures
            r == applied(self.hi as int, level),
            0 <= r <= ONE,
    {
        if !level.is_finite() {
            return 0;
        }
        self.stretch(level.to_fixed())
    }

    /// Stretch one fixed-point level.
    pub fn stretch(&self, v: i64) -> (r: i64)
        requires
            self.wf(),
        ensures
            r == stretched(self.hi as int, v as int),
            0 <= r <= ONE,
    {
        let lo: i64 = self.hi - RANGE_SPAN;
        proof {
            lemma_stretch_limits(self.hi as int, v as int);
        }
        if v <= lo {
            return 0;
        }
        if v >= self.hi {
            return ONE;
        }
        clamp(mul_div(v - lo, ONE, RANGE_SPAN), 0, ONE)
    }
}

proof fn lemma_stretch_limits(hi: int, v: int)
    ensures
        v <= hi - RANGE_SPAN ==> stretched(hi, v) == 0,
        v >= hi ==> stretched(hi, v) == ONE,
{
    let lo = hi - RANGE_SPAN;
    let n = (v - lo) * ONE;
    let d = RANGE_SPAN as int;
    if v <= lo {
        if n < 0 {
            assert((-n) / d >= 0) by (nonlinear_arith)
                requires
                    -n >= 0,
                    d == 277_777_777,
            ;
        }
    }
    if v >= hi {
        assert(n >= d * 1_000_000_000);
        assert(n / d >= 1_000_000_000) by (nonlinear_arith)
            requires
                n >= d * 1_000_000_000,
                d == 277_777_777,
        ;
    }
}

/// Silence stays dark in every state: a level of zero is never stretched up.
pub proof fn law_silence_stays_dark(range: AutoRange, level: int)
    requires
        range.wf(),
        level <= 0,
    ensures
        stretched(range.hi as int, level) == 0,
{
    lemma_stretch_limits(range.hi as int, level);
}

/// A band at the tracked ceiling reaches full scale.
pub proof fn law_ceiling_is_full_scale(range: AutoRange, level: int)
    requires
        range.wf(),
        level >= range.hi,
    ensures
        stretched(range.hi as int, level) == ONE,
{
    lemma_stretch_limits(range.hi as int, level);
}

/// A louder band is never drawn smaller.
pub proof fn law_stretch_monotone(hi: int, a: int, b: int)
    requires
        a <= b,
    ensures
        stretched(hi, a) <= stretched(hi, b),
{
    crate::number::lemma_trunc_monotone(
        (a - (hi - RANGE_SPAN)) * ONE,
        (b - (hi - RANGE_SPAN)) * ONE,
        RANGE_SPAN as int,
    );
}

/// The picture follows the volume: levels and ceiling shifted together give the
/// same heights.
pub proof fn law_stretch_follows_volume(hi: int, level: int, shift: int)
    ensures
        stretched(hi - shift, level - shift) == stretched(hi, level),
{
}

/// Differences inside the window are widened by the ratio of the scale to the
/// window, 3.6 times.
pub proof fn law_stretch_widens(hi: int, a: int, b: int)
    requires
        hi - RANGE_SPAN <= a <= b <= hi,
    ensures
        10 * (stretched(hi, b) - stretched(hi, a)) >= 36 * (b - a) - 10,
{
    let d = 277_777_777int;
    let lo = hi - d;
    let x = (a - lo) * ONE;
    let y = (b - lo) * ONE;
    assert(0 <= x / d <= 1_000_000_000) by (nonlinear_arith)
        requires
            0 <= x <= d * 1_000_000_000,
            d == 277_777_777,
    ;
    assert(0 <= y / d <= 1_000_000_000) by (nonlinear_arith)
        requires
            0 <= y <= d * 1_000_000_000,
            d == 277_777_777,
    ;
}

/// Every update moves the ceiling towards the peak, never past it and never
/// away from it.
pub proof fn law_range_approaches(hi: int, peak: int, alpha: int)
    requires
        RANGE_SPAN <= hi <= ONE,
        0 <= peak <= ONE,
    ensures
        hi <= peak ==> hi <= ranged(hi, peak, alpha) <= peak,
        peak <= hi ==> clamped(peak, RANGE_SPAN as int, ONE as int) <= ranged(hi, peak, alpha)
            <= hi,
{
    lemma_blend_between(hi, peak, clamped(alpha, 0, ONE as int));
}

/// Fractions `a` and `b` of the way, one after the other, amount to the fraction
/// `both`, to within `slack` billionths of what is left.
pub open spec fn compose(a: int, b: int, both: int, slack: int) -> bool {
    -slack * ONE <= (ONE - both) * ONE - (ONE - a) * (ONE - b) <= slack * ONE
}

/// Easing does not depend on how a stretch of time is divided into frames: where
/// the fractions compose, two steps towards one peak land where a single step
/// lands, to within the slack of the fractions and one unit.
pub proof fn law_envelope_composes(hi: int, peak: int, a: int, b: int, both: int, slack: int)
    requires
        0 <= hi <= ONE,
        0 <= peak <= ONE,
        0 <= a <= ONE,
        0 <= b <= ONE,
        0 <= slack,
        compose(a, b, both, slack),
    ensures
        ({
            let two = blend(blend(hi, peak, a), peak, b);
            let one = blend(hi, peak, both);
            one - 1 - slack <= two <= one + slack
        }),
{
    let k = 1_000_000_000 - a;
    let c = 1_000_000_000 - b;
    let m = 1_000_000_000 - both;
    let n1 = hi * k + peak * a;
    let h1 = n1 / 1_000_000_000;
    let e1 = n1 % 1_000_000_000;
    let n2 = h1 * c + peak * b;
    let h2 = n2 / 1_000_000_000;
    let e2 = n2 % 1_000_000_000;
    let n = hi * m + peak * both;
    let h = n / 1_000_000_000;
    let e = n % 1_000_000_000;
    // Scaled up, both results come from one number, up to what is rounded away.
    let x = 1_000_000_000 * m - k * c;
    let w = (hi - peak) * x;
    assert(n1 * c == hi * (k * c) + peak * (a * c)) by (nonlinear_arith)
        requires
            n1 == hi * k + peak * a,
    ;
    assert(1_000_000_000 * (h1 * c) == n1 * c - e1 * c) by (nonlinear_arith)
        requires
            n1 == 1_000_000_000 * h1 + e1,
    ;
    assert(1_000_000_000 * both == a * c + 1_000_000_000 * b - x) by (nonlinear_arith)
        requires
            x == 1_000_000_000 * m - k * c,
            m == 1_000_000_000 - both,
            k == 1_000_000_000 - a,
            c == 1_000_000_000 - b,
    ;
    assert(1_000_000_000 * (peak * both) == peak * (a * c) + 1_000_000_000 * (peak * b) - peak * x)
        by (nonlinear_arith)
        requires
            1_000_000_000 * both == a * c + 1_000_000_000 * b - x,
    ;
    assert(1_000_000_000 * (hi * m) == hi * (k * c) + hi * x) by (nonlinear_arith)
        requires
            1_000_000_000 * m == k * c + x,
    ;
    assert(w == hi * x - peak * x) by (nonlinear_arith)
        requires
            w == (hi - peak) * x,
    ;
    assert(1_000_000_000 * n2 == 1_000_000_000 * n - w - e1 * c);
    assert(-1_000_000_000_000_000_000 * slack <= w <= 1_000_000_000_000_000_000 * slack)
        by (nonlinear_arith)
        requires
            w == (hi - peak) * x,
            -1_000_000_000 <= hi - peak <= 1_000_000_000,
            -1_000_000_000 * slack <= x <= 1_000_000_000 * slack,
    ;
    assert(0 <= e1 * c <= 1_000_000_000 * e1) by (nonlinear_arith)
        requires
            0 <= e1,
            0 <= c <= 1_000_000_000,
    ;
}

/// The contrast window does not depend on the frame rate either: its limits are
/// kept at every step, and two steps still land where one lands.
pub proof fn law_range_composes(hi: int, peak: int, a: int, b: int, both: int, slack: int)
    requires
        RANGE_SPAN <= hi <= ONE,
        0 <= peak <= ONE,
        0 <= a <= ONE,
        0 <= b <= ONE,
        0 <= both <= ONE,
        0 <= slack,
        compose(a, b, both, slack),
    ensures
        ranged(hi, peak, both) - 1 - slack <= ranged(ranged(hi, peak, a), peak, b) <= ranged(
            hi,
            peak,
            both,
        ) + slack,
{
    law_envelope_composes(hi, peak, a, b, both, slack);
    let mid = blend(hi, peak, a);
    let one = blend(hi, peak, both);
    let two = blend(mid, peak, b);
    let held = blend(clamped(mid, RANGE_SPAN as int, ONE as int), peak, b);
    lemma_blend_between(hi, peak, a);
    lemma_blend_between(mid, peak, b);
    lemma_blend_between(RANGE_SPAN as int, peak, b);
    lemma_limited_steps(hi, peak, mid, one, two, held, slack);
}

proof fn lemma_limited_steps(
    hi: int,
    peak: int,
    mid: int,
    one: int,
    two: int,
    held: int,
    slack: int,
)
    requires
        RANGE_SPAN <= hi <= ONE,
        peak <= ONE,
        0 <= slack,
        hi <= peak ==> hi <= mid <= peak,
        peak <= hi ==> peak <= mid <= hi,
        peak <= mid ==> two <= mid,
        mid >= RANGE_SPAN ==> held == two,
        mid < RANGE_SPAN ==> held <= RANGE_SPAN,
        one - 1 - slack <= two <= one + slack,
    ensures
        clamped(one, RANGE_SPAN as int, ONE as int) - 1 - slack <= clamped(
            held,
            RANGE_SPAN as int,
            ONE as int,
        ) <= clamped(one, RANGE_SPAN as int, ONE as int) + slack,
{
}

// -- runs of frames -----------------------------------------------------------
/// A level after a fraction `share` of the way to `peak`, kept at or above
/// `floor`.
pub open spec fn settled(level: int, peak: int, share: int, floor: int) -> int {
    clamped(blend(level, peak, share), floor, ONE as int)
}

/// What `ease` answers for a time.
pub open spec fn answer<E: Fn(u64, u64) -> i64>(ease: E, t: u64, tau: u64) -> i64 {
    choose|a: i64| call_ensures(ease, (t, tau), a)
}

/// Fraction of the way that `ease` gives for a time: none without time.
pub open spec fn share<E: Fn(u64, u64) -> i64>(ease: E, dt: int, tau: u64) -> int {
    if dt == 0 {
        0
    } else {
        clamped(answer(ease, dt as u64, tau) as int, 0, ONE as int)
    }
}

/// `ease` has one answer for every time, and answers for two times compose to
/// that for their sum, to within `slack`, as those of an exponential approach do.
pub open spec fn composing<E: Fn(u64, u64) -> i64>(ease: E, slack: int) -> bool {
    &&& 0 <= slack
    &&& forall|t: u64, tau: u64, a: i64, b: i64|
        #![trigger call_ensures(ease, (t, tau), a), call_ensures(ease, (t, tau), b)]
        call_ensures(ease, (t, tau), a) && call_ensures(ease, (t, tau), b) ==> a == b
    &&& forall|s: int, t: int, tau: u64|
        #![trigger share(ease, s, tau), share(ease, t, tau)]
        0 < s && 0 < t && s + t <= u64::MAX ==> compose(
            share(ease, s, tau),
            share(ease, t, tau),
            share(ease, s + t, tau),
            slack,
        )
}

/// Time of the first `n` frames.
pub open spec fn total_time(dts: Seq<u64>, n: int) -> int
    decreases n,
{
    if n <= 0 {
        0
    } else {
        total_time(dts, n - 1) + dts[n - 1]
    }
}

pub proof fn lemma_total_time(dts: Seq<u64>, n: int)
    ensures
        total_time(dts, n) >= 0,
    decreases n,
{
    if n > 0 {
        lemma_total_time(dts, n - 1);
    }
}

/// Two levels that take the same step come no further apart.
proof fn lemma_step_together(x: int, y: int, peak: int, a: int, floor: int)
    requires
        0 <= a <= ONE,
        x <= y,
        floor <= ONE,
    ensures
        0 <= settled(y, peak, a, floor) - settled(x, peak, a, floor) <= y - x,
{
    let k = 1_000_000_000 - a;
    let m = x * k + peak * a;
    let n = y * k + peak * a;
    assert(0 <= n - m <= (y - x) * 1_000_000_000) by (nonlinear_arith)
        requires
            m == x * k + peak * a,
            n == y * k + peak * a,
            x <= y,
            0 <= k <= 1_000_000_000,
    ;
}

pub proof fn lemma_settled_composes(
    level: int,
    peak: int,
    a: int,
    b: int,
    both: int,
    floor: int,
    slack: int,
)
    requires
        0 <= floor <= level <= ONE,
        0 <= peak <= ONE,
        0 <= a <= ONE,
        0 <= b <= ONE,
        0 <= both <= ONE,
        0 <= slack,
        compose(a, b, both, slack),
    ensures
        settled(level, peak, both, floor) - 1 - slack <= settled(
            settled(level, peak, a, floor),
            peak,
            b,
            floor,
        ) <= settled(level, peak, both, floor) + slack,
{
    law_envelope_composes(level, peak, a, b, both, slack);
    let mid = blend(level, peak, a);
    lemma_blend_between(level, peak, a);
    lemma_blend_between(level, peak, both);
    lemma_blend_between(mid, peak, b);
    lemma_blend_between(floor, peak, b);
}

/// The shares of two times compose, no time included.
pub proof fn lemma_shares_compose<E: Fn(u64, u64) -> i64>(
    ease: E,
    s: int,
    t: int,
    tau: u64,
    slack: int,
)
    requires
        composing(ease, slack),
        0 <= s,
        0 <= t,
        s + t <= u64::MAX,
    ensures
        compose(share(ease, s, tau), share(ease, t, tau), share(ease, s + t, tau), slack),
{
    let (a, b, both) = (share(ease, s, tau), share(ease, t, tau), share(ease, s + t, tau));
    if s == 0 || t == 0 {
        assert((1_000_000_000 - both) * 1_000_000_000 == (1_000_000_000 - a) * (1_000_000_000 - b))
            by (nonlinear_arith)
            requires
                (a == 0 && both == b) || (b == 0 && both == a),
        ;
    }
}

/// A run of steps lands where one step of their total lands, to within the slack
/// and one unit for each of them.
pub proof fn lemma_run<E: Fn(u64, u64) -> i64>(
    ease: E,
    tau: u64,
    levels: Seq<int>,
    dts: Seq<u64>,
    peak: int,
    floor: int,
    slack: int,
    n: int,
)
    requires
        composing(ease, slack),
        0 <= n <= dts.len(),
        levels.len() == dts.len() + 1,
        0 <= floor <= levels[0] <= ONE,
        0 <= peak <= ONE,
        total_time(dts, n) <= u64::MAX,
        forall|i: int|
            0 <= i < dts.len() ==> #[trigger] levels[i + 1] == settled(
                levels[i],
                peak,
                share(ease, dts[i] as int, tau),
                floor,
            ),
    ensures
        floor <= levels[n] <= ONE,
        -(n * (slack + 1)) <= levels[n] - settled(
            levels[0],
            peak,
            share(ease, total_time(dts, n), tau),
            floor,
        ) <= n * (slack + 1),
    decreases n,
{
    lemma_total_time(dts, n);
    if n == 0 {
        lemma_blend_between(levels[0], peak, 0);
        assert(0 * (slack + 1) == 0) by (nonlinear_arith);
    } else {
        lemma_total_time(dts, n - 1);
        lemma_run(ease, tau, levels, dts, peak, floor, slack, n - 1);
        let before = total_time(dts, n - 1);
        let dt = dts[n - 1] as int;
        let (a, b, both) = (
            share(ease, before, tau),
            share(ease, dt, tau),
            share(ease, before + dt, tau),
        );
        let x = settled(levels[0], peak, a, floor);
        assert(levels[(n - 1) + 1] == settled(levels[n - 1], peak, b, floor));
        if levels[n - 1] <= x {
            lemma_step_together(levels[n - 1], x, peak, b, floor);
        } else {
            lemma_step_together(x, levels[n - 1], peak, b, floor);
        }
        lemma_shares_compose(ease, before, dt, tau, slack);
        lemma_settled_composes(levels[0], peak, a, b, both, floor, slack);
        assert((n - 1) * (slack + 1) + (slack + 1) == n * (slack + 1)) by (nonlinear_arith);
    }
}

/// A run of updates over the same bands does not depend on the frame rate: where
/// the easing curve composes over time, the window ends where one update of the
/// whole time ends, to within the curve's slack and one unit for each frame.
pub proof fn law_range_run<E: Fn(u64, u64) -> i64>(
    ease: &E,
    ranges: Seq<AutoRange>,
    dts: Seq<u64>,
    bands: Seq<Sample>,
    once: AutoRange,
    slack: int,
)
    requires
        composing(*ease, slack),
        ranges.len() == dts.len() + 1,
        ranges[0].wf(),
        total_time(dts, dts.len() as int) <= u64::MAX,
        forall|i: int|
            0 <= i < dts.len() ==> AutoRange::updated(
                ranges[i],
                #[trigger] ranges[i + 1],
                bands,
                dts[i],
                ease,
            ),
        AutoRange::updated(
            ranges[0],
            once,
            bands,
            total_time(dts, dts.len() as int) as u64,
            ease,
        ),
    ensures
        -(dts.len() * (slack + 1)) <= ranges.last().hi - once.hi <= dts.len() * (slack + 1),
{
    let peak = peak_of(bands);
    let n = dts.len() as int;
    let tau = range_tau(ranges[0].hi as int, peak);
    let levels = Seq::new(ranges.len(), |i: int| ranges[i].hi as int);
    assert forall|i: int| 0 <= i < n implies #[trigger] levels[i + 1] == settled(
        levels[i],
        peak,
        share(*ease, dts[i] as int, tau),
        RANGE_SPAN as int,
    ) by {
        lemma_same_side(ease, ranges, dts, bands, slack, i);
    }
    lemma_total_time(dts, n);
    lemma_run(*ease, tau, levels, dts, peak, RANGE_SPAN as int, slack, n);
    lemma_updated(ease, ranges[0], once, peak, total_time(dts, n) as u64, tau, slack);
}

/// A window that moves by a little shows a level at most four times as much higher
/// or lower, and a billionth.
pub proof fn law_stretch_steady(hi: int, other: int, level: Sample)
    ensures
        ({
            let d = if hi < other {
                other - hi
            } else {
                hi - other
            };
            let change = applied(hi, level) - applied(other, level);
            -(4 * d + 1) <= change <= 4 * d + 1
        }),
{
}

/// What the window shows does not depend on the frame rate: two runs over the same
/// time that start alike and see the same bands show any level alike, up to the
/// rounding of their frames, for a curve that composes over time.
pub proof fn law_runs_look_alike<E: Fn(u64, u64) -> i64>(
    ease: &E,
    slow: Seq<AutoRange>,
    slow_dts: Seq<u64>,
    fast: Seq<AutoRange>,
    fast_dts: Seq<u64>,
    bands: Seq<Sample>,
    once: AutoRange,
    slack: int,
    level: Sample,
)
    requires
        composing(*ease, slack),
        slow.len() == slow_dts.len() + 1,
        fast.len() == fast_dts.len() + 1,
        slow[0].wf(),
        slow[0] == fast[0],
        total_time(slow_dts, slow_dts.len() as int) == total_time(
            fast_dts,
            fast_dts.len() as int,
        ) <= u64::MAX,
        forall|i: int|
            0 <= i < slow_dts.len() ==> AutoRange::updated(
                slow[i],
                #[trigger] slow[i + 1],
                bands,
                slow_dts[i],
                ease,
            ),
        forall|i: int|
            0 <= i < fast_dts.len() ==> AutoRange::updated(
                fast[i],
                #[trigger] fast[i + 1],
                bands,
                fast_dts[i],
                ease,
            ),
        AutoRange::updated(
            slow[0],
            once,
            bands,
            total_time(slow_dts, slow_dts.len() as int) as u64,
            ease,
        ),
    ensures
        ({
            let bound = 4 * ((slow_dts.len() + fast_dts.len()) * (slack + 1)) + 1;
            let change = applied(slow.last().hi as int, level) - applied(
                fast.last().hi as int,
                level,
            );
            -bound <= change <= bound
        }),
{
    law_range_run(ease, slow, slow_dts, bands, once, slack);
    law_range_run(ease, fast, fast_dts, bands, once, slack);
    law_stretch_steady(slow.last().hi as int, fast.last().hi as int, level);
    let (m, n, k) = (slow_dts.len() as int, fast_dts.len() as int, slack + 1);
    assert((m + n) * k == m * k + n * k) by (nonlinear_arith);
}

/// An update is a step by the share of its time.
proof fn lemma_updated<E: Fn(u64, u64) -> i64>(
    ease: &E,
    before: AutoRange,
    after: AutoRange,
    peak: int,
    dt: u64,
    tau: u64,
    slack: int,
)
    requires
        composing(*ease, slack),
        before.wf(),
        0 <= peak <= ONE,
        AutoRange::followed(before, after, peak, dt, ease),
        tau == range_tau(before.hi as int, peak) || before.hi == peak,
    ensures
        after.hi == settled(
            before.hi as int,
            peak,
            share(*ease, dt as int, tau),
            RANGE_SPAN as int,
        ),
{
    lemma_blend_between(before.hi as int, peak, 0);
    if dt > 0 {
        let own = range_tau(before.hi as int, peak);
        let alpha = choose|alpha: i64|
            #![trigger call_ensures(ease, (dt, own), alpha)]
            call_ensures(ease, (dt, own), alpha) && after.hi == ranged(
                before.hi as int,
                peak,
                alpha as int,
            );
        assert(call_ensures(*ease, (dt, own), alpha));
        assert(answer(*ease, dt, own) == alpha);
        lemma_blend_between(peak, peak, clamped(alpha as int, 0, ONE as int));
        lemma_blend_between(peak, peak, share(*ease, dt as int, tau));
    }
}

proof fn lemma_same_side<E: Fn(u64, u64) -> i64>(
    ease: &E,
    ranges: Seq<AutoRange>,
    dts: Seq<u64>,
    bands: Seq<Sample>,
    slack: int,
    i: int,
)
    requires
        composing(*ease, slack),
        ranges.len() == dts.len() + 1,
        ranges[0].wf(),
        0 <= i < dts.len(),
        forall|i: int|
            0 <= i < dts.len() ==> AutoRange::updated(
                ranges[i],
                #[trigger] ranges[i + 1],
                bands,
                dts[i],
                ease,
            ),
    ensures
        ranges[i].wf(),
        ranges[0].hi < peak_of(bands) ==> ranges[i].hi <= peak_of(bands),
        ranges[0].hi >= peak_of(bands) ==> ranges[i].hi >= peak_of(bands),
        ranges[i + 1].hi == settled(
            ranges[i].hi as int,
            peak_of(bands),
            share(*ease, dts[i] as int, range_tau(ranges[0].hi as int, peak_of(bands))),
            RANGE_SPAN as int,
        ),
    decreases i,
{
    let peak = peak_of(bands);
    let tau = range_tau(ranges[0].hi as int, peak);
    if i > 0 {
        lemma_same_side(ease, ranges, dts, bands, slack, i - 1);
        assert(ranges[(i - 1) + 1] == ranges[i]);
        lemma_blend_between(
            ranges[i - 1].hi as int,
            peak,
            share(*ease, dts[i - 1] as int, tau),
        );
    }
    assert(AutoRange::updated(ranges[i], ranges[i + 1], bands, dts[i], ease));
    lemma_updated(ease, ranges[i], ranges[i + 1], peak, dts[i], tau, slack);
}

/// The cubic ease `3 t^2 - 2 t^3`, over `ONE`.
pub open spec fn smooth(t: int) -> int {
    let t = clamped(t, 0, ONE as int);
    t * t * (3 * ONE - 2 * t) / 1_000_000_000_000_000_000
}

/// Cubic ease of `t`, limited to `0..=ONE`.
pub fn smoothstep(t: i64) -> (r: i64)
    ensures
        r == smooth(t as int),
        0 <= r <= ONE,
{
    let t: i64 = clamp(t, 0, ONE);
    proof {
        lemma_smooth_range(t as int);
        assert(0 <= t * t <= 1_000_000_000_000_000_000) by (nonlinear_arith)
            requires
                0 <= t <= 1_000_000_000,
        ;
        let u = 3 * ONE - 2 * t;
        assert(0 <= t * t * u <= 1_000_000_000_000_000_000 * 3_000_000_000) by (nonlinear_arith)
            requires
                0 <= t * t <= 1_000_000_000_000_000_000,
                0 <= u <= 3_000_000_000,
        ;
    }
    ((t as i128) * (t as i128) * (3 * ONE as i128 - 2 * t as i128) / 1_000_000_000_000_000_000)
        as i64
}

proof fn lemma_smooth_range(t: int)
    requires
        0 <= t <= ONE,
    ensures
        0 <= smooth(t) <= ONE,
        0 <= t * t * (3 * ONE - 2 * t) <= 1_000_000_000_000_000_000_000_000_000,
{
    let o = 1_000_000_000int;
    let n = t * t * (3 * o - 2 * t);
    assert(0 <= n) by (nonlinear_arith)
        requires
            n == t * t * (3 * o - 2 * t),
            0 <= t <= o,
    ;
    let s = o - t;
    // o^3 - n == (o - t)^2 (o + 2 t).
    assert(o * o * o - n == s * s * (o + 2 * t)) by (nonlinear_arith)
        requires
            n == t * t * (3 * o - 2 * t),
            s == o - t,
    ;
    assert(0 <= s * s * (o + 2 * t)) by (nonlinear_arith)
        requires
            0 <= s,
            0 <= t,
            o > 0,
    ;
    assert(o * o * o == 1_000_000_000_000_000_000_000_000_000);
}

/// The ease starts at zero, ends at one and never turns back.
pub proof fn law_smooth_monotone(s: int, t: int)
    requires
        s <= t,
    ensures
        smooth(s) <= smooth(t),
        smooth(0) == 0,
        smooth(ONE as int) == ONE,
{
    let a = clamped(s, 0, ONE as int);
    let b = clamped(t, 0, ONE as int);
    let o = 1_000_000_000int;
    let m = a * a * (3 * o - 2 * a);
    let n = b * b * (3 * o - 2 * b);
    let d = b - a;
    // n - m == (b - a) (3 o (a + b) - 2 (a^2 + a b + b^2)).
    assert(m == 3 * o * (a * a) - 2 * (a * a * a)) by (nonlinear_arith)
        requires
            m == a * a * (3 * o - 2 * a),
    ;
    assert(n == 3 * o * (b * b) - 2 * (b * b * b)) by (nonlinear_arith)
        requires
            n == b * b * (3 * o - 2 * b),
    ;
    assert(d * (a + b) == b * b - a * a) by (nonlinear_arith)
        requires
            d == b - a,
    ;
    assert(d * (a * a + a * b + b * b) == b * b * b - a * a * a) by (nonlinear_arith)
        requires
            d == b - a,
    ;
    let u = a + b;
    let v = a * a + a * b + b * b;
    assert(d * (3 * o * u - 2 * v) == 3 * o * (d * u) - 2 * (d * v)) by (nonlinear_arith);
    assert(3 * o * (d * u) == 3 * o * (b * b) - 3 * o * (a * a)) by (nonlinear_arith)
        requires
            d * u == b * b - a * a,
    ;
    assert(a * a <= o * a && a * b <= o * a && b * b <= o * b && a * b <= o * b)
        by (nonlinear_arith)
        requires
            0 <= a <= b <= o,
    ;
    let w = 3 * o * (a + b) - 2 * (a * a + a * b + b * b);
    assert(w >= 0) by (nonlinear_arith)
        requires
            w == 3 * o * (a + b) - 2 * (a * a + a * b + b * b),
            a * a <= o * a,
            a * b <= o * a,
            b * b <= o * b,
            a * b <= o * b,
            0 <= a <= b <= o,
    ;
    assert(d * w >= 0) by (nonlinear_arith)
        requires
            d >= 0,
            w >= 0,
    ;
    vstd::arithmetic::div_mod::lemma_div_is_ordered(m, n, 1_000_000_000_000_000_000);
    assert(o * o * (3 * o - 2 * o) == 1_000_000_000_000_000_000_000_000_000) by (nonlinear_arith)
        requires
            o == 1_000_000_000,
    ;
    assert(0 * 0 * (3 * o) == 0) by (nonlinear_arith);
}

/// Time passed since the last frame, never more than a tenth of a second; none on
/// the first frame, or where the clock ran backwards.
pub proof fn law_tick(prev: u64, time: u64)
    ensures
        tick_of(None, time) == 0,
        time <= prev ==> tick_of(Some(prev), time) == 0,
        prev < time && time - prev <= 100_000_000 ==> prev + tick_of(Some(prev), time) == time,
        time - prev > 100_000_000 ==> tick_of(Some(prev), time) == 100_000_000,
{
}

/// The peak of some bands is no lower than any finite one of them within the scale,
/// and is the level of one of them unless it is 0 or full scale.
pub proof fn law_peak(bands: Seq<Sample>, i: int) -> (j: int)
    requires
        0 <= i < bands.len(),
    ensures
        0 <= peak_of(bands) <= 1_000_000_000,
        bands[i].finite() && bands[i].fixed() <= 1_000_000_000 ==> bands[i].fixed() <= peak_of(
            bands,
        ),
        bands[i].finite() && bands[i].fixed() > 1_000_000_000 ==> peak_of(bands) == 1_000_000_000,
        peak_of(bands) > 0 ==> 0 <= j < bands.len() && bands[j].finite() && (bands[j].fixed()
            == peak_of(bands) || bands[j].fixed() > 1_000_000_000),
{
    lemma_loudest(bands, bands.len() as int, i)
}

proof fn lemma_loudest(bands: Seq<Sample>, n: int, i: int) -> (j: int)
    requires
        0 <= i < n <= bands.len(),
    ensures
        loudest(bands, n) >= 0,
        bands[i].finite() ==> loudest(bands, n) >= bands[i].fixed(),
        loudest(bands, n) > 0 ==> 0 <= j < n && bands[j].finite() && bands[j].fixed() == loudest(
            bands,
            n,
        ),
    decreases n,
{
    let before = if n > 1 {
        lemma_loudest(
            bands,
            n - 1,
            if i < n - 1 {
                i
            } else {
                0
            },
        )
    } else {
        assert(loudest(bands, 0) == 0);
        0
    };
    if bands[n - 1].finite() && bands[n - 1].fixed() > loudest(bands, n - 1) {
        n - 1
    } else {
        before
    }
}

/// The ceiling moves towards the loudest band by the share that the easing gives for
/// the time passed, over 150 ms on the way up and 2.5 s on the way down, and never
/// below the span of the window.
pub proof fn law_range_follows_peak<E: Fn(u64, u64) -> i64>(
    before: AutoRange,
    after: AutoRange,
    bands: Seq<Sample>,
    dt: u64,
    ease: &E,
) -> (alpha: i64)
    requires
        before.wf(),
        AutoRange::updated(before, after, bands, dt, ease),
        dt > 0,
    ensures
        ({
            let peak = peak_of(bands);
            let by = if alpha < 0 {
                0
            } else if alpha > 1_000_000_000 {
                1_000_000_000
            } else {
                alpha as int
            };
            let towards = before.hi * (1_000_000_000 - by) + peak * by;
            &&& peak > before.hi ==> call_ensures(ease, (dt, 150_000_000), alpha)
            &&& peak <= before.hi ==> call_ensures(ease, (dt, 2_500_000_000), alpha)
            &&& after.hi >= 277_777_777
            &&& after.hi > 277_777_777 ==> 0 <= towards - 1_000_000_000 * after.hi < 1_000_000_000
            &&& after.hi == 277_777_777 ==> towards < 277_777_778_000_000_000
        }),
{
    let peak = peak_of(bands);
    let tau = range_tau(before.hi as int, peak);
    let alpha = choose|alpha: i64|
        #![trigger call_ensures(ease, (dt, tau), alpha)]
        call_ensures(ease, (dt, tau), alpha) && after.hi == ranged(
            before.hi as int,
            peak,
            alpha as int,
        );
    let by = clamped(alpha as int, 0, ONE as int);
    lemma_blend_between(before.hi as int, peak, by);
    law_blend(before.hi as int, peak, by);
    alpha
}

/// Within its window a level is stretched over the whole scale in proportion: from 0
/// at the foot of the window to full at the ceiling, and pinned there outside of it.
pub proof fn law_stretch(hi: int, level: Sample)
    ensures
        !level.finite() ==> applied(hi, level) == 0,
        level.finite() ==> ({
            let above = level.fixed() - (hi - 277_777_777);
            let shown = applied(hi, level);
            &&& above <= 0 ==> shown == 0
            &&& above >= 277_777_777 ==> shown == 1_000_000_000
            &&& 0 <= above <= 277_777_777 ==> 0 <= above * 1_000_000_000 - 277_777_777 * shown
                < 277_777_777
        }),
{
    if level.finite() {
        let above = level.fixed() - (hi - 277_777_777);
        let q = trunc(above * ONE, 277_777_777);
        if above <= 0 {
            assert(q <= 0);
        }
    }
}

/// The smooth step is the cubic `3 t^2 - 2 t^3` over the scale, flat outside of it.
pub proof fn law_smooth(t: int)
    ensures
        t <= 0 ==> smooth(t) == 0,
        t >= 1_000_000_000 ==> smooth(t) == 1_000_000_000,
        0 <= t <= 1_000_000_000 ==> 0 <= 3_000_000_000 * (t * t) - 2 * (t * t * t)
            - 1_000_000_000_000_000_000 * smooth(t) < 1_000_000_000_000_000_000,
{
    law_smooth_monotone(0, 0);
    if 0 <= t <= 1_000_000_000 {
        assert(t * t * (3 * 1_000_000_000 - 2 * t) == 3_000_000_000 * (t * t) - 2 * (t * t * t))
            by (nonlinear_arith);
    }
}

} // verus!
