//! Log-spaced band grouping and its attack/release envelope.
//!
//! Spectrum levels are in `0..=ONE`, frequencies in billionths of a hertz, and
//! bin positions in billionths of a bin: continuous, so that adjacent bass bands
//! stay distinct even inside one bin.

use crate::motion::{
    answer, composing, lemma_run, lemma_settled_composes, lemma_shares_compose, lemma_total_time,
    settled, share, total_time,
};
use crate::number::{blend, clamp, clamped, lemma_blend_between, lerp, mul_div, trunc, ONE};
use crate::shape::NUM_BANDS;
use vstd::prelude::*;

verus! {

/// Analysis window length, in frames.
pub const FFT_SIZE: usize = 1024;

/// Spectrum bins per channel.
pub const NUM_BINS: usize = 512;

/// Continuous bin bounds of one display band.
pub type BandEdge = (i64, i64);

/// Largest bin position a band edge may reach, leaving room for the next bin
/// to interpolate against.
pub const MAX_BIN_POS: i64 = 510_999_000_000;

/// Time constant for a band rising to a louder peak. Not instant, which would
/// read as jitter.
pub const BAND_ATTACK_TAU: u64 = 50_000_000;

/// Time constant for a band easing down.
pub const BAND_RELEASE_TAU: u64 = 220_000_000;

// -- ranges -----------------------------------------------------------------
/// Highest frequency the display covers: 20 kHz, or 95 % of the Nyquist
/// frequency if that is lower.
pub open spec fn display_top(rate: int) -> int {
    if rate * 475_000_000 < 20_000 * ONE {
        rate * 475_000_000
    } else {
        20_000 * ONE
    }
}

/// Lowest and highest frequency the display covers.
pub fn display_range(sample_rate: u32) -> (r: (i64, i64))
    ensures
        r.0 == 20 * ONE,
        r.1 == display_top(sample_rate as int),
{
    let top: i64 = sample_rate as i64 * 475_000_000;
    (20 * ONE, if top < 20_000 * ONE {
        top
    } else {
        20_000 * ONE
    })
}

/// Bin position of a frequency, before limiting; a stream without a rate has
/// everything past the last bin.
pub open spec fn bin_pos(freq: int, rate: int) -> int {
    if rate == 0 {
        MAX_BIN_POS as int
    } else {
        clamped(trunc(freq * 1024, rate), 0, MAX_BIN_POS as int)
    }
}

fn bin_of(freq: i64, rate: u32) -> (p: i64)
    ensures
        p == bin_pos(freq as int, rate as int),
        0 <= p <= MAX_BIN_POS,
{
    if rate == 0 {
        return MAX_BIN_POS;
    }
    if freq <= 0 {
        proof {
            crate::number::lemma_trunc_monotone(freq * 1024, 0, rate as int);
            vstd::arithmetic::div_mod::lemma_basic_div(0, rate as int);
        }
        return 0;
    }
    let wide: u128 = freq as u128 * 1024 / rate as u128;
    if wide > MAX_BIN_POS as u128 {
        MAX_BIN_POS
    } else {
        wide as i64
    }
}

/// Frequency `k` steps of `ratio` above `lo`, in equal steps of pitch, as far as
/// a frequency can be held.
pub open spec fn pitch(lo: int, ratio: int, k: int) -> int
    decreases k,
{
    if k <= 0 {
        lo
    } else {
        clamped(pitch(lo, ratio, k - 1) * ratio / (ONE as int), 0, i64::MAX as int)
    }
}

/// Edge frequencies of the display bands, `ratio` apart from 20 Hz up.
pub open spec fn pitches(ratio: int) -> Seq<i64> {
    Seq::new((NUM_BANDS + 1) as nat, |k: int| pitch(20 * ONE, ratio, k) as i64)
}

/// `ratio` is the [`NUM_BANDS`]th root of the display range: the largest whose
/// steps from the lowest frequency do not pass the highest.
pub open spec fn is_ratio(rate: int, ratio: int) -> bool {
    &&& 0 <= ratio < 2 * ONE
    &&& pitch(20 * ONE, ratio, NUM_BANDS as int) <= display_top(rate) < pitch(
        20 * ONE,
        ratio + 1,
        NUM_BANDS as int,
    )
}

/// The ratio between the ends of a band.
pub open spec fn band_ratio(rate: int) -> int {
    choose|ratio: int| is_ratio(rate, ratio)
}

/// Band between edge frequencies `f` and `g`. Positions run down to bin 0, so
/// that bands narrower than a bin stay distinct all the way to the lowest.
pub open spec fn band_edge(f: int, g: int, rate: int) -> (int, int) {
    let lo = bin_pos(f, rate);
    (lo, clamped(bin_pos(g, rate), lo, MAX_BIN_POS as int))
}

/// `edges` groups the bins of a stream into bands between the frequencies
/// `freqs`.
pub open spec fn edges_between(freqs: Seq<i64>, rate: int, edges: Seq<BandEdge>) -> bool {
    &&& edges.len() + 1 == freqs.len()
    &&& forall|k: int|
        0 <= k < edges.len() ==> ((#[trigger] edges[k]).0 as int, edges[k].1 as int) == band_edge(
            freqs[k] as int,
            freqs[k + 1] as int,
            rate,
        )
}

/// Group the linear FFT bins into log-spaced display bands.
///
/// Log spacing gives each octave equal width, which is how pitch is perceived.
/// No two neighbouring bands coincide, however many of them share a bin.
pub fn log_band_edges(sample_rate: u32) -> (edges: Vec<BandEdge>)
    ensures
        is_ratio(sample_rate as int, band_ratio(sample_rate as int)),
        edges_between(
            pitches(band_ratio(sample_rate as int)),
            sample_rate as int,
            edges@,
        ),
        edges@.len() == NUM_BANDS,
        valid_edges(edges@),
        sample_rate >= 1000 ==> forall|i: int|
            0 <= i < NUM_BANDS - 1 ==> #[trigger] edges@[i] != edges@[i + 1],
{
    let ratio: u64 = ratio_of(sample_rate);
    let edges: Vec<BandEdge> = spaced_edges(sample_rate, ratio);
    proof {
        if sample_rate >= 1000 {
            assert forall|i: int| 0 <= i < NUM_BANDS - 1 implies #[trigger] edges@[i] != edges@[i
                + 1] by {
                law_bands_stay_distinct(sample_rate as int, edges@, i);
            }
        }
    }
    edges
}

fn steps_from(lo: i64, ratio: u64, n: usize) -> (f: i64)
    requires
        0 <= lo,
    ensures
        f == pitch(lo as int, ratio as int, n as int),
        0 <= f,
{
    let mut f: i64 = lo;
    let mut k: usize = 0;
    while k < n
        invariant
            0 <= lo,
            k <= n,
            0 <= f,
            f == pitch(lo as int, ratio as int, k as int),
        decreases n - k,
    {
        f = scaled(f, ratio);
        k = k + 1;
    }
    f
}

/// The ratio between the ends of a band, in billionths.
pub fn ratio_of(sample_rate: u32) -> (ratio: u64)
    ensures
        is_ratio(sample_rate as int, ratio as int),
        ratio == band_ratio(sample_rate as int),
{
    let (bottom, top): (i64, i64) = display_range(sample_rate);
    let mut lo: u64 = 0;
    let mut hi: u64 = 2_000_000_000;
    proof {
        lemma_no_ratio(20 * ONE, NUM_BANDS as int);
        lemma_doubles(20 * ONE, NUM_BANDS as int);
    }
    while lo + 1 < hi
        invariant
            lo < hi <= 2_000_000_000,
            bottom == 20 * ONE,
            top == display_top(sample_rate as int),
            pitch(20 * ONE, lo as int, NUM_BANDS as int) <= top < pitch(
                20 * ONE,
                hi as int,
                NUM_BANDS as int,
            ),
        decreases hi - lo,
    {
        let mid: u64 = lo + (hi - lo) / 2;
        if steps_from(bottom, mid, NUM_BANDS) <= top {
            lo = mid;
        } else {
            hi = mid;
        }
    }
    proof {
        lemma_one_ratio(sample_rate as int, lo as int);
    }
    lo
}

proof fn lemma_no_ratio(lo: int, n: int)
    requires
        n >= 1,
    ensures
        pitch(lo, 0, n) == 0,
{
    let p = pitch(lo, 0, n - 1);
    assert(p * 0 == 0) by (nonlinear_arith);
}

/// Doubling passes any audible frequency within ten steps.
proof fn lemma_doubles(lo: int, n: int)
    requires
        lo == 20 * ONE,
        n >= 11,
    ensures
        pitch(lo, 2 * ONE, n) > 20_000 * ONE,
    decreases n,
{
    if n == 11 {
        reveal_with_fuel(pitch, 12);
    } else {
        lemma_doubles(lo, n - 1);
    }
}

proof fn lemma_steeper(lo: int, a: int, b: int, n: int)
    requires
        0 <= lo <= i64::MAX,
        0 <= a <= b,
    ensures
        0 <= pitch(lo, a, n) <= pitch(lo, b, n) <= i64::MAX,
    decreases n,
{
    if n > 0 {
        lemma_steeper(lo, a, b, n - 1);
        let p = pitch(lo, a, n - 1);
        let q = pitch(lo, b, n - 1);
        assert(0 <= p * a <= q * b) by (nonlinear_arith)
            requires
                0 <= p <= q,
                0 <= a <= b,
        ;
        vstd::arithmetic::div_mod::lemma_div_is_ordered(p * a, q * b, ONE as int);
    }
}

proof fn lemma_one_ratio(rate: int, ratio: int)
    requires
        is_ratio(rate, ratio),
    ensures
        band_ratio(rate) == ratio,
{
    let other = band_ratio(rate);
    assert(is_ratio(rate, other));
    if other < ratio {
        lemma_steeper(20 * ONE, other + 1, ratio, NUM_BANDS as int);
    }
    if ratio < other {
        lemma_steeper(20 * ONE, ratio + 1, other, NUM_BANDS as int);
    }
}

/// Display bands whose ends are `ratio` apart, in billionths, from 20 Hz up.
pub fn spaced_edges(sample_rate: u32, ratio: u64) -> (edges: Vec<BandEdge>)
    ensures
        edges_between(pitches(ratio as int), sample_rate as int, edges@),
        edges@.len() == NUM_BANDS,
        valid_edges(edges@),
{
    let mut freqs: Vec<i64> = Vec::with_capacity(NUM_BANDS + 1);
    let mut f: i64 = 20 * ONE;
    let mut k: usize = 0;
    while k <= NUM_BANDS
        invariant
            k <= NUM_BANDS + 1,
            freqs@.len() == k,
            0 <= f,
            f == pitch(20 * ONE, ratio as int, k as int),
            forall|j: int| 0 <= j < k ==> #[trigger] freqs@[j] == pitch(20 * ONE, ratio as int, j),
        decreases NUM_BANDS + 1 - k,
    {
        freqs.push(f);
        f = scaled(f, ratio);
        k = k + 1;
    }
    assert(freqs@ =~= pitches(ratio as int));
    band_edges(&freqs, sample_rate)
}

fn scaled(f: i64, ratio: u64) -> (r: i64)
    requires
        0 <= f,
    ensures
        r == clamped(f * ratio / (ONE as int), 0, i64::MAX as int),
{
    assert(0 <= f * ratio <= 0x7FFF_FFFF_FFFF_FFFF * 0xFFFF_FFFF_FFFF_FFFF) by (nonlinear_arith)
        requires
            0 <= f <= 0x7FFF_FFFF_FFFF_FFFF,
            0 <= ratio <= 0xFFFF_FFFF_FFFF_FFFF,
    ;
    let wide: u128 = f as u128 * ratio as u128 / 1_000_000_000;
    if wide > i64::MAX as u128 {
        i64::MAX
    } else {
        wide as i64
    }
}

/// Bands between given edge frequencies.
pub fn band_edges(freqs: &Vec<i64>, sample_rate: u32) -> (edges: Vec<BandEdge>)
    requires
        freqs@.len() >= 1,
    ensures
        edges_between(freqs@, sample_rate as int, edges@),
        valid_edges(edges@),
{
    let n: usize = freqs.len() - 1;
    let mut edges: Vec<BandEdge> = Vec::with_capacity(n);
    let mut k: usize = 0;
    while k < n
        invariant
            n + 1 == freqs@.len(),
            k <= n,
            edges@.len() == k,
            forall|j: int|
                0 <= j < k ==> ((#[trigger] edges@[j]).0 as int, edges@[j].1 as int) == band_edge(
                    freqs@[j] as int,
                    freqs@[j + 1] as int,
                    sample_rate as int,
                ),
            valid_edges(edges@),
        decreases n - k,
    {
        let lo: i64 = bin_of(freqs[k], sample_rate);
        let hi: i64 = clamp(bin_of(freqs[k + 1], sample_rate), lo, MAX_BIN_POS);
        edges.push((lo, hi));
        k = k + 1;
    }
    edges
}

/// Edges that can be sampled: in order, with a next bin to interpolate against.
pub open spec fn valid_edges(edges: Seq<BandEdge>) -> bool {
    forall|i: int| 0 <= i < edges.len() ==> 0 <= (#[trigger] edges[i]).0 <= edges[i].1 <= MAX_BIN_POS
}

/// Neighbouring bands share an edge, so together they cover the display range
/// without gaps or overlap.
pub proof fn law_bands_abut(freqs: Seq<i64>, rate: int, edges: Seq<BandEdge>, k: int)
    requires
        0 <= rate <= u32::MAX,
        edges_between(freqs, rate, edges),
        0 <= k,
        k + 1 < edges.len(),
        freqs[k] <= freqs[k + 1],
    ensures
        edges[k].1 == edges[k + 1].0,
{
    let (f, g) = (freqs[k] as int, freqs[k + 1] as int);
    if rate > 0 {
        crate::number::lemma_trunc_monotone(f * 1024, g * 1024, rate);
    }
    assert(bin_pos(f, rate) <= bin_pos(g, rate));
    assert((edges[k].0 as int, edges[k].1 as int) == band_edge(f, g, rate));
    assert((edges[k + 1].0 as int, edges[k + 1].1 as int) == band_edge(
        g,
        freqs[k + 2] as int,
        rate,
    ));
}

/// Edge frequencies never fall from one band to the next, whatever the ratio as
/// long as it does not shrink them.
pub proof fn law_pitch_rises(lo: int, ratio: int, k: int)
    requires
        0 <= lo <= i64::MAX,
        ratio >= ONE,
        0 <= k,
    ensures
        lo <= pitch(lo, ratio, k) <= pitch(lo, ratio, k + 1) <= i64::MAX,
    decreases k,
{
    if k > 0 {
        law_pitch_rises(lo, ratio, k - 1);
    }
    let p = pitch(lo, ratio, k);
    let o = 1_000_000_000int;
    assert(p * o <= p * ratio) by (nonlinear_arith)
        requires
            0 <= p,
            o <= ratio,
    ;
    vstd::arithmetic::div_mod::lemma_div_is_ordered(p * o, p * ratio, o);
    vstd::arithmetic::div_mod::lemma_div_multiples_vanish(p, o);
    assert(o * p == p * o) by (nonlinear_arith);
}

/// The display bands of a stream abut one another: together they cover the
/// display range without gaps or overlap.
pub proof fn law_display_covered(ratio: int, rate: int, edges: Seq<BandEdge>, k: int)
    requires
        ratio >= ONE,
        0 <= rate <= u32::MAX,
        edges_between(pitches(ratio), rate, edges),
        0 <= k < NUM_BANDS - 1,
    ensures
        edges[k].1 == edges[k + 1].0,
{
    law_pitch_rises(20 * ONE, ratio, k);
    law_bands_abut(pitches(ratio), rate, edges, k);
}

/// Bands that share a bin stay distinct: whenever two edge frequencies differ by
/// a billionth of a bin or more, so do the edges, as far as the spectrum goes.
pub proof fn law_bands_distinct(f: int, g: int, rate: int)
    requires
        0 < rate,
        0 <= f,
        (g - f) * 1024 >= rate,
        bin_pos(f, rate) < MAX_BIN_POS,
    ensures
        band_edge(f, g, rate).0 < band_edge(f, g, rate).1,
{
    let n = f * 1024;
    vstd::arithmetic::div_mod::lemma_div_plus_one(n, rate);
    vstd::arithmetic::div_mod::lemma_div_is_ordered(n + rate, g * 1024, rate);
}

/// Steps add up: `j` and then `k` of them are `j + k`.
proof fn lemma_steps_add(lo: int, ratio: int, j: int, k: int)
    requires
        0 <= j,
        0 <= k,
    ensures
        pitch(lo, ratio, j + k) == pitch(pitch(lo, ratio, j), ratio, k),
    decreases k,
{
    if k > 0 {
        lemma_steps_add(lo, ratio, j, k - 1);
    }
}

/// A step of five per cent.
proof fn lemma_small_step(p: int)
    requires
        0 <= p,
    ensures
        100 * pitch(p, 1_050_000_000, 1) <= 105 * p,
        0 <= pitch(p, 1_050_000_000, 1),
{
    reveal_with_fuel(pitch, 2);
    assert(p * 1_050_000_000 / 1_000_000_000 * 100 <= 105 * p);
}

/// Eight steps of five per cent come to less than half again.
proof fn lemma_eight_steps(p: int)
    requires
        0 <= p,
    ensures
        100 * pitch(p, 1_050_000_000, 8) <= 148 * p,
        0 <= pitch(p, 1_050_000_000, 8),
{
    let r = 1_050_000_000int;
    lemma_small_step(p);
    let a = pitch(p, r, 1);
    lemma_small_step(a);
    lemma_steps_add(p, r, 1, 1);
    let b = pitch(p, r, 2);
    lemma_steps_add(p, r, 2, 1);
    lemma_small_step(b);
    let c = pitch(p, r, 3);
    lemma_steps_add(p, r, 3, 1);
    lemma_small_step(c);
    let d = pitch(p, r, 4);
    lemma_steps_add(p, r, 4, 1);
    lemma_small_step(d);
    let e = pitch(p, r, 5);
    lemma_steps_add(p, r, 5, 1);
    lemma_small_step(e);
    let f = pitch(p, r, 6);
    lemma_steps_add(p, r, 6, 1);
    lemma_small_step(f);
    let g = pitch(p, r, 7);
    lemma_steps_add(p, r, 7, 1);
    lemma_small_step(g);
}

/// Steps of five per cent from 20 Hz do not reach 475 Hz.
proof fn lemma_low_steps()
    ensures
        pitch(20 * ONE, 1_050_000_000, NUM_BANDS as int) < 475 * ONE,
{
    let r = 1_050_000_000int;
    let p0 = pitch(20 * ONE, r, 0);
    lemma_eight_steps(p0);
    lemma_steps_add(20 * ONE, r, 0, 8);
    let p1 = pitch(20 * ONE, r, 8);
    lemma_eight_steps(p1);
    lemma_steps_add(20 * ONE, r, 8, 8);
    let p2 = pitch(20 * ONE, r, 16);
    lemma_eight_steps(p2);
    lemma_steps_add(20 * ONE, r, 16, 8);
    let p3 = pitch(20 * ONE, r, 24);
    lemma_eight_steps(p3);
    lemma_steps_add(20 * ONE, r, 24, 8);
    let p4 = pitch(20 * ONE, r, 32);
    lemma_eight_steps(p4);
    lemma_steps_add(20 * ONE, r, 32, 8);
    let p5 = pitch(20 * ONE, r, 40);
    lemma_eight_steps(p5);
    lemma_steps_add(20 * ONE, r, 40, 8);
    let p6 = pitch(20 * ONE, r, 48);
    lemma_eight_steps(p6);
    lemma_steps_add(20 * ONE, r, 48, 8);
    let p7 = pitch(20 * ONE, r, 56);
    lemma_eight_steps(p7);
    lemma_steps_add(20 * ONE, r, 56, 8);
}

/// At any rate from 1 kHz up, bands are more than five per cent wide and end
/// within the display range.
proof fn lemma_wide_bands(rate: int)
    requires
        1000 <= rate,
        is_ratio(rate, band_ratio(rate)),
    ensures
        band_ratio(rate) >= 1_050_000_000,
{
    let r = band_ratio(rate);
    if r < 1_050_000_000 {
        lemma_steeper(20 * ONE, r + 1, 1_050_000_000, NUM_BANDS as int);
        lemma_low_steps();
    }
}

proof fn lemma_below_top(rate: int, k: int)
    requires
        is_ratio(rate, band_ratio(rate)),
        band_ratio(rate) >= ONE,
        0 <= k <= NUM_BANDS,
    ensures
        20 * ONE <= pitch(20 * ONE, band_ratio(rate), k) <= display_top(rate),
    decreases NUM_BANDS - k,
{
    law_pitch_rises(20 * ONE, band_ratio(rate), k);
    if k < NUM_BANDS {
        lemma_below_top(rate, k + 1);
    }
}

/// Every band of a stream has a width of its own, down to the lowest ones that
/// share a bin: it ends past where it starts, and the next one starts there, so
/// no two neighbours coincide.
pub proof fn law_bands_stay_distinct(rate: int, edges: Seq<BandEdge>, k: int)
    requires
        1000 <= rate <= u32::MAX,
        is_ratio(rate, band_ratio(rate)),
        edges_between(pitches(band_ratio(rate)), rate, edges),
        0 <= k < NUM_BANDS,
    ensures
        edges[k].0 < edges[k].1,
        k + 1 < NUM_BANDS ==> edges[k].1 == edges[k + 1].0,
        k + 1 < NUM_BANDS ==> edges[k] != edges[k + 1],
{
    let r = band_ratio(rate);
    lemma_wide_bands(rate);
    lemma_below_top(rate, k);
    lemma_below_top(rate, k + 1);
    let f = pitch(20 * ONE, r, k);
    let g = pitch(20 * ONE, r, k + 1);
    let o = 1_000_000_000int;
    assert(f * r >= f * 1_050_000_000) by (nonlinear_arith)
        requires
            f >= 0,
            r >= 1_050_000_000,
    ;
    vstd::arithmetic::div_mod::lemma_div_is_ordered(f * 1_050_000_000, f * r, o);
    assert(f * 1_050_000_000 / o >= f + 999_999_999);
    assert(g == clamped(f * r / o, 0, i64::MAX as int));
    assert(f * 1024 / rate <= 486_400_000_000) by (nonlinear_arith)
        requires
            0 <= f <= rate * 475_000_000,
            rate > 0,
    ;
    assert(f * 1024 >= 0);
    law_bands_distinct(f, g, rate);
    assert(pitches(r)[k] == f && pitches(r)[k + 1] == g);
    assert((edges[k].0 as int, edges[k].1 as int) == band_edge(f, g, rate));
    if k + 1 < NUM_BANDS {
        law_display_covered(r, rate, edges, k);
    }
}

// -- levels -----------------------------------------------------------------
/// Level of a decibel value in billionths, over the 90 dB above the noise
/// floor.
pub open spec fn db_level(db: int) -> int {
    clamped(ONE + trunc(db, 90), 0, ONE as int)
}

/// Normalize a decibel value: full scale at 0 dB, silence at -90 dB and below.
pub fn level_of_db(db: i64) -> (r: i64)
    ensures
        r == db_level(db as int),
        0 <= r <= ONE,
{
    let d: i64 = clamp(db, -100 * ONE, 100 * ONE);
    proof {
        crate::number::lemma_trunc(d as int, 90, 2 * ONE);
    }
    clamp(ONE + mul_div(d, 1, 90), 0, ONE)
}

/// Normalize the decibel values of a spectrum's bins.
pub fn spectrum_of_db(db: &[i64]) -> (levels: Vec<i64>)
    ensures
        levels@.len() == db@.len(),
        forall|i: int|
            0 <= i < db@.len() ==> #[trigger] levels@[i] == db_level(db@[i] as int),
        all_levels(levels@),
{
    let mut levels: Vec<i64> = Vec::with_capacity(db.len());
    let mut i: usize = 0;
    while i < db.len()
        invariant
            i <= db@.len(),
            levels@.len() == i,
            forall|j: int| 0 <= j < i ==> #[trigger] levels@[j] == db_level(db@[j] as int),
            all_levels(levels@),
        decreases db@.len() - i,
    {
        levels.push(level_of_db(db[i]));
        i = i + 1;
    }
    levels
}

/// Louder never maps lower; full scale maps to one and the floor to zero.
pub proof fn law_db_level(a: int, b: int)
    requires
        a <= b,
    ensures
        db_level(a) <= db_level(b),
        db_level(0) == ONE,
        db_level(-90 * ONE) == 0,
{
    crate::number::lemma_trunc_monotone(a, b, 90);
}

/// Levels in range.
pub open spec fn all_levels(s: Seq<i64>) -> bool {
    forall|i: int| 0 <= i < s.len() ==> 0 <= #[trigger] s[i] <= ONE
}

/// The spectrum between its bins, at a continuous position.
pub open spec fn level_at(spectrum: Seq<i64>, pos: int) -> int {
    blend(
        spectrum[pos / (ONE as int)] as int,
        spectrum[pos / (ONE as int) + 1] as int,
        pos % (ONE as int),
    )
}

/// Largest position that can be interpolated in a spectrum of `len` bins.
pub open spec fn last_pos(len: int) -> int {
    len * ONE - 1_001_000_000
}

/// Position of sample `s` of the four across a band.
pub open spec fn sample_pos(edge: BandEdge, len: int, s: int) -> int {
    let lo = clamped(edge.0 as int, 0, last_pos(len));
    let hi = clamped(edge.1 as int, lo, last_pos(len));
    lo + (hi - lo) * s / 3
}

/// Peak of the first `n` samples across a band, at least zero. Peak, not mean:
/// a single strong tone is not averaged away by quiet neighbours.
pub open spec fn band_peak(spectrum: Seq<i64>, edge: BandEdge, n: int) -> int
    decreases n,
{
    if n <= 0 {
        0
    } else {
        let rest = band_peak(spectrum, edge, n - 1);
        let v = level_at(spectrum, sample_pos(edge, spectrum.len() as int, n - 1));
        if v > rest {
            v
        } else {
            rest
        }
    }
}

/// Peak, not mean: no sample across a band is louder than its peak, so a single
/// strong tone is not averaged away.
pub proof fn law_peak_not_mean(spectrum: Seq<i64>, edge: BandEdge, n: int, s: int)
    requires
        0 <= s < n,
    ensures
        band_peak(spectrum, edge, n) >= level_at(
            spectrum,
            sample_pos(edge, spectrum.len() as int, s),
        ),
        band_peak(spectrum, edge, n) >= 0,
    decreases n,
{
    lemma_peak_floor(spectrum, edge, n);
    if s < n - 1 {
        law_peak_not_mean(spectrum, edge, n - 1, s);
    }
}

proof fn lemma_peak_floor(spectrum: Seq<i64>, edge: BandEdge, n: int)
    ensures
        band_peak(spectrum, edge, n) >= 0,
    decreases n,
{
    if n > 0 {
        lemma_peak_floor(spectrum, edge, n - 1);
    }
}

/// Time constant for a band moving to a peak.
pub open spec fn band_tau(level: int, peak: int) -> u64 {
    if peak > level {
        BAND_ATTACK_TAU
    } else {
        BAND_RELEASE_TAU
    }
}

/// `after` is a band's level once it eased towards `peak` for `dt`. No time, no
/// motion.
pub open spec fn eased<E: Fn(u64, u64) -> i64>(
    ease: E,
    before: int,
    after: int,
    peak: int,
    dt: u64,
) -> bool {
    if dt == 0 {
        after == before
    } else {
        exists|alpha: i64|
            #![trigger call_ensures(ease, (dt, band_tau(before, peak)), alpha)]
            call_ensures(ease, (dt, band_tau(before, peak)), alpha) && after == blend(
                before,
                peak,
                clamped(alpha as int, 0, ONE as int),
            )
    }
}

fn sample_band(spectrum: &[i64], edge: BandEdge, s: i64) -> (v: i64)
    requires
        2 <= spectrum@.len() <= 0x1_0000_0000,
        0 <= s <= 3,
    ensures
        v == level_at(spectrum@, sample_pos(edge, spectrum@.len() as int, s as int)),
        all_levels(spectrum@) ==> 0 <= v <= ONE,
{
    let last: i64 = spectrum.len() as i64 * ONE - 1_001_000_000;
    let lo: i64 = clamp(edge.0, 0, last);
    let hi: i64 = clamp(edge.1, lo, last);
    proof {
        let w = hi - lo;
        assert(0 <= w * s <= w * 3) by (nonlinear_arith)
            requires
                0 <= w,
                0 <= s <= 3,
        ;
    }
    let pos: i64 = lo + mul_div(hi - lo, s, 3);
    let i: usize = (pos / ONE) as usize;
    assert(all_levels(spectrum@) ==> 0 <= spectrum@[i as int] <= ONE && 0 <= spectrum@[i + 1]
        <= ONE);
    lerp(spectrum[i], spectrum[i + 1], pos % ONE)
}

fn peak_of_band(spectrum: &[i64], edge: BandEdge) -> (peak: i64)
    requires
        2 <= spectrum@.len() <= 0x1_0000_0000,
    ensures
        peak == band_peak(spectrum@, edge, 4),
        0 <= peak,
        all_levels(spectrum@) ==> peak <= ONE,
{
    let mut peak: i64 = 0;
    let mut s: i64 = 0;
    while s < 4
        invariant
            2 <= spectrum@.len() <= 0x1_0000_0000,
            0 <= s <= 4,
            peak == band_peak(spectrum@, edge, s as int),
            0 <= peak,
            all_levels(spectrum@) ==> peak <= ONE,
        decreases 4 - s,
    {
        let v: i64 = sample_band(spectrum, edge, s);
        if v > peak {
            peak = v;
        }
        s = s + 1;
    }
    peak
}

/// Collapse a spectrum into per-band levels, with a fast-attack, slow-release
/// envelope.
///
/// Each band is sampled at four points across its continuous span and the peak
/// of those is kept, and never less than zero. `ease` gives the fraction of the way a first-order filter
/// moves in a time; being exponential in wall-clock time, the motion looks the
/// same at any frame rate. No time changes nothing. Levels past the last edge
/// keep their value.
pub fn update_bands<E: Fn(u64, u64) -> i64>(
    spectrum: &[i64],
    edges: &[BandEdge],
    levels: &mut Vec<i64>,
    dt: u64,
    ease: &E,
)
    requires
        2 <= spectrum@.len() <= 0x1_0000_0000,
        edges@.len() <= old(levels)@.len(),
        forall|t: u64, tau: u64| call_requires(ease, (t, tau)),
    ensures
        final(levels)@.len() == old(levels)@.len(),
        all_levels(spectrum@) && all_levels(old(levels)@) ==> all_levels(final(levels)@),
        dt == 0 ==> final(levels)@ == old(levels)@,
        forall|i: int|
            0 <= i < edges@.len() ==> eased(
                *ease,
                old(levels)@[i] as int,
                #[trigger] final(levels)@[i] as int,
                band_peak(spectrum@, edges@[i], 4),
                dt,
            ),
        forall|i: int|
            edges@.len() <= i < old(levels)@.len() ==> #[trigger] final(levels)@[i] == old(
                levels,
            )@[i],
{
    let ghost before = levels@;
    if dt == 0 {
        return;
    }
    let mut i: usize = 0;
    while i < edges.len()
        invariant
            2 <= spectrum@.len() <= 0x1_0000_0000,
            dt > 0,
            i <= edges@.len() <= before.len(),
            levels@.len() == before.len(),
            all_levels(spectrum@) && all_levels(before) ==> all_levels(levels@),
            forall|t: u64, tau: u64| call_requires(ease, (t, tau)),
            forall|j: int|
                0 <= j < i ==> eased(
                    *ease,
                    before[j] as int,
                    #[trigger] levels@[j] as int,
                    band_peak(spectrum@, edges@[j], 4),
                    dt,
                ),
            forall|j: int| i <= j < before.len() ==> #[trigger] levels@[j] == before[j],
        decreases edges@.len() - i,
    {
        let peak: i64 = peak_of_band(spectrum, edges[i]);
        let level: i64 = levels[i];
        assert(all_levels(spectrum@) && all_levels(before) ==> 0 <= levels@[i as int] <= ONE);
        let tau: u64 = if peak > level {
            BAND_ATTACK_TAU
        } else {
            BAND_RELEASE_TAU
        };
        let alpha: i64 = ease(dt, tau);
        let next: i64 = lerp(level, peak, clamp(alpha, 0, ONE));
        proof {
            assert(call_ensures(*ease, (dt, band_tau(level as int, peak as int)), alpha));
            assert(eased(*ease, before[i as int] as int, next as int, peak as int, dt));
        }
        levels.set(i, next);
        i = i + 1;
    }
}

/// A band never moves away from its peak, nor past it, and without time it does
/// not move at all.
pub proof fn law_band_approaches<E: Fn(u64, u64) -> i64>(
    ease: E,
    before: int,
    after: int,
    peak: int,
    dt: u64,
)
    requires
        eased(ease, before, after, peak, dt),
    ensures
        before <= peak ==> before <= after <= peak,
        peak <= before ==> peak <= after <= before,
        dt == 0 ==> after == before,
{
    if dt > 0 {
        let alpha = choose|alpha: i64|
            #![trigger call_ensures(ease, (dt, band_tau(before, peak)), alpha)]
            call_ensures(ease, (dt, band_tau(before, peak)), alpha) && after == blend(
                before,
                peak,
                clamped(alpha as int, 0, ONE as int),
            );
        lemma_blend_between(before, peak, clamped(alpha as int, 0, ONE as int));
    }
}

/// A step of a band is a step by the share of its time.
proof fn lemma_eased<E: Fn(u64, u64) -> i64>(
    ease: E,
    before: int,
    after: int,
    peak: int,
    dt: u64,
    tau: u64,
    slack: int,
)
    requires
        composing(ease, slack),
        0 <= before <= ONE,
        0 <= peak <= ONE,
        eased(ease, before, after, peak, dt),
        tau == band_tau(before, peak) || before == peak,
    ensures
        after == settled(before, peak, share(ease, dt as int, tau), 0),
{
    lemma_blend_between(before, peak, 0);
    if dt > 0 {
        let own = band_tau(before, peak);
        let alpha = choose|alpha: i64|
            #![trigger call_ensures(ease, (dt, own), alpha)]
            call_ensures(ease, (dt, own), alpha) && after == blend(
                before,
                peak,
                clamped(alpha as int, 0, ONE as int),
            );
        assert(answer(ease, dt, own) == alpha);
        lemma_blend_between(before, peak, clamped(alpha as int, 0, ONE as int));
        lemma_blend_between(peak, peak, share(ease, dt as int, tau));
    }
}

/// Band motion looks the same at any frame rate: where the easing curve composes
/// over time, two frames towards a peak land where one frame of their length
/// lands, to within the curve's slack and one unit.
pub proof fn law_band_motion_composes<E: Fn(u64, u64) -> i64>(
    ease: E,
    before: int,
    mid: int,
    after: int,
    once: int,
    peak: int,
    s: u64,
    t: u64,
    slack: int,
)
    requires
        composing(ease, slack),
        0 <= before <= ONE,
        0 <= peak <= ONE,
        s + t <= u64::MAX,
        eased(ease, before, mid, peak, s),
        eased(ease, mid, after, peak, t),
        eased(ease, before, once, peak, (s + t) as u64),
    ensures
        once - 1 - slack <= after <= once + slack,
{
    let tau = band_tau(before, peak);
    law_band_approaches(ease, before, mid, peak, s);
    lemma_eased(ease, before, mid, peak, s, tau, slack);
    lemma_eased(ease, mid, after, peak, t, tau, slack);
    lemma_eased(ease, before, once, peak, (s + t) as u64, tau, slack);
    lemma_shares_compose(ease, s as int, t as int, tau, slack);
    lemma_settled_composes(
        before,
        peak,
        share(ease, s as int, tau),
        share(ease, t as int, tau),
        share(ease, s + t, tau),
        0,
        slack,
    );
}

/// Levels do not depend on how time is divided into frames: updating all bands
/// for `s` and then for `t` gives what one update for `s + t` gives, to within
/// the curve's slack and one unit.
pub proof fn law_levels_compose<E: Fn(u64, u64) -> i64>(
    ease: E,
    before: Seq<i64>,
    mid: Seq<i64>,
    after: Seq<i64>,
    once: Seq<i64>,
    spectrum: Seq<i64>,
    edges: Seq<BandEdge>,
    s: u64,
    t: u64,
    slack: int,
)
    requires
        composing(ease, slack),
        2 <= spectrum.len(),
        all_levels(spectrum),
        all_levels(before),
        s + t <= u64::MAX,
        all_eased(ease, before, mid, spectrum, edges, s),
        all_eased(ease, mid, after, spectrum, edges, t),
        all_eased(ease, before, once, spectrum, edges, (s + t) as u64),
    ensures
        forall|i: int|
            0 <= i < edges.len() ==> once[i] - 1 - slack <= #[trigger] after[i] <= once[i] + slack,
{
    assert forall|i: int| 0 <= i < edges.len() implies once[i] - 1 - slack <= #[trigger] after[i]
        <= once[i] + slack by {
        let peak = band_peak(spectrum, edges[i], 4);
        lemma_peak_in_range(spectrum, edges[i], 4);
        assert(0 <= before[i] <= ONE);
        assert(eased(ease, before[i] as int, mid[i] as int, peak, s));
        assert(eased(ease, mid[i] as int, after[i] as int, peak, t));
        assert(eased(ease, before[i] as int, once[i] as int, peak, (s + t) as u64));
        law_band_motion_composes(
            ease,
            before[i] as int,
            mid[i] as int,
            after[i] as int,
            once[i] as int,
            peak,
            s,
            t,
            slack,
        );
    }
}

/// A run of frames over one spectrum leaves every band where one frame of the
/// whole time leaves it, to within the curve's slack and one unit for each frame.
pub proof fn law_levels_run<E: Fn(u64, u64) -> i64>(
    ease: E,
    runs: Seq<Seq<i64>>,
    dts: Seq<u64>,
    once: Seq<i64>,
    spectrum: Seq<i64>,
    edges: Seq<BandEdge>,
    slack: int,
    i: int,
)
    requires
        composing(ease, slack),
        2 <= spectrum.len(),
        all_levels(spectrum),
        runs.len() == dts.len() + 1,
        all_levels(runs[0]),
        total_time(dts, dts.len() as int) <= u64::MAX,
        forall|k: int|
            0 <= k < dts.len() ==> all_eased(
                ease,
                runs[k],
                #[trigger] runs[k + 1],
                spectrum,
                edges,
                dts[k],
            ),
        all_eased(
            ease,
            runs[0],
            once,
            spectrum,
            edges,
            total_time(dts, dts.len() as int) as u64,
        ),
        0 <= i < edges.len(),
    ensures
        -(dts.len() * (slack + 1)) <= runs.last()[i] - once[i] <= dts.len() * (slack + 1),
{
    let peak = band_peak(spectrum, edges[i], 4);
    let n = dts.len() as int;
    let levels = Seq::new(runs.len(), |k: int| runs[k][i] as int);
    let tau = band_tau(levels[0], peak);
    lemma_peak_in_range(spectrum, edges[i], 4);
    assert(0 <= runs[0][i] <= ONE);
    assert(eased(
        ease,
        runs[0][i] as int,
        once[i] as int,
        peak,
        total_time(dts, n) as u64,
    ));
    lemma_total_time(dts, n);
    lemma_eased(ease, levels[0], once[i] as int, peak, total_time(dts, n) as u64, tau, slack);
    assert forall|k: int| 0 <= k < n implies #[trigger] levels[k + 1] == settled(
        levels[k],
        peak,
        share(ease, dts[k] as int, tau),
        0,
    ) by {
        assert forall|k: int| 0 <= k < n implies eased(
            ease,
            levels[k],
            #[trigger] levels[k + 1],
            peak,
            dts[k],
        ) by {
            assert(all_eased(ease, runs[k], runs[k + 1], spectrum, edges, dts[k]));
            assert(eased(ease, runs[k][i] as int, runs[k + 1][i] as int, peak, dts[k]));
        }
        lemma_band_side(ease, levels, dts, peak, slack, k);
    }
    lemma_run(ease, tau, levels, dts, peak, 0, slack, n);
}

proof fn lemma_band_side<E: Fn(u64, u64) -> i64>(
    ease: E,
    levels: Seq<int>,
    dts: Seq<u64>,
    peak: int,
    slack: int,
    k: int,
)
    requires
        composing(ease, slack),
        levels.len() == dts.len() + 1,
        0 <= levels[0] <= ONE,
        0 <= peak <= ONE,
        0 <= k < dts.len(),
        forall|k: int|
            0 <= k < dts.len() ==> eased(ease, levels[k], #[trigger] levels[k + 1], peak, dts[k]),
    ensures
        0 <= levels[k] <= ONE,
        levels[0] < peak ==> levels[k] <= peak,
        levels[0] >= peak ==> levels[k] >= peak,
        levels[k + 1] == settled(
            levels[k],
            peak,
            share(ease, dts[k] as int, band_tau(levels[0], peak)),
            0,
        ),
    decreases k,
{
    if k > 0 {
        lemma_band_side(ease, levels, dts, peak, slack, k - 1);
        assert(eased(ease, levels[k - 1], levels[(k - 1) + 1], peak, dts[k - 1]));
        law_band_approaches(ease, levels[k - 1], levels[k], peak, dts[k - 1]);
    }
    assert(eased(ease, levels[k], levels[k + 1], peak, dts[k]));
    lemma_eased(
        ease,
        levels[k],
        levels[k + 1],
        peak,
        dts[k],
        band_tau(levels[0], peak),
        slack,
    );
}

proof fn lemma_peak_in_range(spectrum: Seq<i64>, edge: BandEdge, n: int)
    requires
        2 <= spectrum.len(),
        all_levels(spectrum),
        n <= 4,
    ensures
        0 <= band_peak(spectrum, edge, n) <= ONE,
    decreases n,
{
    if n > 0 {
        lemma_peak_in_range(spectrum, edge, n - 1);
        let len = spectrum.len() as int;
        let lo = clamped(edge.0 as int, 0, last_pos(len));
        let hi = clamped(edge.1 as int, lo, last_pos(len));
        let w = hi - lo;
        let s = n - 1;
        assert(0 <= w * s <= w * 3) by (nonlinear_arith)
            requires
                0 <= w,
                0 <= s <= 3,
        ;
        let pos = sample_pos(edge, len, s);
        let i = pos / (ONE as int);
        assert(0 <= i < len - 1);
        assert(0 <= spectrum[i] <= ONE && 0 <= spectrum[i + 1] <= ONE);
        lemma_blend_between(spectrum[i] as int, spectrum[i + 1] as int, pos % (ONE as int));
    }
}

/// Average of two channels' levels.
pub fn average_levels(left: &[i64], right: &[i64]) -> (avg: Vec<i64>)
    requires
        left@.len() == right@.len(),
        all_levels(left@),
        all_levels(right@),
    ensures
        avg@.len() == left@.len(),
        forall|i: int|
            0 <= i < left@.len() ==> #[trigger] avg@[i] == (left@[i] + right@[i]) / 2,
        all_levels(avg@),
{
    let mut avg: Vec<i64> = Vec::with_capacity(left.len());
    let mut i: usize = 0;
    while i < left.len()
        invariant
            i <= left@.len() == right@.len(),
            all_levels(left@),
            all_levels(right@),
            avg@.len() == i,
            forall|j: int| 0 <= j < i ==> #[trigger] avg@[j] == (left@[j] + right@[j]) / 2,
            all_levels(avg@),
        decreases left@.len() - i,
    {
        assert(0 <= left@[i as int] <= ONE && 0 <= right@[i as int] <= ONE);
        avg.push((left[i] + right[i]) / 2);
        i = i + 1;
    }
    avg
}

/// Smoothed band levels of both channels, and their average.
pub struct Levels {
    pub left: Vec<i64>,
    pub right: Vec<i64>,
    pub average: Vec<i64>,
}

/// Each level of `after` is that of `before` eased toward its band's peak.
pub open spec fn all_eased<E: Fn(u64, u64) -> i64>(
    ease: E,
    before: Seq<i64>,
    after: Seq<i64>,
    spectrum: Seq<i64>,
    edges: Seq<BandEdge>,
    dt: u64,
) -> bool {
    &&& after.len() == before.len() == edges.len()
    &&& forall|i: int|
        0 <= i < edges.len() ==> eased(
            ease,
            before[i] as int,
            #[trigger] after[i] as int,
            band_peak(spectrum, edges[i], 4),
            dt,
        )
}

impl Levels {
    /// One level per band for each channel, and the average of the two.
    pub open spec fn wf(&self) -> bool {
        &&& self.left@.len() == NUM_BANDS
        &&& self.right@.len() == NUM_BANDS
        &&& self.average@.len() == NUM_BANDS
        &&& all_levels(self.left@)
        &&& all_levels(self.right@)
        &&& all_levels(self.average@)
        &&& forall|i: int|
            0 <= i < NUM_BANDS ==> #[trigger] self.average@[i] == (self.left@[i] + self.right@[i])
                / 2
    }

    /// Silence.
    pub fn new() -> (r: Self)
        ensures
            r.wf(),
            forall|i: int| 0 <= i < NUM_BANDS ==> #[trigger] r.average@[i] == 0,
            forall|i: int| 0 <= i < NUM_BANDS ==> #[trigger] r.left@[i] == 0,
            forall|i: int| 0 <= i < NUM_BANDS ==> #[trigger] r.right@[i] == 0,
    {
        let mut left: Vec<i64> = Vec::with_capacity(NUM_BANDS);
        let mut right: Vec<i64> = Vec::with_capacity(NUM_BANDS);
        let mut average: Vec<i64> = Vec::with_capacity(NUM_BANDS);
        let mut i: usize = 0;
        while i < NUM_BANDS
            invariant
                i <= NUM_BANDS,
                left@.len() == i,
                right@.len() == i,
                average@.len() == i,
                forall|j: int| 0 <= j < i ==> #[trigger] left@[j] == 0,
                forall|j: int| 0 <= j < i ==> #[trigger] right@[j] == 0,
                forall|j: int| 0 <= j < i ==> #[trigger] average@[j] == 0,
            decreases NUM_BANDS - i,
        {
            left.push(0);
            right.push(0);
            average.push(0);
            i = i + 1;
        }
        Levels { left, right, average }
    }

    /// Move toward a published pair of spectra; before the first is published
    /// there is nothing to move toward.
    pub fn update<E: Fn(u64, u64) -> i64>(
        &mut self,
        left: &[i64],
        right: &[i64],
        edges: &[BandEdge],
        dt: u64,
        ease: &E,
    )
        requires
            old(self).wf(),
            edges@.len() == NUM_BANDS,
            left@.len() > 0 ==> 2 <= left@.len() <= 0x1_0000_0000 && 2 <= right@.len()
                <= 0x1_0000_0000,
            all_levels(left@),
            all_levels(right@),
            forall|t: u64, tau: u64| call_requires(ease, (t, tau)),
        ensures
            final(self).wf(),
            left@.len() == 0 ==> *final(self) == *old(self),
            left@.len() > 0 ==> all_eased(
                *ease,
                old(self).left@,
                final(self).left@,
                left@,
                edges@,
                dt,
            ) && all_eased(*ease, old(self).right@, final(self).right@, right@, edges@, dt),
    {
        if left.len() == 0 {
            return;
        }
        update_bands(left, edges, &mut self.left, dt, ease);
        update_bands(right, edges, &mut self.right, dt, ease);
        self.average = average_levels(self.left.as_slice(), self.right.as_slice());
    }
}

// -- bass -------------------------------------------------------------------
/// One past the last bin of the bass band: 250 Hz rounded up to whole bins, at
/// least one bin wide.
pub open spec fn bass_end(rate: int) -> int {
    if rate == 0 {
        NUM_BINS as int
    } else {
        clamped((256_000 + rate - 1) / rate, 2, NUM_BINS as int)
    }
}

/// Bins of the bass band of a stream. Bin 0 is the DC offset, so it starts at 1.
pub fn bass_bins(sample_rate: u32) -> (r: (usize, usize))
    ensures
        r.0 == 1,
        r.1 == bass_end(sample_rate as int),
        r.0 < r.1 <= NUM_BINS,
{
    if sample_rate == 0 {
        return (1, NUM_BINS);
    }
    let n: u64 = (256_000 + sample_rate as u64 - 1) / sample_rate as u64;
    assert(0 <= n <= 256_000) by (nonlinear_arith)
        requires
            n == (256_000 + sample_rate - 1) / (sample_rate as int),
            1 <= sample_rate <= 0xFFFF_FFFF,
    ;
    (1, clamp(n as i64, 2, NUM_BINS as i64) as usize)
}

/// Sum of `s[from..to]`.
pub open spec fn sum_range(s: Seq<i64>, from: int, to: int) -> int
    decreases to - from,
{
    if to <= from {
        0
    } else {
        sum_range(s, from, to - 1) + s[to - 1]
    }
}

/// Mean level of both channels over a range of bins.
pub open spec fn mean_level(left: Seq<i64>, right: Seq<i64>, from: int, to: int) -> int {
    (sum_range(left, from, to) + sum_range(right, from, to)) / ((to - from) * 2)
}

/// Bass energy: the mean level of both channels over the bass band.
pub fn bass_energy(left: &[i64], right: &[i64], from: usize, to: usize) -> (e: i64)
    requires
        from < to <= left@.len(),
        to <= right@.len(),
        to <= 0x1000_0000,
        all_levels(left@),
        all_levels(right@),
    ensures
        e == mean_level(left@, right@, from as int, to as int),
        0 <= e <= ONE,
{
    let mut sum: i64 = 0;
    let mut i: usize = from;
    while i < to
        invariant
            from <= i <= to <= left@.len(),
            from < to <= 0x1000_0000,
            to <= right@.len(),
            all_levels(left@),
            all_levels(right@),
            sum == sum_range(left@, from as int, i as int) + sum_range(
                right@,
                from as int,
                i as int,
            ),
            0 <= sum <= (i - from) * 2_000_000_000,
        decreases to - i,
    {
        assert(0 <= left@[i as int] <= ONE && 0 <= right@[i as int] <= ONE);
        sum = sum + left[i] + right[i];
        i = i + 1;
    }
    let n: i64 = (to - from) as i64 * 2;
    assert(0 <= sum as int / (n as int) <= 1_000_000_000) by (nonlinear_arith)
        requires
            0 <= sum <= (to - from) * 2_000_000_000,
            n == (to - from) * 2,
            to > from,
    ;
    sum / n
}

/// The four samples of a band are evenly spaced over it: the first at its lower
/// edge, the last at its upper edge, and a third of the way between neighbours.
pub proof fn law_samples_span_band(edge: BandEdge, len: int, s: int)
    requires
        len >= 2,
        0 <= edge.0 <= edge.1 <= len * 1_000_000_000 - 1_001_000_000,
        0 <= s <= 3,
    ensures
        sample_pos(edge, len, 0) == edge.0,
        sample_pos(edge, len, 3) == edge.1,
        s < 3 ==> -3 < 3 * (sample_pos(edge, len, s + 1) - sample_pos(edge, len, s)) - (edge.1
            - edge.0) < 3,
        edge.0 <= sample_pos(edge, len, s) <= edge.1,
{
    let w = edge.1 - edge.0;
    assert(w * 0 == 0 && w * 1 == w && w * 2 == 2 * w && w * 3 == 3 * w) by (nonlinear_arith);
}

/// An edge that lies outside the spectrum is read at its nearest end.
pub proof fn law_samples_stay_in_spectrum(edge: BandEdge, len: int, s: int)
    requires
        len >= 2,
        0 <= s <= 3,
    ensures
        0 <= sample_pos(edge, len, s) <= len * 1_000_000_000 - 1_001_000_000,
        edge.0 <= 0 ==> sample_pos(edge, len, 0) == 0,
        edge.0 >= len * 1_000_000_000 - 1_001_000_000 ==> sample_pos(edge, len, s) == len
            * 1_000_000_000 - 1_001_000_000,
        edge.1 >= len * 1_000_000_000 - 1_001_000_000 ==> sample_pos(edge, len, 3) == len
            * 1_000_000_000 - 1_001_000_000,
{
    let last = len * 1_000_000_000 - 1_001_000_000;
    let lo = clamped(edge.0 as int, 0, last);
    let hi = clamped(edge.1 as int, lo, last);
    let w = hi - lo;
    assert(w * 0 == 0 && w * 1 == w && w * 2 == 2 * w && w * 3 == 3 * w) by (nonlinear_arith);
}

/// Between two bins a spectrum is read in proportion: a whole position is its bin,
/// and each billionth past it moves a billionth of the way to the next one.
pub proof fn law_level_between_bins(spectrum: Seq<i64>, bin: int, past: int)
    requires
        0 <= bin,
        bin + 1 < spectrum.len(),
        0 <= past < 1_000_000_000,
    ensures
        ({
            let v = level_at(spectrum, bin * 1_000_000_000 + past);
            let (a, b) = (spectrum[bin] as int, spectrum[bin + 1] as int);
            &&& past == 0 ==> v == a
            &&& -1_000_000_000 < 1_000_000_000 * (v - a) - (b - a) * past <= 0
        }),
{
    let pos = bin * 1_000_000_000 + past;
    assert(pos / 1_000_000_000 == bin && pos % 1_000_000_000 == past);
    let (a, b) = (spectrum[bin] as int, spectrum[bin + 1] as int);
    assert(a * (1_000_000_000 - past) + b * past == a * 1_000_000_000 + (b - a) * past)
        by (nonlinear_arith);
    if past == 0 {
        assert((b - a) * past == 0) by (nonlinear_arith)
            requires
                past == 0,
        ;
    }
}

/// The peak of a band is one of its four samples, or silence, and none of them is
/// above it. In particular a tone on either edge of a band is seen in full.
pub proof fn law_band_shows_its_peak(spectrum: Seq<i64>, edge: BandEdge, bin: int)
    requires
        spectrum.len() >= 2,
        0 <= edge.0 <= edge.1 <= spectrum.len() * 1_000_000_000 - 1_001_000_000,
        0 <= bin,
        bin + 1 < spectrum.len(),
    ensures
        edge.0 == bin * 1_000_000_000 ==> band_peak(spectrum, edge, 4) >= spectrum[bin],
        edge.1 == bin * 1_000_000_000 ==> band_peak(spectrum, edge, 4) >= spectrum[bin],
        band_peak(spectrum, edge, 4) >= 0,
        band_peak(spectrum, edge, 4) == 0 || exists|s: int|
            0 <= s <= 3 && band_peak(spectrum, edge, 4) == level_at(
                spectrum,
                #[trigger] sample_pos(edge, spectrum.len() as int, s),
            ),
{
    let len = spectrum.len() as int;
    law_samples_span_band(edge, len, 0);
    law_level_between_bins(spectrum, bin, 0);
    law_peak_not_mean(spectrum, edge, 4, 0);
    law_peak_not_mean(spectrum, edge, 4, 3);
    lemma_peak_attained(spectrum, edge, 4);
}

proof fn lemma_peak_attained(spectrum: Seq<i64>, edge: BandEdge, n: int)
    requires
        0 <= n,
    ensures
        band_peak(spectrum, edge, n) == 0 || exists|s: int|
            0 <= s < n && band_peak(spectrum, edge, n) == level_at(
                spectrum,
                #[trigger] sample_pos(edge, spectrum.len() as int, s),
            ),
    decreases n,
{
    if n > 0 {
        lemma_peak_attained(spectrum, edge, n - 1);
        let v = sample_pos(edge, spectrum.len() as int, n - 1);
    }
}

/// A band rises with a time constant of 50 milliseconds and falls with one of 220:
/// it moves by the share that the curve gives for it of the way to its peak.
pub proof fn law_band_rates<E: Fn(u64, u64) -> i64>(
    ease: E,
    before: int,
    after: int,
    peak: int,
    dt: u64,
) -> (alpha: i64)
    requires
        eased(ease, before, after, peak, dt),
        dt > 0,
    ensures
        peak > before ==> call_ensures(ease, (dt, 50_000_000u64), alpha),
        peak <= before ==> call_ensures(ease, (dt, 220_000_000u64), alpha),
        0 <= alpha <= 1_000_000_000 ==> -1_000_000_000 < 1_000_000_000 * (after - before) - (peak
            - before) * alpha <= 0,
        alpha <= 0 ==> after == before,
        alpha >= 1_000_000_000 ==> after == peak,
{
    let tau = band_tau(before, peak);
    let alpha = choose|alpha: i64|
        #![trigger call_ensures(ease, (dt, tau), alpha)]
        call_ensures(ease, (dt, tau), alpha) && after == blend(
            before,
            peak,
            clamped(alpha as int, 0, ONE as int),
        );
    let t = clamped(alpha as int, 0, ONE as int);
    assert(before * (1_000_000_000 - t) + peak * t == before * 1_000_000_000 + (peak - before) * t)
        by (nonlinear_arith);
    if t == 0 {
        assert((peak - before) * t == 0) by (nonlinear_arith)
            requires
                t == 0,
        ;
    }
    if t == 1_000_000_000 {
        assert((peak - before) * t == (peak - before) * 1_000_000_000);
    }
    alpha
}

/// A frequency lies as far into the spectrum as it is of the sample rate: its
/// position in bins is 1024 times that share, up to the last bin, and one below
/// zero is none.
pub proof fn law_bin_position(freq: int, rate: int)
    requires
        rate > 0,
    ensures
        freq <= 0 ==> bin_pos(freq, rate) == 0,
        freq >= 0 && freq * 1024 <= 510_999_000_000 * rate ==> bin_pos(freq, rate) * rate <= freq
            * 1024 < bin_pos(freq, rate) * rate + rate,
        freq * 1024 >= 510_999_000_000 * rate ==> bin_pos(freq, rate) == 510_999_000_000,
{
    let n = freq * 1024;
    if freq >= 0 {
        vstd::arithmetic::div_mod::lemma_fundamental_div_mod(n, rate);
        vstd::arithmetic::div_mod::lemma_mod_bound(n, rate);
        let q = n / rate;
        assert(rate * q == q * rate) by (nonlinear_arith);
        assert(q >= 0) by (nonlinear_arith)
            requires
                q * rate + rate > n,
                n >= 0,
                rate > 0,
        ;
        if n <= 510_999_000_000 * rate {
            assert(q <= 510_999_000_000) by (nonlinear_arith)
                requires
                    q * rate <= n,
                    n <= 510_999_000_000 * rate,
                    rate > 0,
            ;
        }
        if n >= 510_999_000_000 * rate {
            assert(q >= 510_999_000_000) by (nonlinear_arith)
                requires
                    q * rate + rate > n,
                    n >= 510_999_000_000 * rate,
                    rate > 0,
            ;
        }
    } else {
        assert((-n) / rate >= 0) by (nonlinear_arith)
            requires
                -n >= 0,
                rate > 0,
        ;
        assert(510_999_000_000 * rate > 0) by (nonlinear_arith)
            requires
                rate > 0,
        ;
    }
}

/// The display starts at 20 hertz and ends at 20 kilohertz, or at 0.475 of the
/// sample rate where that is less; each band spans the same ratio of pitch, and
/// its edges lie at the positions of its two pitches.
pub proof fn law_bands_are_logarithmic(rate: int, edges: Seq<BandEdge>, k: int)
    requires
        1000 <= rate <= u32::MAX,
        is_ratio(rate, band_ratio(rate)),
        edges_between(pitches(band_ratio(rate)), rate, edges),
        0 <= k < 64,
    ensures
        ({
            let ratio = band_ratio(rate);
            let (f, g) = (pitch(20_000_000_000, ratio, k), pitch(20_000_000_000, ratio, k + 1));
            &&& edges.len() == 64
            &&& pitch(20_000_000_000, ratio, 0) == 20_000_000_000
            &&& g * 1_000_000_000 <= f * ratio < (g + 1) * 1_000_000_000
            &&& edges[k].0 == bin_pos(f, rate)
            &&& edges[k].1 == bin_pos(g, rate)
            &&& pitch(20_000_000_000, ratio, 64) <= 20_000_000_000_000
            &&& 1000 * pitch(20_000_000_000, ratio, 64) <= 475_000_000_000 * rate
            &&& pitch(20_000_000_000, ratio + 1, 64) > 20_000_000_000_000 || 1000 * pitch(
                20_000_000_000,
                ratio + 1,
                64,
            ) > 475_000_000_000 * rate
        }),
{
    let ratio = band_ratio(rate);
    law_bands_stay_distinct(rate, edges, k);
    lemma_wide_bands(rate);
    lemma_below_top(rate, k);
    lemma_below_top(rate, k + 1);
    let f = pitch(20 * ONE, ratio, k);
    let g = pitch(20 * ONE, ratio, k + 1);
    assert(edges[k].0 == band_edge(f, g, rate).0 && edges[k].1 == band_edge(f, g, rate).1);
}

/// Each band follows the spectrum between its own edges: its level moves towards the
/// peak that its own edge shows, and no other.
pub proof fn law_levels_follow_their_bands<E: Fn(u64, u64) -> i64>(
    ease: E,
    before: Seq<i64>,
    after: Seq<i64>,
    spectrum: Seq<i64>,
    edges: Seq<BandEdge>,
    dt: u64,
    i: int,
) -> (alpha: i64)
    requires
        all_eased(ease, before, after, spectrum, edges, dt),
        0 <= i < edges.len(),
        dt > 0,
    ensures
        ({
            let peak = band_peak(spectrum, edges[i], 4);
            let (old, new) = (before[i] as int, after[i] as int);
            &&& peak > old ==> call_ensures(ease, (dt, 50_000_000u64), alpha)
            &&& peak <= old ==> call_ensures(ease, (dt, 220_000_000u64), alpha)
            &&& 0 <= alpha <= 1_000_000_000 ==> -1_000_000_000 < 1_000_000_000 * (new - old) - (peak
                - old) * alpha <= 0
            &&& alpha <= 0 ==> new == old
            &&& alpha >= 1_000_000_000 ==> new == peak
        }),
{
    assert(eased(ease, before[i] as int, after[i] as int, band_peak(spectrum, edges[i], 4), dt));
    law_band_rates(
        ease,
        before[i] as int,
        after[i] as int,
        band_peak(spectrum, edges[i], 4),
        dt,
    )
}

/// The scale spans 90 decibels below full: a level falls by as many ninetieths.
pub proof fn law_db_scale(db: int)
    ensures
        -90_000_000_000 <= db <= 0 ==> 0 <= 90 * (db_level(db) - 1_000_000_000) - db < 90,
        db <= -90_000_000_000 ==> db_level(db) == 0,
        db >= 0 ==> db_level(db) == 1_000_000_000,
{
}

/// The display reaches to 20 kHz, or to 95 hundredths of half the sample rate where
/// that is lower.
pub proof fn law_display_top(rate: int)
    ensures
        display_top(rate) <= 20_000_000_000_000,
        200 * display_top(rate) <= 95 * (1_000_000_000 * rate),
        display_top(rate) == 20_000_000_000_000 || 200 * display_top(rate) == 95 * (1_000_000_000
            * rate),
{
}

/// The bass ends at the first bin that reaches 250 Hz, but is one bin wide at least.
pub proof fn law_bass_end(rate: int)
    requires
        rate > 0,
    ensures
        2 <= bass_end(rate) <= 512,
        bass_end(rate) < 512 ==> bass_end(rate) * rate >= 250 * 1024,
        bass_end(rate) > 2 ==> (bass_end(rate) - 1) * rate < 250 * 1024,
{
    let n = 256_000 + rate - 1;
    vstd::arithmetic::div_mod::lemma_fundamental_div_mod(n, rate);
    vstd::arithmetic::div_mod::lemma_mod_bound(n, rate);
    let q = n / rate;
    let e = bass_end(rate);
    assert(rate * q == q * rate && (q - 1) * rate == q * rate - rate) by (nonlinear_arith);
    if e < 512 {
        assert(e * rate >= q * rate) by (nonlinear_arith)
            requires
                e >= q,
                rate > 0,
        ;
    }
    if e > 2 {
        assert((e - 1) * rate <= (q - 1) * rate) by (nonlinear_arith)
            requires
                e <= q,
                rate > 0,
        ;
    }
}

/// The mean over some bins of both channels: as many times the bins of both it is
/// their sum, and each bin counts once, towards it.
pub proof fn law_mean_level(left: Seq<i64>, right: Seq<i64>, from: int, to: int)
    requires
        from < to,
    ensures
        ({
            let sum = sum_range(left, from, to) + sum_range(right, from, to);
            let n = 2 * (to - from);
            0 <= sum - n * mean_level(left, right, from, to) < n
        }),
{
    let sum = sum_range(left, from, to) + sum_range(right, from, to);
    let n = (to - from) * 2;
    vstd::arithmetic::div_mod::lemma_fundamental_div_mod(sum, n);
    vstd::arithmetic::div_mod::lemma_mod_bound(sum, n);
}

/// The sum over some bins counts each of them once and no other: it moves by as much
/// as a bin among them does, and not at all with one outside.
pub proof fn law_sum_counts_each(s: Seq<i64>, from: int, to: int, i: int, v: i64)
    requires
        0 <= from <= to <= s.len(),
        0 <= i < s.len(),
    ensures
        from <= i < to ==> sum_range(s.update(i, v), from, to) == sum_range(s, from, to) + v - s[i],
        !(from <= i < to) ==> sum_range(s.update(i, v), from, to) == sum_range(s, from, to),
    decreases to - from,
{
    if from < to {
        law_sum_counts_each(s, from, to - 1, i, v);
    }
}

/// Bins that are all alike sum up to as many times one of them.
pub proof fn law_sum_of_equals(s: Seq<i64>, from: int, to: int, v: i64)
    requires
        0 <= from <= to <= s.len(),
        forall|i: int| 0 <= i < s.len() ==> #[trigger] s[i] == v,
    ensures
        sum_range(s, from, to) == (to - from) * v,
    decreases to - from,
{
    if from < to {
        law_sum_of_equals(s, from, to - 1, v);
        assert(s[to - 1] == v);
        assert((to - 1 - from) * v + v == (to - from) * v) by (nonlinear_arith);
    } else {
        assert((to - from) * v == 0) by (nonlinear_arith)
            requires
                to == from,
        ;
    }
}

/// What is shown of a band is the mean of its two channels.
pub proof fn law_average(levels: Levels, i: int)
    requires
        levels.wf(),
        0 <= i < 64,
    ensures
        0 <= levels.left@[i] + levels.right@[i] - 2 * levels.average@[i] < 2,
{
    assert(levels.average@[i] == (levels.left@[i] + levels.right@[i]) / 2);
}

} // verus!
