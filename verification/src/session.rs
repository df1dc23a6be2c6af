//! Small decisions of the frame loop: the clear color, intervals as the HUD
//! records them, and when to print the summary.

use crate::color::{hex_byte, in_gamut, mix, mixed, srgb_hex};
use crate::hud::MS_MAX;
use crate::number::{clamp, clamped, law_blend, ONE};
use crate::srgb::linear;
use crate::visuals::{SURFACE_BASS_HEX, SURFACE_HEX};
use vstd::prelude::*;

verus! {

/// Most of the bass tint that is mixed into the background, in percent. It is
/// small because the tint is saturated, and the eye is to read low-alpha glow
/// against a dark surface.
pub const BASS_TINT_PERCENT: i64 = 12;

/// Share of the bass tint in the background.
pub open spec fn tint_of(bass: int) -> int {
    clamped(bass, 0, ONE as int) * BASS_TINT_PERCENT / 100
}

/// Never more than the stated share of the tint is mixed in, and it grows with
/// the bass.
pub proof fn law_tint_capped(a: int, b: int)
    requires
        a <= b,
    ensures
        0 <= tint_of(a) <= tint_of(b) <= BASS_TINT_PERCENT * ONE / 100,
{
}

/// Component `k` of a color given in hexadecimal, as linear light.
pub open spec fn hex_linear(hex: u32, k: int) -> int {
    linear(hex_byte(hex, k)) as int
}

/// The clear color: the dark surface, lifted slightly toward the bass tint.
pub fn background(bass: i64) -> (c: [i64; 3])
    ensures
        in_gamut(c@),
        forall|k: int|
            0 <= k < 3 ==> #[trigger] c[k] == crate::number::blend(
                hex_linear(SURFACE_HEX, k),
                hex_linear(SURFACE_BASS_HEX, k),
                tint_of(bass as int),
            ),
{
    let t: i64 = clamp(bass, 0, ONE) * BASS_TINT_PERCENT / 100;
    let a: [i64; 3] = srgb_hex(SURFACE_HEX);
    let b: [i64; 3] = srgb_hex(SURFACE_BASS_HEX);
    let c: [i64; 3] = mix(a, b, t);
    assert forall|k: int| 0 <= k < 3 implies #[trigger] c[k] == crate::number::blend(
        hex_linear(SURFACE_HEX, k),
        hex_linear(SURFACE_BASS_HEX, k),
        tint_of(bass as int),
    ) by {
        assert(a[k] == linear(hex_byte(SURFACE_HEX, k)));
        assert(b[k] == linear(hex_byte(SURFACE_BASS_HEX, k)));
        assert(c[k] == mixed(a, b, t as int, k));
    }
    c
}

/// An interval in nanoseconds as milliseconds, limited to what the HUD takes.
pub open spec fn ms_of(ns: int) -> int {
    if ns * 1000 > MS_MAX {
        MS_MAX as int
    } else {
        ns * 1000
    }
}

/// Milliseconds from one moment to another: zero when the first is not known or
/// is not before the second.
pub open spec fn gap_of(then: Option<u64>, now: u64) -> int {
    match then {
        None => 0,
        Some(t) => if now <= t {
            0
        } else {
            ms_of(now - t)
        },
    }
}

/// Milliseconds from one moment to another, as for the age of a spectrum or the
/// time between presents.
pub fn gap_ms(then: Option<u64>, now: u64) -> (ms: i64)
    ensures
        ms == gap_of(then, now),
        0 <= ms <= MS_MAX,
{
    match then {
        None => 0,
        Some(t) => if now <= t {
            0
        } else {
            let ns: u64 = now - t;
            if ns > 3_000_000_000_000_000 {
                MS_MAX
            } else {
                (ns * 1000) as i64
            }
        },
    }
}

/// A later moment is not closer.
pub proof fn law_gap_grows(then: u64, a: u64, b: u64)
    requires
        a <= b,
    ensures
        gap_of(Some(then), a) <= gap_of(Some(then), b),
        gap_of(Some(then), then) == 0,
{
}

/// Whether the periodic summary is due: an interval was asked for and has
/// passed since the last one.
pub fn dump_due(every: Option<u64>, last: u64, now: u64) -> (due: bool)
    ensures
        due == match every {
            None => false,
            Some(interval) => if now <= last {
                interval == 0
            } else {
                now - last >= interval
            },
        },
{
    match every {
        None => false,
        Some(interval) => if now <= last {
            interval == 0
        } else {
            now - last >= interval
        },
    }
}

/// Bass tints the background by up to twelve hundredths, in proportion.
pub proof fn law_tint(bass: int)
    ensures
        bass <= 0 ==> tint_of(bass) == 0,
        0 <= bass <= 1_000_000_000 ==> 0 <= 12 * bass - 100 * tint_of(bass) < 100,
        bass >= 1_000_000_000 ==> tint_of(bass) == 120_000_000,
{
}

/// A gap is the time from then to now in milliseconds, a millionth of the
/// nanoseconds it takes, in fixed point; what did not happen yet is no gap.
pub proof fn law_gap(then: u64, now: u64)
    ensures
        gap_of(None, now) == 0,
        now <= then ==> gap_of(Some(then), now) == 0,
        then <= now && now - then <= 3_000_000_000_000_000 ==> 1_000_000 * gap_of(Some(then), now)
            == 1_000_000_000 * (now - then),
        now - then > 3_000_000_000_000_000 ==> gap_of(Some(then), now)
            == 3_000_000_000_000_000_000,
{
}

/// The background is a mixture of the two surface colors, channel by channel: all of
/// the plain one in silence, and more of the other the more bass there is, up to
/// twelve hundredths. Returns the share of the other.
pub proof fn law_background(bass: i64, c: [i64; 3], k: int) -> (t: int)
    requires
        call_ensures(background, (bass,), c),
        0 <= k < 3,
    ensures
        ({
            let (plain, deep) = (
                linear(hex_byte(0x121212, k)),
                linear(hex_byte(0x311B92, k)),
            );
            &&& 0 <= t <= 120_000_000
            &&& 0 <= bass <= 1_000_000_000 ==> 0 <= 12 * bass - 100 * t < 100
            &&& bass >= 1_000_000_000 ==> t == 120_000_000
            &&& bass <= 0 ==> c[k] == plain
            &&& 0 <= plain * (1_000_000_000 - t) + deep * t - 1_000_000_000 * c[k] < 1_000_000_000
        }),
{
    let (plain, deep) = (linear(hex_byte(0x121212, k)), linear(hex_byte(0x311B92, k)));
    let t = tint_of(bass as int);
    law_blend(plain, deep, t);
    law_tint(bass as int);
    assert(c[k] == crate::number::blend(plain, deep, t));
    t
}

/// A dump is due once the interval has passed since the last one; without an interval
/// none ever is, and with an interval of nothing always.
pub proof fn law_dump_due(interval: u64, last: u64, now: u64, some: bool, none: bool)
    requires
        call_ensures(dump_due, (Some(interval), last, now), some),
        call_ensures(dump_due, (None, last, now), none),
    ensures
        !none,
        last <= now ==> (some <==> now >= last + interval),
        now < last && interval > 0 ==> !some,
        interval == 0 ==> some,
{
}

} // verus!
