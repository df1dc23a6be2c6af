//! Color helpers.
//!
//! Colors are linear-light RGB(A) with components in `0..=ONE`.

use crate::number::{blend, clamp, clamped, law_blend, lemma_blend_between, lerp, ONE};
use crate::srgb::{linear, srgb_channel};
use vstd::prelude::*;

verus! {

/// Components in `0..=ONE`.
pub open spec fn in_gamut(c: Seq<i64>) -> bool {
    forall|k: int| 0 <= k < c.len() ==> 0 <= #[trigger] c[k] <= ONE
}

/// Byte `k` of a `0xRRGGBB` literal, red first.
pub open spec fn hex_byte(hex: u32, k: int) -> u8 {
    if k == 0 {
        (hex as int / 65536 % 256) as u8
    } else if k == 1 {
        (hex as int / 256 % 256) as u8
    } else {
        (hex as int % 256) as u8
    }
}

/// Decode an sRGB hex literal (for instance `0x7C4DFF`) to linear light.
///
/// The surface is an sRGB format, so what the shader writes is treated as
/// linear light; palette values published as hex are sRGB-encoded and must be
/// decoded first.
pub fn srgb_hex(hex: u32) -> (rgb: [i64; 3])
    ensures
        forall|k: int| 0 <= k < 3 ==> #[trigger] rgb[k] == linear(hex_byte(hex, k)),
        in_gamut(rgb@),
{
    [
        srgb_channel((hex / 65536 % 256) as u8),
        srgb_channel((hex / 256 % 256) as u8),
        srgb_channel((hex % 256) as u8),
    ]
}

/// A color with an alpha component.
pub fn rgba<X: Copy>(rgb: [X; 3], alpha: X) -> (c: [X; 4])
    ensures
        c@ == rgb@.push(alpha),
{
    let c: [X; 4] = [rgb[0], rgb[1], rgb[2], alpha];
    assert(c@ =~= rgb@.push(alpha));
    c
}

/// Component `k` of the mix of `a` and `b` at `t`.
pub open spec fn mixed(a: [i64; 3], b: [i64; 3], t: int, k: int) -> int {
    blend(a[k] as int, b[k] as int, clamped(t, 0, ONE as int))
}

/// Linear interpolation between two linear-space colors, `t` limited to
/// `0..=ONE`.
pub fn mix(a: [i64; 3], b: [i64; 3], t: i64) -> (c: [i64; 3])
    requires
        in_gamut(a@),
        in_gamut(b@),
    ensures
        in_gamut(c@),
        forall|k: int| 0 <= k < 3 ==> #[trigger] c[k] == mixed(a, b, t as int, k),
{
    let t: i64 = clamp(t, 0, ONE);
    assert(in_gamut(a@) && in_gamut(b@));
    assert(0 <= a[0] <= ONE && 0 <= a[1] <= ONE && 0 <= a[2] <= ONE);
    assert(0 <= b[0] <= ONE && 0 <= b[1] <= ONE && 0 <= b[2] <= ONE);
    [lerp(a[0], b[0], t), lerp(a[1], b[1], t), lerp(a[2], b[2], t)]
}

/// Position of `t` along `n` keys: the key below it.
pub open spec fn key_below(n: int, t: int) -> int {
    let at = clamped(t, 0, ONE as int) * (n - 1) / (ONE as int);
    if at > n - 2 {
        n - 2
    } else {
        at
    }
}

/// How far past that key `t` lies.
pub open spec fn past_key(n: int, t: int) -> int {
    clamped(t, 0, ONE as int) * (n - 1) - key_below(n, t) * ONE
}

/// Sample a piecewise-linear ramp of key colors at `t`, black with no keys.
pub fn ramp(keys: &[[i64; 3]], t: i64) -> (c: [i64; 3])
    requires
        forall|i: int| 0 <= i < keys@.len() ==> in_gamut((#[trigger] keys@[i])@),
        keys@.len() <= 0x1_0000_0000,
    ensures
        keys@.len() == 0 ==> c@ == seq![0i64, 0i64, 0i64],
        keys@.len() == 1 ==> c == keys@[0],
        keys@.len() >= 2 ==> forall|k: int|
            0 <= k < 3 ==> #[trigger] c[k] == mixed(
                keys@[key_below(keys@.len() as int, t as int)],
                keys@[key_below(keys@.len() as int, t as int) + 1],
                past_key(keys@.len() as int, t as int),
                k,
            ),
        in_gamut(c@),
{
    let n: usize = keys.len();
    if n == 0 {
        let black: [i64; 3] = [0, 0, 0];
        assert(black@ =~= seq![0i64, 0i64, 0i64]);
        return black;
    }
    if n == 1 {
        assert(in_gamut(keys@[0]@));
        return keys[0];
    }
    let t: i64 = clamp(t, 0, ONE);
    assert(0 <= t * (n - 1) <= 1_000_000_000 * 0x1_0000_0000) by (nonlinear_arith)
        requires
            0 <= t <= 1_000_000_000,
            1 <= n <= 0x1_0000_0000,
    ;
    let at: i64 = t * (n - 1) as i64;
    let i: i64 = if at / ONE > n as i64 - 2 {
        n as i64 - 2
    } else {
        at / ONE
    };
    assert(i * ONE <= at);
    assert(in_gamut(keys@[i as int]@));
    assert(in_gamut(keys@[i + 1]@));
    mix(keys[i as usize], keys[i as usize + 1], at - i * ONE)
}

/// A mix lies between its two colors, component by component.
pub proof fn law_mix_between(a: [i64; 3], b: [i64; 3], t: int, k: int)
    requires
        0 <= k < 3,
    ensures
        a[k] <= b[k] ==> a[k] <= mixed(a, b, t, k) <= b[k],
        b[k] <= a[k] ==> b[k] <= mixed(a, b, t, k) <= a[k],
        t <= 0 ==> mixed(a, b, t, k) == a[k],
        t >= ONE ==> mixed(a, b, t, k) == b[k],
{
    lemma_blend_between(a[k] as int, b[k] as int, clamped(t, 0, ONE as int));
}

/// A color code holds red, green and blue from its third byte down to its first.
pub proof fn law_hex_bytes(hex: u32)
    ensures
        (hex as int) % 16_777_216 == 65_536 * hex_byte(hex, 0) + 256 * hex_byte(hex, 1) + hex_byte(
            hex,
            2,
        ),
{
}

/// A mixture shares its two colors out in proportion, channel by channel.
pub proof fn law_mix_shares(a: [i64; 3], b: [i64; 3], t: int, k: int)
    requires
        0 <= k < 3,
        0 <= t <= 1_000_000_000,
    ensures
        0 <= a[k] * (1_000_000_000 - t) + b[k] * t - 1_000_000_000 * mixed(a, b, t, k)
            < 1_000_000_000,
{
    law_blend(a[k] as int, b[k] as int, t);
}

/// The keys of a ramp stand evenly spaced over the scale: a position lies past key
/// `key_below` by the share `past_key` of the way to the next.
pub proof fn law_keys_evenly_spaced(n: int, t: int)
    requires
        n >= 2,
        0 <= t <= 1_000_000_000,
    ensures
        0 <= key_below(n, t) <= n - 2,
        0 <= past_key(n, t) <= 1_000_000_000,
        t * (n - 1) == 1_000_000_000 * key_below(n, t) + past_key(n, t),
        t < 1_000_000_000 ==> past_key(n, t) < 1_000_000_000,
{
    let p = t * (n - 1);
    assert(0 <= p <= 1_000_000_000 * (n - 1)) by (nonlinear_arith)
        requires
            p == t * (n - 1),
            0 <= t <= 1_000_000_000,
            n >= 2,
    ;
    if t < 1_000_000_000 {
        assert(p < 1_000_000_000 * (n - 1)) by (nonlinear_arith)
            requires
                p == t * (n - 1),
                0 <= t < 1_000_000_000,
                n >= 2,
        ;
    }
}

/// A ramp passes through its keys, evenly spaced, and mixes each with the next in
/// proportion between them. Returns the key below and the share of the next.
pub proof fn law_key_ramp(keys: &[[i64; 3]], t: i64, c: [i64; 3], k: int) -> (r: (int, int))
    requires
        2 <= keys@.len() <= 0x1_0000_0000,
        0 <= t <= 1_000_000_000,
        forall|i: int| 0 <= i < keys@.len() ==> in_gamut((#[trigger] keys@[i])@),
        call_ensures(ramp, (keys, t), c),
        0 <= k < 3,
    ensures
        ({
            let (i, past) = r;
            &&& 0 <= i < keys@.len() - 1
            &&& 0 <= past <= 1_000_000_000
            &&& t * (keys@.len() - 1) == 1_000_000_000 * i + past
            &&& 0 <= keys@[i][k] * (1_000_000_000 - past) + keys@[i + 1][k] * past - 1_000_000_000
                * c[k] < 1_000_000_000
        }),
{
    let n = keys@.len() as int;
    law_keys_evenly_spaced(n, t as int);
    let (i, past) = (key_below(n, t as int), past_key(n, t as int));
    law_mix_shares(keys@[i], keys@[i + 1], past, k);
    assert(c[k] == mixed(keys@[i], keys@[i + 1], past, k));
    (i, past)
}

/// A ramp of one key is that key, and one of none is black.
pub proof fn law_short_ramp(keys: &[[i64; 3]], t: i64, c: [i64; 3])
    requires
        keys@.len() <= 1,
        forall|i: int| 0 <= i < keys@.len() ==> in_gamut((#[trigger] keys@[i])@),
        call_ensures(ramp, (keys, t), c),
    ensures
        keys@.len() == 1 ==> c == keys@[0],
        keys@.len() == 0 ==> c@ == seq![0i64, 0i64, 0i64],
{
}

/// An opaque color keeps its three channels in their order and takes its alpha last;
/// a code is decoded to light byte by byte.
pub proof fn law_channels_keep_order(
    hex: u32,
    rgb: [i64; 3],
    alpha: i64,
    c: [i64; 4],
    light: [i64; 3],
)
    requires
        call_ensures(rgba::<i64>, (rgb, alpha), c),
        call_ensures(srgb_hex, (hex,), light),
    ensures
        c[0] == rgb[0] && c[1] == rgb[1] && c[2] == rgb[2] && c[3] == alpha,
        light[0] == linear((hex as int / 65_536 % 256) as u8),
        light[1] == linear((hex as int / 256 % 256) as u8),
        light[2] == linear((hex as int % 256) as u8),
{
    assert(light[0] == linear(hex_byte(hex, 0)));
    assert(light[1] == linear(hex_byte(hex, 1)));
    assert(light[2] == linear(hex_byte(hex, 2)));
    assert(c@[0] == rgb@[0] && c@[1] == rgb@[1] && c@[2] == rgb@[2] && c@[3] == alpha);
}

} // verus!
