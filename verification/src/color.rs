//! The deterministic value-to-color mapping a renderer reads.
//!
//! An empty cell gets a fixed muted blue. A tile gets a hue that grows
//! with its binary magnitude (about 12.477 degrees per doubling, the
//! natural logarithm scaled by 18), at fixed saturation 0.9 and
//! brightness 0.6, pushed through the standard HSV-to-RGB transform with
//! the channel selector clamped into the unit interval. All arithmetic is
//! integer, in thousandths, so the mapping is a pure function of the tile
//! value: the same value gives the same triple on every call.

use vstd::arithmetic::power2::lemma2_to64;
use vstd::arithmetic::power2::pow2;
use vstd::prelude::*;

verus! {

/// Millidegrees of hue gained per doubling of the tile value: the natural
/// logarithm of two, times 180 over 10, in thousandths.
pub const HUE_STEP_MILLI: u32 = 12477;

/// The fixed color of an empty cell: a muted blue.
pub const EMPTY_RED: u8 = 26;

/// The fixed color of an empty cell: a muted blue.
pub const EMPTY_GREEN: u8 = 77;

/// The fixed color of an empty cell: a muted blue.
pub const EMPTY_BLUE: u8 = 151;

/// The floor of the base-two logarithm.
pub open spec fn floor_log2(n: u32) -> nat
    decreases n,
{
    if n <= 1 {
        0
    } else {
        1 + floor_log2(n / 2)
    }
}

/// The hue of a tile value, in millidegrees.
pub open spec fn hue_milli_spec(n: u32) -> nat {
    floor_log2(n) * HUE_STEP_MILLI as nat
}

/// The clamped channel selector of the HSV transform, in thousandths:
/// the distance into the hue sector, folded at four and cut to the unit
/// interval.
pub open spec fn selector_milli(c: int, hue_m: int) -> int {
    let km = (c * 1000 + hue_m / 60) % 6000;
    let folded = if km <= 4000 - km {
        km
    } else {
        4000 - km
    };
    if folded < 0 {
        0
    } else if folded > 1000 {
        1000
    } else {
        folded
    }
}

/// One output channel of the HSV transform at saturation 0.9 and
/// brightness 0.6, scaled to a byte: `(0.6 - 0.54 * selector) * 256`, in
/// thousandths of thousandths.
pub open spec fn channel_spec(c: int, hue_m: int) -> u8 {
    (((600000 - 540 * selector_milli(c, hue_m)) * 256) / 1000000) as u8
}

/// The color of a cell value: the fixed muted blue for an empty cell, the
/// hue-by-magnitude HSV color for a tile.
pub open spec fn color_spec(n: u32) -> (u8, u8, u8) {
    if n == 0 {
        (EMPTY_RED, EMPTY_GREEN, EMPTY_BLUE)
    } else {
        let hm = hue_milli_spec(n) as int;
        (channel_spec(5, hm), channel_spec(3, hm), channel_spec(1, hm))
    }
}

/// Below a power of two, the floored base-two logarithm stays below its
/// exponent.
proof fn lemma_floor_log2_lt(n: u32, b: nat)
    requires
        1 <= n,
        (n as nat) < pow2(b),
    ensures
        floor_log2(n) < b,
    decreases n,
{
    lemma2_to64();
    if n <= 1 {
        if b == 0 {
            assert(pow2(0) == 1);
        }
    } else {
        assert(b >= 1) by {
            if b == 0 {
                assert(pow2(0) == 1);
            }
        }
        let half = pow2((b - 1) as nat);
        assert(pow2(b) == 2 * half) by {
            vstd::arithmetic::power2::lemma_pow2_adds(1, (b - 1) as nat);
            assert(pow2(1) == 2);
        }
        assert(((n / 2) as nat) < half) by (nonlinear_arith)
            requires
                (n as nat) < 2 * half,
        ;
        lemma_floor_log2_lt(n / 2, (b - 1) as nat);
    }
}

/// The floored base-two logarithm of a tile value.
fn log2_floor(n: u32) -> (k: u32)
    requires
        1 <= n,
    ensures
        k as nat == floor_log2(n),
        k <= 31,
    decreases n,
{
    proof {
        lemma2_to64();
        lemma_floor_log2_lt(n, 32);
    }
    if n <= 1 {
        0
    } else {
        1 + log2_floor(n / 2)
    }
}

/// The HSV-to-RGB transform at fixed saturation and brightness, taking
/// the hue in millidegrees and handing back the byte triple.
pub fn hsv_to_rgb(hue_m: u32) -> (rgb: (u8, u8, u8))
    ensures
        rgb == (channel_spec(5, hue_m as int), channel_spec(3, hue_m as int), channel_spec(
            1,
            hue_m as int,
        )),
{
    (channel(5, hue_m), channel(3, hue_m), channel(1, hue_m))
}

/// One output channel of the HSV transform.
fn channel(c: u32, hue_m: u32) -> (b: u8)
    requires
        c <= 5,
    ensures
        b == channel_spec(c as int, hue_m as int),
{
    let km = (c * 1000 + hue_m / 60) % 6000;
    let sel: u32 = if km >= 4000 {
        0
    } else if km >= 3000 {
        4000 - km
    } else if km >= 1000 {
        1000
    } else {
        km
    };
    assert(sel == selector_milli(c as int, hue_m as int));
    let val = (600000 - 540 * sel) * 256 / 1000000;
    assert(val < 256);
    val as u8
}

/// The color of a cell value: empty cells get the fixed muted blue; a
/// tile's hue grows with its binary magnitude.
pub fn get_color(n: u32) -> (rgb: (u8, u8, u8))
    ensures
        rgb == color_spec(n),
{
    if n == 0 {
        (EMPTY_RED, EMPTY_GREEN, EMPTY_BLUE)
    } else {
        let k = log2_floor(n);
        hsv_to_rgb(k * HUE_STEP_MILLI)
    }
}

} // verus!
