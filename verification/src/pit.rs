//! Intel 8254 PIT: drive IRQ0 as a periodic interrupt source.
//!
//! Channel 0 of the PIT is wired to PIC input 0 (IRQ0). [`set_frequency`]
//! programs it in mode 3 (square wave), which makes the interrupt line pulse
//! `hz` times per second.

use crate::io::{out, PortWrite};
use vstd::prelude::*;

verus! {

pub const PIT_CMD: u16 = 0x43;

pub const PIT_CH0: u16 = 0x40;

/// 1.19318 MHz reference clock, per the PIT datasheet.
pub const PIT_REFERENCE_HZ: u64 = 1_193_182;

/// The count divisor for `hz` interrupts per second.
pub open spec fn divisor(hz: u32) -> int {
    let d = PIT_REFERENCE_HZ as int / hz as int;
    if d < 2 {
        2
    } else if d > 65535 {
        65535
    } else {
        d
    }
}

/// Program channel 0 to fire `hz` times per second.
///
/// The count divisor is `reference / hz`, clamped to the PIT's 16-bit range;
/// the channel then counts down, so the effective rate is
/// `reference / divisor`.
pub fn set_frequency(hz: u32) -> (r: [PortWrite; 3])
    requires
        hz > 0,
    ensures
        r@ == seq![
            out(PIT_CMD, 0x36),
            out(PIT_CH0, (divisor(hz) % 256) as u8),
            out(PIT_CH0, (divisor(hz) / 256) as u8),
        ],
        r@[1].value + r@[2].value * 256 == divisor(hz),
        r@[0].port == 0x43 && r@[1].port == 0x40 && r@[2].port == 0x40,
        r@[0].value / 0x40 == 0,
        (r@[0].value / 0x10) % 4 == 3,
        (r@[0].value / 2) % 8 == 3,
        r@[0].value % 2 == 0,
{
    let d: u64 = PIT_REFERENCE_HZ / hz as u64;
    let count: u64 = if d < 2 {
        2
    } else if d > 65535 {
        65535
    } else {
        d
    };
    // Channel 0, read/load lobyte then hibyte, mode 3, binary count.
    [out(PIT_CMD, 0x36), out(PIT_CH0, (count % 256) as u8), out(PIT_CH0, (count / 256) as u8)]
}

/// The two count bytes give the divisor, and for a rate that the PIT can do
/// the divisor is the reference clock over the rate.
pub proof fn law_count_bytes_give_divisor(hz: u32)
    requires
        hz > 0,
    ensures
        divisor(hz) / 256 * 256 + divisor(hz) % 256 == divisor(hz),
        2 <= divisor(hz) <= 65535,
        19 <= hz <= 596591 ==> divisor(hz) == PIT_REFERENCE_HZ as int / hz as int,
{
    let q = PIT_REFERENCE_HZ as int / hz as int;
    vstd::arithmetic::div_mod::lemma_fundamental_div_mod(PIT_REFERENCE_HZ as int, hz as int);
    vstd::arithmetic::div_mod::lemma_mod_bound(PIT_REFERENCE_HZ as int, hz as int);
    if 19 <= hz <= 596591 {
        if q > 65535 {
            assert(hz * q >= 19 * 65536) by (nonlinear_arith)
                requires
                    hz >= 19,
                    q >= 65536,
            ;
        }
        if q < 2 {
            assert(hz * q <= 596591) by (nonlinear_arith)
                requires
                    0 < hz <= 596591,
                    q <= 1,
            ;
        }
    }
}

/// The divisor is the largest that still makes the PIT fire `hz` times per
/// second or more, where it can: of its 1193182 ticks per second, `hz` times
/// the divisor fit, and one more would not. A rate that is too low or too high
/// gives the slowest or the fastest that there is.
pub proof fn law_rate_is_met(hz: u32)
    requires
        hz > 0,
    ensures
        19 <= hz <= 596591 ==> divisor(hz) * hz <= 1_193_182 < (divisor(hz) + 1) * hz,
        hz <= 18 ==> divisor(hz) == 65535,
        hz >= 596592 ==> divisor(hz) == 2,
{
    law_count_bytes_give_divisor(hz);
    let q = PIT_REFERENCE_HZ as int / hz as int;
    vstd::arithmetic::div_mod::lemma_fundamental_div_mod(PIT_REFERENCE_HZ as int, hz as int);
    vstd::arithmetic::div_mod::lemma_mod_bound(PIT_REFERENCE_HZ as int, hz as int);
    assert(q * hz == hz * q && (q + 1) * hz == hz * q + hz) by (nonlinear_arith);
    if hz <= 18 && q <= 65535 {
        assert(hz * q <= 18 * 65535) by (nonlinear_arith)
            requires
                0 < hz <= 18,
                q <= 65535,
        ;
    }
    if hz >= 596592 && q >= 2 {
        assert(hz * q >= 2 * 596592) by (nonlinear_arith)
            requires
                hz >= 596592,
                q >= 2,
        ;
    }
}

/// A higher rate never makes the PIT slower.
pub proof fn law_divisor_falls_with_the_rate(slow: u32, fast: u32)
    requires
        0 < slow <= fast,
    ensures
        divisor(fast) <= divisor(slow),
{
    vstd::arithmetic::div_mod::lemma_div_is_ordered_by_denominator(
        PIT_REFERENCE_HZ as int,
        slow as int,
        fast as int,
    );
}

} // verus!
