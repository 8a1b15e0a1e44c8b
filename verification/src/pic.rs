//! 8259 PIC: remap the interrupt vectors and gate individual IRQs.
//!
//! The BIOS leaves the PIC mapping IRQs onto CPU exception vectors 0x00..0x0F.
//! That must be fixed before interrupts can be enabled: [`remap`] moves the
//! master to 0x20..0x27 and the slave to 0x28..0x2F, then masks everything.
//! [`crate::idt::set_irq_handler`] / [`unmask`] selectively turn individual
//! IRQs on.

use crate::io::{out, PortWrite};
use vstd::prelude::*;

verus! {

pub const PIC1_CMD: u16 = 0x20;

pub const PIC1_DATA: u16 = 0x21;

pub const PIC2_CMD: u16 = 0xA0;

pub const PIC2_DATA: u16 = 0xA1;

/// ICW1: initialize, cascade mode, edge triggered, ICW4 required.
pub const ICW1: u8 = 0x11;

/// ICW4: 8086 mode (fully nested, not buffered, normal EOI).
pub const ICW4_8086: u8 = 0x01;

/// Standard end-of-interrupt command.
pub const OCW2_EOI: u8 = 0x20;

/// First vector of the remapped master PIC (IRQ0..IRQ7 -> 0x20..0x27).
pub const MASTER_BASE: u8 = 0x20;

/// First vector of the remapped slave PIC (IRQ8..IRQ15 -> 0x28..0x2F).
pub const SLAVE_BASE: u8 = 0x28;

/// Remap the PIC onto the CPU-exception-free vectors 0x20..0x2F.
///
/// Must run exactly once, before interrupts are enabled. Leaves every IRQ
/// masked; the caller unmasks what it wants. The vectors agree with the IRQ
/// gates that [`crate::idt::init`] installs.
pub fn remap() -> (r: Vec<PortWrite>)
    ensures
        r@ == seq![
            out(PIC1_CMD, ICW1),
            out(PIC2_CMD, ICW1),
            out(PIC1_DATA, MASTER_BASE),
            out(PIC2_DATA, SLAVE_BASE),
            out(PIC1_DATA, 0x04),
            out(PIC2_DATA, 0x02),
            out(PIC1_DATA, ICW4_8086),
            out(PIC2_DATA, ICW4_8086),
            out(PIC1_DATA, 0xFF),
            out(PIC2_DATA, 0xFF),
        ],
        r@[2] == (PortWrite { port: 0x21, value: 32 }),
        r@[3] == (PortWrite { port: 0xA1, value: 40 }),
        r@[4].value == 4 && r@[5].value == 2,
        r@[8] == (PortWrite { port: 0x21, value: 255 }),
        r@[9] == (PortWrite { port: 0xA1, value: 255 }),
{
    let mut r: Vec<PortWrite> = Vec::new();
    r.push(out(PIC1_CMD, ICW1));
    r.push(out(PIC2_CMD, ICW1));
    r.push(out(PIC1_DATA, MASTER_BASE));
    r.push(out(PIC2_DATA, SLAVE_BASE));
    r.push(out(PIC1_DATA, 0x04)); // slave cascade on master IRQ2
    r.push(out(PIC2_DATA, 0x02)); // cascade identity of the slave
    r.push(out(PIC1_DATA, ICW4_8086));
    r.push(out(PIC2_DATA, ICW4_8086));
    let all = mask_all();
    r.push(all[0]);
    r.push(all[1]);
    r
}

/// Mask every IRQ on both controllers.
pub fn mask_all() -> (r: [PortWrite; 2])
    ensures
        r@ == seq![out(PIC1_DATA, 0xFF), out(PIC2_DATA, 0xFF)],
{
    [out(PIC1_DATA, 0xFF), out(PIC2_DATA, 0xFF)]
}

/// The mask register that governs `irq`.
pub open spec fn mask_register(irq: u8) -> u16 {
    if irq < 8 {
        PIC1_DATA
    } else {
        PIC2_DATA
    }
}

/// The bit that governs `irq` in its mask register, as a mask.
pub open spec fn mask_bit(irq: u8) -> u8 {
    1u8 << (irq % 8)
}

/// Which mask register and bit govern `irq`.
pub fn pic_mask_port(irq: u8) -> (r: (u16, u8))
    requires
        irq < 16,
    ensures
        r.0 == mask_register(irq),
        r.1 == irq % 8,
{
    if irq < 8 {
        (PIC1_DATA, irq)
    } else {
        (PIC2_DATA, irq - 8)
    }
}

/// Enable delivery of `irq`; `cur` is what its mask register holds.
pub fn unmask(irq: u8, cur: u8) -> (r: PortWrite)
    requires
        irq < 16,
    ensures
        r == out(mask_register(irq), cur & !mask_bit(irq)),
        r.port == (if irq <= 7 {
            0x21u16
        } else {
            0xA1u16
        }),
        forall|k: u8|
            k < 8 ==> #[trigger] bit_of(r.value, k) == (k != irq % 8 && bit_of(cur, k)),
{
    proof {
        assert forall|k: u8| k < 8 implies #[trigger] bit_of(cur & !mask_bit(irq), k) == (k != irq
            % 8 && bit_of(cur, k)) by {
            law_mask_changes_one_bit(irq, cur, k);
        }
    }
    let (data, bit) = pic_mask_port(irq);
    out(data, cur & !(1u8 << bit))
}

/// Disable delivery of `irq`; `cur` is what its mask register holds.
pub fn mask(irq: u8, cur: u8) -> (r: PortWrite)
    requires
        irq < 16,
    ensures
        r == out(mask_register(irq), cur | mask_bit(irq)),
        r.port == (if irq <= 7 {
            0x21u16
        } else {
            0xA1u16
        }),
        forall|k: u8|
            k < 8 ==> #[trigger] bit_of(r.value, k) == (k == irq % 8 || bit_of(cur, k)),
{
    proof {
        assert forall|k: u8| k < 8 implies #[trigger] bit_of(cur | mask_bit(irq), k) == (k == irq
            % 8 || bit_of(cur, k)) by {
            law_mask_changes_one_bit(irq, cur, k);
        }
    }
    let (data, bit) = pic_mask_port(irq);
    out(data, cur | (1u8 << bit))
}

/// Acknowledge an interrupt from `irq` (EOI). Slave IRQs need EOI to both
/// controllers.
pub fn send_eoi(irq: u8) -> (r: Vec<PortWrite>)
    ensures
        r@ == (if irq >= 8 {
            seq![out(PIC2_CMD, OCW2_EOI), out(PIC1_CMD, OCW2_EOI)]
        } else {
            seq![out(PIC1_CMD, OCW2_EOI)]
        }),
        r@.last() == (PortWrite { port: 0x20, value: 0x20 }),
        r@.len() == (if irq < 8 {
            1int
        } else {
            2
        }),
        irq >= 8 ==> r@[0] == (PortWrite { port: 0xA0, value: 0x20 }),
{
    let mut r: Vec<PortWrite> = Vec::new();
    if irq >= 8 {
        r.push(out(PIC2_CMD, OCW2_EOI));
    }
    r.push(out(PIC1_CMD, OCW2_EOI));
    r
}

/// Bit `k` of a mask register.
pub open spec fn bit_of(value: u8, k: u8) -> bool {
    value & (1u8 << k) != 0
}

/// Unmasking and masking an IRQ change its own bit and no other: a clear bit
/// lets the IRQ through.
pub proof fn law_mask_changes_one_bit(irq: u8, cur: u8, k: u8)
    requires
        irq < 16,
        k < 8,
    ensures
        bit_of(cur & !mask_bit(irq), k) == (k != irq % 8 && bit_of(cur, k)),
        bit_of(cur | mask_bit(irq), k) == (k == irq % 8 || bit_of(cur, k)),
{
    let b = irq % 8;
    lemma_mask_bits(cur, b, k);
}

proof fn lemma_mask_bits(cur: u8, b: u8, k: u8)
    by (bit_vector)
    requires
        b < 8,
        k < 8,
    ensures
        ((cur & !(1u8 << b)) & (1u8 << k) != 0) == (k != b && cur & (1u8 << k) != 0),
        ((cur | (1u8 << b)) & (1u8 << k) != 0) == (k == b || cur & (1u8 << k) != 0),
{
}

/// IRQ0..IRQ7 are the master's, IRQ8..IRQ15 the slave's, and each IRQ has a bit
/// of its own.
pub proof fn law_each_irq_has_its_own_bit(irq: u8, other: u8)
    requires
        irq < 16,
        other < 16,
        irq != other,
    ensures
        mask_register(irq) == (if irq <= 7 {
            0x21u16
        } else {
            0xA1u16
        }),
        mask_register(irq) != mask_register(other) || mask_bit(irq) & mask_bit(other) == 0,
        mask_bit(irq) != 0,
{
    let a = irq % 8;
    let b = other % 8;
    lemma_mask_bits(0, a, b);
    lemma_mask_bits(0, a, a);
    lemma_own_bits(a, b);
}

proof fn lemma_own_bits(a: u8, b: u8)
    by (bit_vector)
    requires
        a < 8,
        b < 8,
    ensures
        1u8 << a != 0,
        a != b ==> (1u8 << a) & (1u8 << b) == 0,
{
}

/// The remapped vectors are behind the exceptions: the master has eight of
/// them from 0x20 on, the slave the eight that follow.
pub proof fn law_remapped_vectors()
    ensures
        MASTER_BASE == 0x20,
        SLAVE_BASE == MASTER_BASE + 8,
{
}

} // verus!
