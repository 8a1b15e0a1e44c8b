//! Minimal 16550 UART driver on COM1.

use crate::io::{out, PortWrite};
use vstd::prelude::*;

verus! {

pub const COM1: u16 = 0x3F8;

/// Port of the TX holding and RX buffer register.
pub const COM1_DATA: u16 = 0x3F8;

/// Port of the interrupt enable register.
pub const COM1_IER: u16 = 0x3F9;

/// Port of the FIFO control register.
pub const COM1_FCR: u16 = 0x3FA;

/// Port of the line control register.
pub const COM1_LCR: u16 = 0x3FB;

/// Port of the line status register.
pub const COM1_LSR: u16 = 0x3FD;

/// The serial port. `init` gives the port setup, to be done once.
#[derive(Clone, Copy, PartialEq, Eq, Debug, Structural)]
pub struct SerialPort;

/// What the status of the line says before a byte is sent or read.
pub open spec fn status_bit(lsr: u8, bit: u8) -> bool {
    lsr & bit != 0
}

/// `bytes` with a carriage return before each newline.
pub open spec fn with_returns(bytes: Seq<u8>) -> Seq<u8>
    decreases bytes.len(),
{
    if bytes.len() == 0 {
        Seq::empty()
    } else if bytes.last() == 10 {
        with_returns(bytes.drop_last()).push(13).push(10)
    } else {
        with_returns(bytes.drop_last()).push(bytes.last())
    }
}

impl SerialPort {
    /// The port; it is configured by [`SerialPort::init`].
    pub fn const_new() -> (r: SerialPort)
        ensures
            r == SerialPort,
    {
        SerialPort
    }

    /// The writes that configure the UART.
    pub fn init(&self) -> (r: [PortWrite; 6])
        ensures
            r@ == seq![
                out(COM1_IER, 0x00),
                out(COM1_LCR, 0x80),
                out(COM1_DATA, 0x01),
                out(COM1_IER, 0x00),
                out(COM1_LCR, 0x03),
                out(COM1_FCR, 0xC7),
            ],
            r@[0].port == 0x3F9 && r@[0].value == 0,
            r@[1].port == 0x3FB && r@[1].value / 0x80 == 1,
            r@[2].port == 0x3F8 && r@[3].port == 0x3F9,
            r@[2].value + r@[3].value * 256 == 1,
            r@[4].port == 0x3FB && r@[4].value / 0x80 == 0 && r@[4].value % 0x40 == 3,
            r@[5].port == 0x3FA && r@[5].value % 8 == 7,
    {
        [
            out(COM1_IER, 0x00),  // no interrupts
            out(COM1_LCR, 0x80),  // DLAB on
            out(COM1_DATA, 0x01),  // divisor low: 115200
            out(COM1_IER, 0x00),  // divisor high
            out(COM1_LCR, 0x03),  // 8N1, DLAB off
            out(COM1_FCR, 0xC7),  // FIFO enable, clear, 14-byte trigger
        ]
    }

    /// True if the transmit holding register has drained.
    pub fn tx_ready(&self, lsr: u8) -> (r: bool)
        ensures
            r == status_bit(lsr, 0x20),
            r <==> (lsr / 0x20) % 2 == 1,
    {
        proof {
            law_status_bits(lsr);
        }
        lsr & 0x20 != 0
    }

    /// True if a received byte can be read.
    pub fn rx_ready(&self, lsr: u8) -> (r: bool)
        ensures
            r == status_bit(lsr, 0x01),
            r <==> lsr % 2 == 1,
    {
        proof {
            law_status_bits(lsr);
        }
        lsr & 0x01 != 0
    }

    /// The write that sends one byte, once [`SerialPort::tx_ready`] holds.
    pub fn write_byte(&self, byte: u8) -> (r: PortWrite)
        ensures
            r == out(COM1_DATA, byte),
    {
        out(COM1_DATA, byte)
    }

    /// The received byte: `rbr` is what the RX buffer holds, read only where
    /// [`SerialPort::rx_ready`] holds.
    pub fn try_read(&self, lsr: u8, rbr: u8) -> (r: Option<u8>)
        ensures
            r == (if status_bit(lsr, 0x01) {
                Some(rbr)
            } else {
                None
            }),
            r is Some <==> lsr % 2 == 1,
    {
        proof {
            law_status_bits(lsr);
        }
        if lsr & 0x01 == 0 {
            None
        } else {
            Some(rbr)
        }
    }

    /// The bytes to send for a text: a carriage return goes before each
    /// newline.
    pub fn write_str(&self, s: &[u8]) -> (r: Vec<u8>)
        ensures
            r@ == with_returns(s@),
    {
        let mut out: Vec<u8> = Vec::new();
        let mut i: usize = 0;
        assert(s@.take(0) =~= Seq::empty());
        while i < s.len()
            invariant
                i <= s@.len(),
                out@ == with_returns(s@.take(i as int)),
            decreases s@.len() - i,
        {
            let b = s[i];
            assert(s@.take(i + 1).drop_last() =~= s@.take(i as int));
            assert(s@.take(i + 1).last() == b);
            if b == 10 {
                out.push(13);
            }
            out.push(b);
            i = i + 1;
        }
        assert(s@.take(s@.len() as int) =~= s@);
        out
    }
}

/// The byte that a fault report sends for `b`: newlines go out as carriage
/// returns.
pub open spec fn raw_byte(b: u8) -> u8 {
    if b == 10 {
        13
    } else {
        b
    }
}

/// The bytes to send for a panic or fault report, which bypasses the serial
/// lock: such a report may come while a normal print already holds the lock.
pub fn raw_write(bytes: &[u8]) -> (r: Vec<u8>)
    ensures
        r@ == bytes@.map_values(|b: u8| raw_byte(b)),
{
    let mut out: Vec<u8> = Vec::new();
    let mut i: usize = 0;
    while i < bytes.len()
        invariant
            i <= bytes@.len(),
            out@.len() == i,
            forall|j: int| 0 <= j < i ==> out@[j] == raw_byte(bytes@[j]),
        decreases bytes@.len() - i,
    {
        let b = bytes[i];
        out.push(
            if b == 10 {
                13
            } else {
                b
            },
        );
        i = i + 1;
    }
    assert(out@ =~= bytes@.map_values(|b: u8| raw_byte(b)));
    out
}

/// Bit `0x20` of the line status says that a byte can be sent, bit `0x01` that
/// one has come.
pub proof fn law_status_bits(lsr: u8)
    by (bit_vector)
    ensures
        status_bit(lsr, 0x20) <==> (lsr / 0x20) % 2 == 1,
        status_bit(lsr, 0x01) <==> lsr % 2 == 1,
{
}

/// A text goes out byte by byte, in order: what is sent for two texts in a row
/// is what is sent for each.
pub proof fn law_text_goes_out_in_order(a: Seq<u8>, b: Seq<u8>)
    ensures
        with_returns(a + b) == with_returns(a) + with_returns(b),
    decreases b.len(),
{
    if b.len() == 0 {
        assert(a + b =~= a);
        assert(with_returns(a) + with_returns(b) =~= with_returns(a));
    } else {
        law_text_goes_out_in_order(a, b.drop_last());
        assert((a + b).drop_last() =~= a + b.drop_last());
        assert((a + b).last() == b.last());
        assert(with_returns(a + b) =~= with_returns(a) + with_returns(b));
    }
}

/// A byte other than a newline goes out as it is, and a newline behind a
/// carriage return.
pub proof fn law_only_newlines_get_returns(b: u8)
    ensures
        b != 10 ==> with_returns(seq![b]) == seq![b],
        b == 10 ==> with_returns(seq![b]) == seq![13u8, 10u8],
{
    reveal_with_fuel(with_returns, 2);
    assert(seq![b].drop_last() =~= Seq::empty());
    assert(b != 10 ==> with_returns(seq![b]) =~= seq![b]);
    assert(b == 10 ==> with_returns(seq![b]) =~= seq![13u8, 10u8]);
}

/// In what goes out, every newline follows a carriage return.
pub proof fn law_newlines_follow_returns(bytes: Seq<u8>, i: int)
    requires
        0 <= i < with_returns(bytes).len(),
        with_returns(bytes)[i] == 10,
    ensures
        i > 0,
        with_returns(bytes)[i - 1] == 13,
    decreases bytes.len(),
{
    if bytes.len() > 0 {
        let rest = with_returns(bytes.drop_last());
        if i < rest.len() {
            law_newlines_follow_returns(bytes.drop_last(), i);
        }
    }
}

/// A fault report sends a byte for a byte: each as it is, but a carriage
/// return for a newline.
pub proof fn law_raw_bytes(b: u8)
    ensures
        raw_byte(b) != 10,
        raw_byte(b) == b || b == 10 && raw_byte(b) == 13,
{
}

} // verus!
