//! x86 port-mapped I/O: what is written where.
//!
//! The instructions themselves are up to the caller; the drivers say which
//! bytes go to which ports, in order.

use vstd::prelude::*;

verus! {

/// One byte to write to a device port.
#[derive(Clone, Copy, PartialEq, Eq, Debug, Structural)]
pub struct PortWrite {
    pub port: u16,
    pub value: u8,
}

/// The write of `value` to `port`.
pub open spec fn out_spec(port: u16, value: u8) -> PortWrite {
    PortWrite { port, value }
}

/// The write of `value` to `port`.
#[verifier::when_used_as_spec(out_spec)]
pub fn out(port: u16, value: u8) -> (r: PortWrite)
    ensures
        r == out(port, value),
{
    PortWrite { port, value }
}

} // verus!
