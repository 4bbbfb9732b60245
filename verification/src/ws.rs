//! The opcode field of a frame header as RFC 6455 lists it.

use vstd::prelude::*;

verus! {

/// Frame opcodes; the two reserved variants stand for their whole ranges.
#[derive(Debug, PartialEq, Eq, Structural)]
pub enum Opcode {
    ContinuationFrame,
    TextFrame,
    BinaryFrame,
    /// 0x3 to 0x7 are reserved for further non-control frames.
    ReservedNonControlFrame,
    ConnectionClose,
    Ping,
    Pong,
    /// 0xB to 0xF are reserved for further control frames.
    ReservedControlFrame,
}

/// The opcode value of each variant; a reserved range by its first value.
pub open spec fn opcode_value(op: Opcode) -> u8 {
    match op {
        Opcode::ContinuationFrame => 0x0,
        Opcode::TextFrame => 0x1,
        Opcode::BinaryFrame => 0x2,
        Opcode::ReservedNonControlFrame => 0x3,
        Opcode::ConnectionClose => 0x8,
        Opcode::Ping => 0x9,
        Opcode::Pong => 0xA,
        Opcode::ReservedControlFrame => 0xB,
    }
}

impl Opcode {
    /// The opcode value of this variant; a reserved range by its first value.
    pub fn code(&self) -> (c: u8)
        ensures
            c == opcode_value(*self),
    {
        match self {
            Opcode::ContinuationFrame => 0x0,
            Opcode::TextFrame => 0x1,
            Opcode::BinaryFrame => 0x2,
            Opcode::ReservedNonControlFrame => 0x3,
            Opcode::ConnectionClose => 0x8,
            Opcode::Ping => 0x9,
            Opcode::Pong => 0xA,
            Opcode::ReservedControlFrame => 0xB,
        }
    }
}

} // verus!
