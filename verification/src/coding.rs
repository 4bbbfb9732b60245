//! WebSocket opcodes (RFC 6455, section 5.2) and their byte coding.

use vstd::prelude::*;

use crate::text::{decimal, push_decimal};

verus! {

/// WebSocket message opcode as in RFC 6455.
#[derive(Debug, PartialEq, Eq, Clone, Copy, Structural)]
pub enum OpCode {
    /// Data (text or binary).
    Data(Data),
    /// Control message (close, ping, pong).
    Control(Control),
}

/// Data opcodes as in RFC 6455
#[derive(Debug, PartialEq, Eq, Clone, Copy, Structural)]
pub enum Data {
    /// 0x0 denotes a continuation frame
    Continue,
    /// 0x1 denotes a text frame
    Text,
    /// 0x2 denotes a binary frame
    Binary,
    /// 0x3-7 are reserved for further non-control frames
    Reserved(u8),
}

/// Control opcodes as in RFC 6455
#[derive(Debug, PartialEq, Eq, Clone, Copy, Structural)]
pub enum Control {
    /// 0x8 denotes a connection close
    Close,
    /// 0x9 denotes a ping
    Ping,
    /// 0xa denotes a pong
    Pong,
    /// 0xb-f are reserved for further control frames
    Reserved(u8),
}

/// The opcode that a 4-bit opcode field `byte` denotes.
pub open spec fn opcode_of_byte(byte: u8) -> OpCode {
    if byte == 0 {
        OpCode::Data(Data::Continue)
    } else if byte == 1 {
        OpCode::Data(Data::Text)
    } else if byte == 2 {
        OpCode::Data(Data::Binary)
    } else if byte < 8 {
        OpCode::Data(Data::Reserved(byte))
    } else if byte == 8 {
        OpCode::Control(Control::Close)
    } else if byte == 9 {
        OpCode::Control(Control::Ping)
    } else if byte == 10 {
        OpCode::Control(Control::Pong)
    } else {
        OpCode::Control(Control::Reserved(byte))
    }
}

/// The byte that codes `code`; a reserved opcode codes as the byte it carries.
pub open spec fn byte_of_opcode(code: OpCode) -> u8 {
    match code {
        OpCode::Data(Data::Continue) => 0,
        OpCode::Data(Data::Text) => 1,
        OpCode::Data(Data::Binary) => 2,
        OpCode::Data(Data::Reserved(i)) => i,
        OpCode::Control(Control::Close) => 8,
        OpCode::Control(Control::Ping) => 9,
        OpCode::Control(Control::Pong) => 10,
        OpCode::Control(Control::Reserved(i)) => i,
    }
}

/// An opcode whose reserved byte, if any, lies in the range that its kind
/// reserves: 3 to 7 for data, 11 to 15 for control.
pub open spec fn opcode_well_formed(code: OpCode) -> bool {
    match code {
        OpCode::Data(Data::Reserved(i)) => 3 <= i <= 7,
        OpCode::Control(Control::Reserved(i)) => 11 <= i <= 15,
        _ => true,
    }
}

/// The display text of a data opcode.
pub open spec fn data_text(d: Data) -> Seq<char> {
    match d {
        Data::Continue => "CONTINUE"@,
        Data::Text => "TEXT"@,
        Data::Binary => "BINARY"@,
        Data::Reserved(x) => "RESERVED_DATA_"@ + decimal(x as nat),
    }
}

/// The display text of a control opcode.
pub open spec fn control_text(c: Control) -> Seq<char> {
    match c {
        Control::Close => "CLOSE"@,
        Control::Ping => "PING"@,
        Control::Pong => "PONG"@,
        Control::Reserved(x) => "RESERVED_CONTROL_"@ + decimal(x as nat),
    }
}

/// The display text of an opcode: that of the data or control opcode it holds.
pub open spec fn opcode_text(code: OpCode) -> Seq<char> {
    match code {
        OpCode::Data(d) => data_text(d),
        OpCode::Control(c) => control_text(c),
    }
}

impl Data {
    /// The display text of this opcode, such as `TEXT` or `RESERVED_DATA_3`.
    pub fn to_string(&self) -> (s: String)
        ensures
            s@ == data_text(*self),
    {
        match *self {
            Data::Continue => "CONTINUE".to_owned(),
            Data::Text => "TEXT".to_owned(),
            Data::Binary => "BINARY".to_owned(),
            Data::Reserved(x) => {
                let mut s = "RESERVED_DATA_".to_owned();
                push_decimal(&mut s, x);
                s
            },
        }
    }
}

impl Control {
    /// The display text of this opcode, such as `PING` or `RESERVED_CONTROL_11`.
    pub fn to_string(&self) -> (s: String)
        ensures
            s@ == control_text(*self),
    {
        match *self {
            Control::Close => "CLOSE".to_owned(),
            Control::Ping => "PING".to_owned(),
            Control::Pong => "PONG".to_owned(),
            Control::Reserved(x) => {
                let mut s = "RESERVED_CONTROL_".to_owned();
                push_decimal(&mut s, x);
                s
            },
        }
    }
}

impl OpCode {
    /// The display text of this opcode: that of the data or control opcode it holds.
    pub fn to_string(&self) -> (s: String)
        ensures
            s@ == opcode_text(*self),
    {
        match *self {
            OpCode::Data(d) => d.to_string(),
            OpCode::Control(c) => c.to_string(),
        }
    }

    /// The opcode that the 4-bit opcode field `byte` denotes. Bytes 0 to 7
    /// are data opcodes, 8 to 15 control opcodes; a byte outside 0 to 15 is
    /// no opcode.
    pub fn from(byte: u8) -> (code: OpCode)
        requires
            byte < 16,
        ensures
            code == opcode_of_byte(byte),
            code is Data <==> byte < 8,
            opcode_well_formed(code),
    {
        match byte {
            0 => OpCode::Data(Data::Continue),
            1 => OpCode::Data(Data::Text),
            2 => OpCode::Data(Data::Binary),
            3..=7 => OpCode::Data(Data::Reserved(byte)),
            8 => OpCode::Control(Control::Close),
            9 => OpCode::Control(Control::Ping),
            10 => OpCode::Control(Control::Pong),
            _ => OpCode::Control(Control::Reserved(byte)),
        }
    }
}

impl From<OpCode> for u8 {
    fn from(code: OpCode) -> (byte: u8) {
        match code {
            OpCode::Data(Data::Continue) => 0,
            OpCode::Data(Data::Text) => 1,
            OpCode::Data(Data::Binary) => 2,
            OpCode::Data(Data::Reserved(i)) => i,
            OpCode::Control(Control::Close) => 8,
            OpCode::Control(Control::Ping) => 9,
            OpCode::Control(Control::Pong) => 10,
            OpCode::Control(Control::Reserved(i)) => i,
        }
    }
}

impl vstd::std_specs::convert::FromSpecImpl<OpCode> for u8 {
    open spec fn obeys_from_spec() -> bool {
        true
    }

    open spec fn from_spec(code: OpCode) -> u8 {
        byte_of_opcode(code)
    }
}

/// Coding a byte of the opcode range as an opcode and back gives the byte.
pub proof fn lemma_byte_roundtrip(byte: u8)
    requires
        byte < 16,
    ensures
        byte_of_opcode(opcode_of_byte(byte)) == byte,
{
}

/// A well-formed opcode coded as a byte and read back is the same opcode;
/// its byte lies in the opcode range.
pub proof fn lemma_opcode_roundtrip(code: OpCode)
    requires
        opcode_well_formed(code),
    ensures
        byte_of_opcode(code) < 16,
        opcode_of_byte(byte_of_opcode(code)) == code,
{
}

} // verus!
