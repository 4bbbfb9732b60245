use mio_ws::{Control, Data, OpCode, Opcode};
use tungstenite::protocol::frame::coding::OpCode as TOpCode;

#[test]
fn opcode_from_byte_covers_the_range() {
    assert_eq!(OpCode::from(0), OpCode::Data(Data::Continue));
    assert_eq!(OpCode::from(1), OpCode::Data(Data::Text));
    assert_eq!(OpCode::from(2), OpCode::Data(Data::Binary));
    for b in 3u8..=7 {
        assert_eq!(OpCode::from(b), OpCode::Data(Data::Reserved(b)));
    }
    assert_eq!(OpCode::from(8), OpCode::Control(Control::Close));
    assert_eq!(OpCode::from(9), OpCode::Control(Control::Ping));
    assert_eq!(OpCode::from(10), OpCode::Control(Control::Pong));
    for b in 11u8..=15 {
        assert_eq!(OpCode::from(b), OpCode::Control(Control::Reserved(b)));
    }
}

#[test]
fn opcode_byte_roundtrip() {
    for b in 0u8..16 {
        assert_eq!(u8::from(OpCode::from(b)), b);
    }
}

#[test]
fn opcode_to_byte() {
    assert_eq!(u8::from(OpCode::Data(Data::Continue)), 0);
    assert_eq!(u8::from(OpCode::Data(Data::Text)), 1);
    assert_eq!(u8::from(OpCode::Data(Data::Binary)), 2);
    assert_eq!(u8::from(OpCode::Data(Data::Reserved(5))), 5);
    assert_eq!(u8::from(OpCode::Control(Control::Close)), 8);
    assert_eq!(u8::from(OpCode::Control(Control::Ping)), 9);
    assert_eq!(u8::from(OpCode::Control(Control::Pong)), 10);
    assert_eq!(u8::from(OpCode::Control(Control::Reserved(13))), 13);
    // A reserved byte outside its kind's range still codes as itself.
    assert_eq!(u8::from(OpCode::Data(Data::Reserved(9))), 9);
    assert_eq!(OpCode::from(9), OpCode::Control(Control::Ping));
}

#[test]
fn opcode_agrees_with_tungstenite() {
    for b in 0u8..16 {
        let ours = OpCode::from(b);
        let theirs = TOpCode::from(b);
        assert_eq!(u8::from(theirs), u8::from(ours));
        assert_eq!(format!("{}", theirs), ours.to_string());
    }
}

#[test]
fn opcode_display_texts() {
    assert_eq!(Data::Continue.to_string(), "CONTINUE");
    assert_eq!(Data::Text.to_string(), "TEXT");
    assert_eq!(Data::Binary.to_string(), "BINARY");
    assert_eq!(Data::Reserved(3).to_string(), "RESERVED_DATA_3");
    assert_eq!(Control::Close.to_string(), "CLOSE");
    assert_eq!(Control::Ping.to_string(), "PING");
    assert_eq!(Control::Pong.to_string(), "PONG");
    assert_eq!(Control::Reserved(11).to_string(), "RESERVED_CONTROL_11");
    assert_eq!(OpCode::Data(Data::Text).to_string(), "TEXT");
    assert_eq!(OpCode::Control(Control::Reserved(15)).to_string(), "RESERVED_CONTROL_15");
    assert_eq!(Data::Reserved(0).to_string(), "RESERVED_DATA_0");
    assert_eq!(Data::Reserved(255).to_string(), "RESERVED_DATA_255");
    assert_eq!(Control::Reserved(100).to_string(), "RESERVED_CONTROL_100");
    for x in 0u8..=255 {
        assert_eq!(Data::Reserved(x).to_string(), format!("RESERVED_DATA_{x}"));
    }
}

#[test]
fn ws_opcode_values() {
    assert_eq!(Opcode::ContinuationFrame.code(), 0x0);
    assert_eq!(Opcode::TextFrame.code(), 0x1);
    assert_eq!(Opcode::BinaryFrame.code(), 0x2);
    assert_eq!(Opcode::ReservedNonControlFrame.code(), 0x3);
    assert_eq!(Opcode::ConnectionClose.code(), 0x8);
    assert_eq!(Opcode::Ping.code(), 0x9);
    assert_eq!(Opcode::Pong.code(), 0xA);
    assert_eq!(Opcode::ReservedControlFrame.code(), 0xB);
    assert_eq!(Opcode::Ping, Opcode::Ping);
    assert_ne!(Opcode::Ping, Opcode::Pong);
}
