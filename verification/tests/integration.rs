use falcon_protocol::buf::{ReadBuf, WriteBuf};
use falcon_protocol::error::WriteError;
use falcon_protocol::handshake::HandshakePacket;
use falcon_protocol::string::PacketString;
use falcon_protocol::traits::PacketSize;
use falcon_protocol::varint::VarI32;

#[test]
fn test_handshake_read() {
    let mut buffer = ReadBuf::from_slice(&[0x2f, 0, 0x63, 0xdd, 0x02]);
    let packet = HandshakePacket::read(&mut buffer).unwrap();
    assert_eq!(47, packet.protocol);
    assert_eq!("", packet.server_address.as_str());
    assert_eq!(25565, packet.port);
    assert_eq!(2, packet.next_state);
}

#[test]
fn test_handshake_write() {
    let mut buffer = WriteBuf::new();
    let packet = HandshakePacket::new(47, PacketString::from(String::from("")), 25565, 2);
    packet.write(&mut buffer).unwrap();
    assert_eq!(&[0x2f, 0, 0x63, 0xdd, 0x02], buffer.as_slice());
}

/// A structure written as its number (as a variable-length integer) and the
/// number plus five (as a plain `i32`).
struct StructExample {
    num: i32,
    plus_five: i32,
}

impl StructExample {
    fn new(num: i32) -> Self {
        StructExample { num, plus_five: num + 5 }
    }

    fn size(&self) -> usize {
        VarI32::from(self.num).size() + self.plus_five.size()
    }
}

#[test]
fn test_impl() {
    let example = StructExample::new(10);
    assert_eq!(5, example.size());
}

#[test]
fn handshake_address_too_long() {
    let address = "a".repeat(256);
    let packet = HandshakePacket::new(47, PacketString::from(address), 25565, 1);
    let mut buffer = WriteBuf::new();
    assert_eq!(Err(WriteError::StringTooLong(255, 256)), packet.write(&mut buffer));
}

#[test]
fn handshake_roundtrip() {
    let packet = HandshakePacket::new(763, PacketString::from_str("localhost"), 25565, 2);
    let mut buffer = WriteBuf::new();
    packet.write(&mut buffer).unwrap();
    let mut input = ReadBuf::new(buffer.into_vec());
    let back = HandshakePacket::read(&mut input).unwrap();
    assert_eq!(763, back.protocol);
    assert_eq!("localhost", back.server_address.as_str());
    assert_eq!(25565, back.port);
    assert_eq!(2, back.next_state);
    assert!(!input.has_remaining());
}
