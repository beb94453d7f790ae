//! The handshake packet, which opens every connection.

use vstd::prelude::*;

use crate::buf::{ReadBuf, WriteBuf};
use crate::error::{ReadError, WriteError};
use crate::string::{parse_string, PacketString};
use vstd::utf8::decode_utf8;
use crate::traits::{
    is_suffix, lemma_write_fail_first, lemma_write_then, write_outcome, PacketRead, PacketReadSeed,
    PacketSize, PacketWrite, PacketWriteSeed,
};
use crate::util::str_wire;
use crate::varint::VarI32;

verus! {

/// The longest server address, in characters.
pub const SERVER_ADDRESS_MAX: usize = 255;

/// The first packet a client sends: its protocol version, the address and
/// port it connected to, and the state it asks for next.
#[derive(Debug, Clone)]
pub struct HandshakePacket {
    pub protocol: i32,
    pub server_address: PacketString,
    pub port: u16,
    pub next_state: i32,
}

/// How a handshake is read from the front of `input`: the protocol version,
/// the position and length of the address bytes, the port, the next state
/// and the number of bytes read; or the first error a field gives.
pub open spec fn parse_handshake(input: Seq<u8>) -> Result<(i32, nat, nat, u16, i32, nat), ReadError> {
    match <VarI32 as PacketRead>::parse(input) {
        Err(e) => Err(e),
        Ok((protocol, n1)) => match parse_string(SERVER_ADDRESS_MAX as nat, input.skip(n1 as int)) {
            Err(e) => Err(e),
            Ok((k, len)) => {
                let n2 = n1 + k + len;
                match <u16 as PacketRead>::parse(input.skip(n2 as int)) {
                    Err(e) => Err(e),
                    Ok((port, n3)) => match <VarI32 as PacketRead>::parse(
                        input.skip((n2 + n3) as int),
                    ) {
                        Err(e) => Err(e),
                        Ok((next, n4)) => Ok(
                            (protocol.val, n1 + k, len, port, next.val, n2 + n3 + n4),
                        ),
                    },
                }
            },
        },
    }
}

/// The bytes a handshake is written as, when its address is short enough.
pub open spec fn handshake_wire(p: HandshakePacket) -> Seq<u8> {
    VarI32 { val: p.protocol }.wire() + str_wire(p.server_address@) + p.port.wire() + VarI32 {
        val: p.next_state,
    }.wire()
}

impl HandshakePacket {
    /// A handshake with the given fields.
    pub fn new(protocol: i32, server_address: PacketString, port: u16, next_state: i32) -> (r: Self)
        ensures
            r.protocol == protocol,
            r.server_address == server_address,
            r.port == port,
            r.next_state == next_state,
    {
        HandshakePacket { protocol, server_address, port, next_state }
    }

    /// Reads a handshake from the front of `buffer`.
    pub fn read(buffer: &mut ReadBuf) -> (r: Result<HandshakePacket, ReadError>)
        ensures
            match parse_handshake(old(buffer)@) {
                Ok((protocol, start, len, port, next_state, n)) => r matches Ok(p) && p.protocol
                    == protocol && p.server_address@ == old(buffer)@.subrange(
                    start as int,
                    (start + len) as int,
                ) && p.server_address.wf() && p.port == port && p.next_state == next_state && n
                    <= old(buffer)@.len() && final(buffer)@ == old(buffer)@.skip(n as int),
                Err(e) => r == Err::<HandshakePacket, ReadError>(e) && is_suffix(
                    final(buffer)@,
                    old(buffer)@,
                ),
            },
    {
        let ghost input = buffer@;
        let protocol = VarI32::read(buffer)?;
        let ghost after1 = buffer@;
        let server_address = PacketReadSeed::<PacketString>::read(SERVER_ADDRESS_MAX, buffer);
        let server_address = match server_address {
            Ok(s) => s,
            Err(e) => {
                proof {
                    assert(is_suffix(buffer@, input));
                }
                return Err(e);
            },
        };
        let ghost after2 = buffer@;
        proof {
            let n1 = input.len() - after1.len();
            assert(after1 == input.skip(n1));
            assert(input.skip(n1) =~= after1);
            if let Ok((k, len)) = parse_string(SERVER_ADDRESS_MAX as nat, after1) {
                assert(after2 =~= input.skip(n1 + k + len));
                assert(after1.subrange(k as int, (k + len) as int) =~= input.subrange(
                    n1 + k,
                    n1 + k + len,
                ));
            }
        }
        let port = match u16::read(buffer) {
            Ok(p) => p,
            Err(e) => {
                proof {
                    assert(is_suffix(buffer@, input));
                }
                return Err(e);
            },
        };
        let ghost after3 = buffer@;
        proof {
            assert(after3 =~= input.skip(input.len() - after3.len()));
        }
        let next_state = match VarI32::read(buffer) {
            Ok(v) => v,
            Err(e) => {
                proof {
                    assert(is_suffix(buffer@, input));
                }
                return Err(e);
            },
        };
        proof {
            assert(buffer@ =~= input.skip(input.len() - buffer@.len()));
        }
        Ok(HandshakePacket { protocol: protocol.val, server_address, port, next_state: next_state.val })
    }

    /// Writes the handshake to `buffer`. An address longer than
    /// [`SERVER_ADDRESS_MAX`] characters gives
    /// [`StringTooLong`](WriteError::StringTooLong) once the protocol version
    /// was written.
    pub fn write(&self, buffer: &mut WriteBuf) -> (r: Result<(), WriteError>)
        requires
            self.server_address.wf(),
        ensures
            self.server_address.chars().len() > SERVER_ADDRESS_MAX ==> r is Err,
            self.server_address.chars().len() > SERVER_ADDRESS_MAX && r != Err::<(), WriteError>(
                WriteError::EndOfBuffer,
            ) ==> r == Err::<(), WriteError>(
                WriteError::StringTooLong(
                    SERVER_ADDRESS_MAX,
                    self.server_address.chars().len() as usize,
                ),
            ),
            self.server_address.chars().len() <= SERVER_ADDRESS_MAX ==> write_outcome(
                *old(buffer),
                *final(buffer),
                handshake_wire(*self),
                r,
            ),
    {
        let ghost w1 = VarI32 { val: self.protocol }.wire();
        let ghost w2 = str_wire(self.server_address@);
        let ghost w3 = self.port.wire();
        let ghost w4 = VarI32 { val: self.next_state }.wire();
        let ghost b0 = *buffer;
        let r1 = VarI32::from(self.protocol).write(buffer);
        if r1.is_err() {
            proof {
                lemma_write_fail_first(b0, *buffer, w1, w2 + w3 + w4, r1);
                assert(w1 + (w2 + w3 + w4) =~= handshake_wire(*self));
            }
            return r1;
        }
        let ghost b1 = *buffer;
        let r2 = PacketWriteSeed::<PacketString>::write(SERVER_ADDRESS_MAX, &self.server_address, buffer);
        if r2.is_err() {
            proof {
                if self.server_address.chars().len() <= SERVER_ADDRESS_MAX {
                    lemma_write_fail_first(b1, *buffer, w2, w3 + w4, r2);
                    lemma_write_then(b0, b1, *buffer, w1, w2 + (w3 + w4), r2);
                    assert(w1 + (w2 + (w3 + w4)) =~= handshake_wire(*self));
                }
            }
            return r2;
        }
        let ghost b2 = *buffer;
        proof {
            lemma_write_then(b0, b1, b2, w1, w2, Ok(()));
        }
        let r3 = self.port.write(buffer);
        if r3.is_err() {
            proof {
                lemma_write_fail_first(b2, *buffer, w3, w4, r3);
                lemma_write_then(b0, b2, *buffer, w1 + w2, w3 + w4, r3);
                assert(w1 + w2 + (w3 + w4) =~= handshake_wire(*self));
            }
            return r3;
        }
        let ghost b3 = *buffer;
        proof {
            lemma_write_then(b0, b2, b3, w1 + w2, w3, Ok(()));
        }
        let r4 = VarI32::from(self.next_state).write(buffer);
        proof {
            lemma_write_then(b0, b3, *buffer, w1 + w2 + w3, w4, r4);
        }
        r4
    }
}

/// Reading back what a handshake is written as gives the same handshake,
/// whatever follows it: the same protocol version, address bytes, port and
/// next state, and the read takes up exactly the written bytes.
pub proof fn law_handshake_roundtrip(p: HandshakePacket, rest: Seq<u8>)
    requires
        p.server_address.wf(),
        p.server_address.chars().len() <= SERVER_ADDRESS_MAX,
    ensures
        parse_handshake(handshake_wire(p) + rest) matches Ok((protocol, start, len, port, next, n))
            && protocol == p.protocol && (handshake_wire(p) + rest).subrange(
            start as int,
            (start + len) as int,
        ) == p.server_address@ && port == p.port && next == p.next_state && n
            == handshake_wire(p).len(),
{
    let w1 = VarI32 { val: p.protocol }.wire();
    let b = p.server_address@;
    let w2 = str_wire(b);
    let w3 = p.port.wire();
    let w4 = VarI32 { val: p.next_state }.wire();
    let input = handshake_wire(p) + rest;
    vstd::utf8::decode_utf8_encode_utf8(b);
    crate::string::lemma_utf8_len_bound(decode_utf8(b));
    crate::varint::law_vari32_roundtrip(VarI32 { val: p.protocol }, w2 + w3 + w4 + rest);
    assert(input =~= w1 + (w2 + w3 + w4 + rest));
    let n1 = w1.len();
    assert(input.skip(n1 as int) =~= w2 + (w3 + w4 + rest));
    crate::string::lemma_parse_string_wire(SERVER_ADDRESS_MAX as nat, b, w3 + w4 + rest);
    let k = VarI32 { val: b.len() as i32 }.wire().len();
    let n2 = n1 + w2.len();
    assert(input.skip(n2 as int) =~= w3 + (w4 + rest));
    crate::num::law_u16_roundtrip(p.port, w4 + rest);
    crate::num::lemma_be_bytes_len(p.port as nat, 2);
    assert(input.skip((n2 + 2) as int) =~= w4 + rest);
    crate::varint::law_vari32_roundtrip(VarI32 { val: p.next_state }, rest);
    assert((w2 + (w3 + w4 + rest)).subrange(k as int, w2.len() as int) =~= input.subrange(
        (n1 + k) as int,
        (n1 + k + b.len()) as int,
    ));
}

} // verus!
