//! Status packets of every version.

use vstd::prelude::*;
use vstd::std_specs::convert::FromSpecImpl;
use vstd::utf8::encode_utf8;

use crate::buf::WriteBuf;
use crate::error::WriteError;
use crate::send::fields::{checked_outcome, write_next, write_next_str};
use crate::traits::{PacketSize, PacketWrite};
use crate::util::str_wire;
use crate::varint::{lemma_vari32_wire_len, VarI32};

use crate::send::ids::{any_version, ids_view, no_ids, then_id, PacketIds};

use crate::error::ReadError;
use crate::traits::PacketRead;
verus! {

broadcast use crate::num::lemma_be_bytes_len_auto;

/// The longest status text, in characters.
pub const RESPONSE_MAX: usize = 32767;

/// The status response packet, with the status as JSON text.
pub struct StatusResponsePacket {
    pub response: String,
}

impl StatusResponsePacket {
    /// The bytes of the packet, when its strings are short enough.
    pub open spec fn wire(&self) -> Seq<u8> {
        str_wire(encode_utf8(self.response@))
    }

    /// The number of bytes of the packet.
    pub fn size(&self) -> (n: usize)
        requires
            self.wire().len() <= usize::MAX,
        ensures
            n == self.wire().len(),
    {
        proof {
            lemma_vari32_wire_len(VarI32 { val: encode_utf8(self.response@).len() as i32 });
        }
        VarI32::from(self.response.as_str().as_bytes().len()).size() + self.response.as_str().as_bytes().len()
    }

    /// Writes the packet; a string longer than its limit is refused.
    pub fn write(&self, buffer: &mut WriteBuf) -> (r: Result<(), WriteError>)
        ensures
            checked_outcome(
                *old(buffer),
                *final(buffer),
                self.response@.len() <= RESPONSE_MAX,
                self.wire(),
                r,
                WriteError::StringTooLong(RESPONSE_MAX, self.response@.len() as usize),
            ),
    {
        let ghost b0 = *buffer;
        let ghost d0 = Seq::<u8>::empty();
        proof { assert(b0@ =~= b0@ + d0); }
        let r = write_next_str(Ok(()), RESPONSE_MAX, &self.response, buffer, Ghost(b0), Ghost(d0));
        let ghost d1 = d0 + str_wire(encode_utf8(self.response@));
        proof { assert(d1 =~= self.wire()); }
        r
    }
}

impl StatusResponsePacket {
    /// A status response with the given status (JSON text).
    pub fn new(response: String) -> (r: Self)
        ensures
            r.response@ == response@,
    {
        StatusResponsePacket { response }
    }
}

/// The pong packet, echoing the payload of a ping.
#[derive(Debug, Clone, Copy, PartialEq, Eq)]
pub struct StatusPongPacket {
    pub payload: i64,
}

impl PacketSize for StatusPongPacket {
    open spec fn wire(&self) -> Seq<u8> {
        self.payload.wire()
    }

    fn size(&self) -> (n: usize) {
        proof {
            
        }
        8
    }
}

impl PacketWrite for StatusPongPacket {
    fn write(&self, buffer: &mut WriteBuf) -> (r: Result<(), WriteError>) {
        let ghost b0 = *buffer;
        let ghost d0 = Seq::<u8>::empty();
        proof { assert(b0@ =~= b0@ + d0); }
        let r = write_next(Ok(()), &self.payload, buffer, Ghost(b0), Ghost(d0));
        let ghost d1 = d0 + self.payload.wire();
        proof { assert(d1 =~= self.wire()); }
        r
    }
}

impl From<i64> for StatusPongPacket {
    /// The pong echoes the ping's payload.
    fn from(spec: i64) -> (r: StatusPongPacket)
        ensures
            r.payload == spec,
    {
        StatusPongPacket { payload: spec }
    }
}

/// The pong answering a ping echoes the ping's payload unchanged, whatever
/// it is.
pub proof fn law_pong_echoes_payload(payload: i64, r: StatusPongPacket)
    requires
        call_ensures(<StatusPongPacket as From<i64>>::from, (payload,), r),
    ensures
        r.payload == payload,
{
}

impl FromSpecImpl<i64> for StatusPongPacket {
    open spec fn obeys_from_spec() -> bool {
        true
    }

    open spec fn from_spec(spec: i64) -> StatusPongPacket {
        StatusPongPacket { payload: spec }
    }
}

impl StatusResponsePacket {
    /// The packet id the status response packet is sent with: 0x00 in every protocol
    /// version.
    pub fn packet_ids() -> (r: PacketIds)
        ensures
            ids_view(r) == Seq::<(i32, Seq<i32>)>::empty(),
            r.any_version == Some(0x00i32),
    {
        any_version(0x00)
    }
}

impl StatusPongPacket {
    /// The packet id the status pong packet is sent with: 0x01 in every protocol
    /// version.
    pub fn packet_ids() -> (r: PacketIds)
        ensures
            ids_view(r) == Seq::<(i32, Seq<i32>)>::empty(),
            r.any_version == Some(0x01i32),
    {
        any_version(0x01)
    }
}

/// A pong reads back as the payload it echoes: its bytes are the payload as
/// a big-endian 64-bit number.
pub proof fn law_pong_reads_back(p: StatusPongPacket)
    ensures
        <i64 as PacketRead>::parse(p.wire()) == Ok::<(i64, nat), ReadError>((p.payload, 8nat)),
{
    crate::num::law_i64_roundtrip(p.payload, Seq::empty());
    assert(p.payload.wire() + Seq::<u8>::empty() =~= p.payload.wire());
}

} // verus!
