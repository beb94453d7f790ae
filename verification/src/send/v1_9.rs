//! Packets of protocol versions 107 to 498 (1.9 on).

use vstd::prelude::*;
use vstd::std_specs::convert::FromSpecImpl;

use crate::buf::WriteBuf;
use crate::error::WriteError;
use crate::send::fields::write_next;
use crate::traits::{PacketSize, PacketWrite};

use crate::send::ids::{any_version, ids_view, no_ids, then_id, PacketIds};

use crate::error::ReadError;
use crate::traits::PacketRead;
verus! {

broadcast use crate::num::lemma_be_bytes_len_auto;


/// The packet telling the client to forget a chunk column.
#[derive(Debug, Clone, Copy, PartialEq, Eq)]
pub struct UnloadChunkPacket {
    pub chunk_x: i32,
    pub chunk_z: i32,
}

impl PacketSize for UnloadChunkPacket {
    open spec fn wire(&self) -> Seq<u8> {
        self.chunk_x.wire() + self.chunk_z.wire()
    }

    fn size(&self) -> (n: usize) {
        proof {
            
        }
        4 + 4
    }
}

impl PacketWrite for UnloadChunkPacket {
    fn write(&self, buffer: &mut WriteBuf) -> (r: Result<(), WriteError>) {
        let ghost b0 = *buffer;
        let ghost d0 = Seq::<u8>::empty();
        proof { assert(b0@ =~= b0@ + d0); }
        let r = write_next(Ok(()), &self.chunk_x, buffer, Ghost(b0), Ghost(d0));
        let ghost d1 = d0 + self.chunk_x.wire();
        let r = write_next(r, &self.chunk_z, buffer, Ghost(b0), Ghost(d1));
        let ghost d2 = d1 + self.chunk_z.wire();
        proof { assert(d2 =~= self.wire()); }
        r
    }
}

impl From<(i32, i32)> for UnloadChunkPacket {
    fn from(spec: (i32, i32)) -> (r: UnloadChunkPacket)
        ensures
            r.chunk_x == spec.0,
            r.chunk_z == spec.1,
    {
        UnloadChunkPacket { chunk_x: spec.0, chunk_z: spec.1 }
    }
}

/// The unload chunk packet carries the chunk coordinates it is given, x then
/// z, unchanged.
pub proof fn law_unload_chunk_keeps_coordinates(pos: (i32, i32), r: UnloadChunkPacket)
    requires
        call_ensures(<UnloadChunkPacket as From<(i32, i32)>>::from, (pos,), r),
    ensures
        r.chunk_x == pos.0,
        r.chunk_z == pos.1,
{
}

impl FromSpecImpl<(i32, i32)> for UnloadChunkPacket {
    open spec fn obeys_from_spec() -> bool {
        true
    }

    open spec fn from_spec(spec: (i32, i32)) -> UnloadChunkPacket {
        UnloadChunkPacket { chunk_x: spec.0, chunk_z: spec.1 }
    }
}

impl UnloadChunkPacket {
    /// The packet ids the unload chunk packet is sent with, by protocol version: 0x1D in 107, 108, 109, 110, 210, 315, 316, 335, 338, 340, 477, 480, 485, 490, 498; 0x1F in 393, 401, 404.
    pub fn packet_ids() -> (r: PacketIds)
        ensures
            ids_view(r) == seq![(0x1Di32, seq![107i32, 108i32, 109i32, 110i32, 210i32, 315i32, 316i32, 335i32, 338i32, 340i32, 477i32, 480i32, 485i32, 490i32, 498i32]), (0x1Fi32, seq![393i32, 401i32, 404i32])],
            r.any_version is None,
    {
        let v0: [i32; 15] = [107, 108, 109, 110, 210, 315, 316, 335, 338, 340, 477, 480, 485, 490, 498];
        let v1: [i32; 3] = [393, 401, 404];
        proof {
            assert(v0@ =~= seq![107i32, 108i32, 109i32, 110i32, 210i32, 315i32, 316i32, 335i32, 338i32, 340i32, 477i32, 480i32, 485i32, 490i32, 498i32]);
            assert(v1@ =~= seq![393i32, 401i32, 404i32]);
        }
        let r = then_id(then_id(no_ids(), 0x1D, &v0), 0x1F, &v1);
        proof {
            assert(ids_view(r) =~= seq![(0x1Di32, seq![107i32, 108i32, 109i32, 110i32, 210i32, 315i32, 316i32, 335i32, 338i32, 340i32, 477i32, 480i32, 485i32, 490i32, 498i32]), (0x1Fi32, seq![393i32, 401i32, 404i32])]);
        }
        r
    }
}

/// An unload chunk packet reads back as its coordinates: x, then z, each a
/// big-endian 32-bit number.
pub proof fn law_unload_chunk_reads_back(p: UnloadChunkPacket)
    ensures
        <i32 as PacketRead>::parse(p.wire()) == Ok::<(i32, nat), ReadError>((p.chunk_x, 4nat)),
        <i32 as PacketRead>::parse(p.wire().skip(4)) == Ok::<(i32, nat), ReadError>((p.chunk_z, 4nat)),
{
    crate::num::law_i32_roundtrip(p.chunk_x, p.chunk_z.wire());
    crate::num::law_i32_roundtrip(p.chunk_z, Seq::empty());
    broadcast use crate::num::lemma_be_bytes_len_auto;
    assert(p.wire().skip(4) =~= p.chunk_z.wire() + Seq::<u8>::empty());
}

} // verus!
