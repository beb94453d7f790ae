//! Packets of protocol versions 340 to 736 (1.12.2 on).

use vstd::prelude::*;
use vstd::std_specs::convert::FromSpecImpl;

use crate::buf::WriteBuf;
use crate::error::WriteError;
use crate::send::fields::write_next;
use crate::traits::{PacketSize, PacketWrite};

use crate::send::ids::{any_version, ids_view, no_ids, then_id, PacketIds};

use crate::error::ReadError;
use crate::traits::PacketRead;
verus! {

broadcast use crate::num::lemma_be_bytes_len_auto;


/// The keep alive packet, echoed by the client.
#[derive(Debug, Clone, Copy, PartialEq, Eq)]
pub struct KeepAlivePacket {
    pub id: i64,
}

impl PacketSize for KeepAlivePacket {
    open spec fn wire(&self) -> Seq<u8> {
        self.id.wire()
    }

    fn size(&self) -> (n: usize) {
        proof {
            
        }
        8
    }
}

impl PacketWrite for KeepAlivePacket {
    fn write(&self, buffer: &mut WriteBuf) -> (r: Result<(), WriteError>) {
        let ghost b0 = *buffer;
        let ghost d0 = Seq::<u8>::empty();
        proof { assert(b0@ =~= b0@ + d0); }
        let r = write_next(Ok(()), &self.id, buffer, Ghost(b0), Ghost(d0));
        let ghost d1 = d0 + self.id.wire();
        proof { assert(d1 =~= self.wire()); }
        r
    }
}

impl From<i64> for KeepAlivePacket {
    fn from(spec: i64) -> (r: KeepAlivePacket)
        ensures
            r.id == spec,
    {
        KeepAlivePacket { id: spec }
    }
}

/// The keep alive packet carries the given id unchanged, whatever it is.
pub proof fn law_keep_alive_carries_id(id: i64, r: KeepAlivePacket)
    requires
        call_ensures(<KeepAlivePacket as From<i64>>::from, (id,), r),
    ensures
        r.id == id,
{
}

impl FromSpecImpl<i64> for KeepAlivePacket {
    open spec fn obeys_from_spec() -> bool {
        true
    }

    open spec fn from_spec(spec: i64) -> KeepAlivePacket {
        KeepAlivePacket { id: spec }
    }
}

impl KeepAlivePacket {
    /// The packet ids the keep alive packet is sent with, by protocol version: 0x1F in 340; 0x21 in 393, 401, 404, 573, 575, 578; 0x20 in 477, 480, 485, 490, 498, 735, 736.
    pub fn packet_ids() -> (r: PacketIds)
        ensures
            ids_view(r) == seq![(0x1Fi32, seq![340i32]), (0x21i32, seq![393i32, 401i32, 404i32, 573i32, 575i32, 578i32]), (0x20i32, seq![477i32, 480i32, 485i32, 490i32, 498i32, 735i32, 736i32])],
            r.any_version is None,
    {
        let v0: [i32; 1] = [340];
        let v1: [i32; 6] = [393, 401, 404, 573, 575, 578];
        let v2: [i32; 7] = [477, 480, 485, 490, 498, 735, 736];
        proof {
            assert(v0@ =~= seq![340i32]);
            assert(v1@ =~= seq![393i32, 401i32, 404i32, 573i32, 575i32, 578i32]);
            assert(v2@ =~= seq![477i32, 480i32, 485i32, 490i32, 498i32, 735i32, 736i32]);
        }
        let r = then_id(then_id(then_id(no_ids(), 0x1F, &v0), 0x21, &v1), 0x20, &v2);
        proof {
            assert(ids_view(r) =~= seq![(0x1Fi32, seq![340i32]), (0x21i32, seq![393i32, 401i32, 404i32, 573i32, 575i32, 578i32]), (0x20i32, seq![477i32, 480i32, 485i32, 490i32, 498i32, 735i32, 736i32])]);
        }
        r
    }
}

/// A keep alive packet reads back as its id: its bytes are the id as a
/// big-endian 64-bit number.
pub proof fn law_keep_alive_reads_back(p: KeepAlivePacket)
    ensures
        <i64 as PacketRead>::parse(p.wire()) == Ok::<(i64, nat), ReadError>((p.id, 8nat)),
{
    crate::num::law_i64_roundtrip(p.id, Seq::empty());
    assert(p.id.wire() + Seq::<u8>::empty() =~= p.id.wire());
}

} // verus!
