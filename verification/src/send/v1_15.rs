//! Packets of protocol versions 573 to 578 (1.15).

use vstd::prelude::*;
use vstd::std_specs::convert::FromSpecImpl;
use vstd::utf8::encode_utf8;

use crate::buf::WriteBuf;
use crate::collections::{concat_wires, slice_size, write_slice};
use crate::error::WriteError;
use crate::send::fields::{checked_outcome, filled, write_bytes_next, write_next, write_next_str, write_slice_next};
use crate::send::v1_14::{sections_checked_size, ChunkSectionData};
use crate::traits::{write_outcome, PacketSize, PacketWrite};
use crate::util::str_wire;
use crate::varint::{lemma_vari32_wire_len, VarI32};
use crate::send::specs::JoinGameSpec;

use crate::send::ids::{any_version, ids_view, no_ids, then_id, PacketIds};

verus! {

broadcast use crate::num::lemma_be_bytes_len_auto;

/// The longest level type, in characters.
pub const LEVEL_TYPE_MAX: usize = 16;

/// The join game packet.
pub struct JoinGamePacket {
    pub entity_id: i32,
    pub game_mode: u8,
    pub dimension: i32,
    pub hashed_seed: i64,
    pub max_players: u8,
    pub level_type: String,
    pub view_distance: i32,
    pub reduced_debug: bool,
    pub enable_respawn_screen: bool,
}

impl JoinGamePacket {
    /// The bytes of the packet, when its strings are short enough.
    pub open spec fn wire(&self) -> Seq<u8> {
        self.entity_id.wire() + self.game_mode.wire() + self.dimension.wire() + self.hashed_seed.wire() + self.max_players.wire() + str_wire(encode_utf8(self.level_type@)) + VarI32 { val: self.view_distance }.wire() + self.reduced_debug.wire() + self.enable_respawn_screen.wire()
    }

    /// The number of bytes of the packet.
    pub fn size(&self) -> (n: usize)
        requires
            self.wire().len() <= usize::MAX,
        ensures
            n == self.wire().len(),
    {
        proof {
            lemma_vari32_wire_len(VarI32 { val: encode_utf8(self.level_type@).len() as i32 }); lemma_vari32_wire_len(VarI32 { val: self.view_distance });
        }
        4 + 1 + 4 + 8 + 1 + VarI32::from(self.level_type.as_str().as_bytes().len()).size() + self.level_type.as_str().as_bytes().len() + VarI32::from(self.view_distance).size() + 1 + 1
    }

    /// Writes the packet; a string longer than its limit is refused.
    pub fn write(&self, buffer: &mut WriteBuf) -> (r: Result<(), WriteError>)
        ensures
            checked_outcome(
                *old(buffer),
                *final(buffer),
                self.level_type@.len() <= LEVEL_TYPE_MAX,
                self.wire(),
                r,
                WriteError::StringTooLong(LEVEL_TYPE_MAX, self.level_type@.len() as usize),
            ),
    {
        let ghost b0 = *buffer;
        let ghost d0 = Seq::<u8>::empty();
        proof { assert(b0@ =~= b0@ + d0); }
        let r = write_next(Ok(()), &self.entity_id, buffer, Ghost(b0), Ghost(d0));
        let ghost d1 = d0 + self.entity_id.wire();
        let r = write_next(r, &self.game_mode, buffer, Ghost(b0), Ghost(d1));
        let ghost d2 = d1 + self.game_mode.wire();
        let r = write_next(r, &self.dimension, buffer, Ghost(b0), Ghost(d2));
        let ghost d3 = d2 + self.dimension.wire();
        let r = write_next(r, &self.hashed_seed, buffer, Ghost(b0), Ghost(d3));
        let ghost d4 = d3 + self.hashed_seed.wire();
        let r = write_next(r, &self.max_players, buffer, Ghost(b0), Ghost(d4));
        let ghost d5 = d4 + self.max_players.wire();
        let r = write_next_str(r, LEVEL_TYPE_MAX, &self.level_type, buffer, Ghost(b0), Ghost(d5));
        let ghost d6 = d5 + str_wire(encode_utf8(self.level_type@));
        let r = write_next(r, &VarI32::from(self.view_distance), buffer, Ghost(b0), Ghost(d6));
        let ghost d7 = d6 + VarI32 { val: self.view_distance }.wire();
        let r = write_next(r, &self.reduced_debug, buffer, Ghost(b0), Ghost(d7));
        let ghost d8 = d7 + self.reduced_debug.wire();
        let r = write_next(r, &self.enable_respawn_screen, buffer, Ghost(b0), Ghost(d8));
        let ghost d9 = d8 + self.enable_respawn_screen.wire();
        proof { assert(d9 =~= self.wire()); }
        r
    }
}

impl From<JoinGameSpec> for JoinGamePacket {
    fn from(spec: JoinGameSpec) -> (r: JoinGamePacket)
        ensures
            r.entity_id == spec.entity_id,
            r.game_mode == spec.game_mode,
            r.dimension == spec.dimension,
            r.hashed_seed == spec.hashed_seed,
            r.max_players == spec.max_players,
            r.level_type@ == spec.level_type@,
            r.view_distance == spec.view_distance,
            r.reduced_debug == spec.reduced_debug,
            r.enable_respawn_screen == spec.enable_respawn_screen,
    {
        JoinGamePacket { entity_id: spec.entity_id, game_mode: spec.game_mode, dimension: spec.dimension, hashed_seed: spec.hashed_seed, max_players: spec.max_players, level_type: spec.level_type, view_distance: spec.view_distance, reduced_debug: spec.reduced_debug, enable_respawn_screen: spec.enable_respawn_screen }
    }
}

/// The join game packet built from a description carries each of its fields
/// unchanged in the field of the same name.
pub proof fn law_join_game_keeps_fields(spec: JoinGameSpec, r: JoinGamePacket)
    requires
        call_ensures(<JoinGamePacket as From<JoinGameSpec>>::from, (spec,), r),
    ensures
        r.entity_id == spec.entity_id,
        r.game_mode == spec.game_mode,
        r.dimension == spec.dimension,
        r.hashed_seed == spec.hashed_seed,
        r.max_players == spec.max_players,
        r.level_type@ == spec.level_type@,
        r.view_distance == spec.view_distance,
        r.reduced_debug == spec.reduced_debug,
        r.enable_respawn_screen == spec.enable_respawn_screen,
{
}

impl FromSpecImpl<JoinGameSpec> for JoinGamePacket {
    open spec fn obeys_from_spec() -> bool {
        true
    }

    open spec fn from_spec(spec: JoinGameSpec) -> JoinGamePacket {
        JoinGamePacket { entity_id: spec.entity_id, game_mode: spec.game_mode, dimension: spec.dimension, hashed_seed: spec.hashed_seed, max_players: spec.max_players, level_type: spec.level_type, view_distance: spec.view_distance, reduced_debug: spec.reduced_debug, enable_respawn_screen: spec.enable_respawn_screen }
    }
}

/// The number of biome entries of a chunk column.
pub const BIOME_COUNT: usize = 1024;

/// The bytes of the biome array: every biome id is zero.
pub open spec fn biome_wire() -> Seq<u8> {
    Seq::new((BIOME_COUNT * 4) as nat, |i: int| 0u8)
}

/// Every biome of a chunk column is sent as id zero: 4096 bytes, all zero.
pub proof fn law_biomes_all_zero()
    ensures
        biome_wire().len() == 4096,
        forall|i: int| 0 <= i < 4096 ==> #[trigger] biome_wire()[i] == 0u8,
{
}

/// The number of bytes of the data part of a chunk: its sections.
pub open spec fn data_len(sections: Seq<ChunkSectionData>) -> nat {
    concat_wires(sections).len()
}

/// The length the data part of a chunk is announced with.
pub fn data_value(field: &[ChunkSectionData]) -> (n: usize)
    requires
        data_len(field@) <= usize::MAX,
    ensures
        n == data_len(field@),
{
    data_size(field)
}

/// The number of bytes of the data part of a chunk.
pub fn data_size(field: &[ChunkSectionData]) -> (n: usize)
    requires
        data_len(field@) <= usize::MAX,
    ensures
        n == data_len(field@),
{
    slice_size(field)
}

/// Writes the data part of a chunk: its sections.
pub fn data_write(field: &[ChunkSectionData], buffer: &mut WriteBuf) -> (r: Result<(), WriteError>)
    ensures
        write_outcome(*old(buffer), *final(buffer), concat_wires(field@), r),
{
    write_slice(field, buffer)
}

/// The chunk data packet: a whole chunk column with its height map, biomes
/// (all zero) and sections.
pub struct ChunkDataPacket {
    pub chunk_x: i32,
    pub chunk_z: i32,
    pub full_chunk: bool,
    pub bitmask: i32,
    /// The height map in NBT form.
    pub heightmap: Vec<u8>,
    pub size: usize,
    pub sections: Vec<ChunkSectionData>,
    pub block_entity_num: i32,
}

impl ChunkDataPacket {
    /// A full chunk column at `chunk_x`, `chunk_z` with the given height map
    /// (in NBT form) and sections, and no block entities.
    pub fn new(
        chunk_x: i32,
        chunk_z: i32,
        bitmask: i32,
        heightmap: Vec<u8>,
        sections: Vec<ChunkSectionData>,
    ) -> (r: Self)
        ensures
            r.chunk_x == chunk_x,
            r.chunk_z == chunk_z,
            r.full_chunk,
            r.bitmask == bitmask,
            r.heightmap@ == heightmap@,
            r.size == 0,
            r.sections@ == sections@,
            r.block_entity_num == 0,
    {
        ChunkDataPacket { chunk_x, chunk_z, full_chunk: true, bitmask, heightmap, size: 0, sections, block_entity_num: 0 }
    }
}

impl PacketSize for ChunkDataPacket {
    /// The sections are announced with their length (taken as a 32-bit
    /// number), whatever the `size` field holds.
    open spec fn wire(&self) -> Seq<u8> {
        self.chunk_x.wire() + self.chunk_z.wire() + self.full_chunk.wire() + VarI32 {
            val: self.bitmask,
        }.wire() + self.heightmap@ + biome_wire() + VarI32 { val: data_len(self.sections@) as i32 }.wire()
            + concat_wires(self.sections@) + VarI32 { val: self.block_entity_num }.wire()
    }

    fn size(&self) -> (n: usize) {
        let head = self.chunk_x.size() + self.chunk_z.size() + self.full_chunk.size()
            + VarI32::from(self.bitmask).size() + self.heightmap.len() + BIOME_COUNT * 4;
        let data = data_size(self.sections.as_slice());
        head + VarI32 { val: data as i32 }.size() + data + VarI32::from(self.block_entity_num).size()
    }
}

impl PacketWrite for ChunkDataPacket {
    fn write(&self, buffer: &mut WriteBuf) -> (r: Result<(), WriteError>) {
        let ghost b0 = *buffer;
        let r = self.chunk_x.write(buffer);
        let ghost d1 = self.chunk_x.wire();
        let r = write_next(r, &self.chunk_z, buffer, Ghost(b0), Ghost(d1));
        let ghost d2 = d1 + self.chunk_z.wire();
        let r = write_next(r, &self.full_chunk, buffer, Ghost(b0), Ghost(d2));
        let ghost d3 = d2 + self.full_chunk.wire();
        let r = write_next(r, &VarI32::from(self.bitmask), buffer, Ghost(b0), Ghost(d3));
        let ghost d3h = d3 + VarI32 { val: self.bitmask }.wire();
        let r = write_bytes_next(r, self.heightmap.as_slice(), buffer, Ghost(b0), Ghost(d3h));
        let ghost d3b = d3h + self.heightmap@;
        let biomes = filled(0, BIOME_COUNT * 4);
        let r = write_bytes_next(r, biomes.as_slice(), buffer, Ghost(b0), Ghost(d3b));
        let ghost d4 = d3b + biome_wire();
        let checked = sections_checked_size(self.sections.as_slice());
        let data = match checked {
            Some(n) => n,
            None => {
                let ghost rest = VarI32 { val: data_len(self.sections@) as i32 }.wire()
                    + concat_wires(self.sections@) + VarI32 { val: self.block_entity_num }.wire();
                proof {
                    WriteBuf::lemma_limit_bound(b0);
                    assert(d4 + rest =~= self.wire());
                    assert(rest.len() > usize::MAX);
                }
                if r.is_err() {
                    proof {
                        crate::traits::lemma_write_fail_first(b0, *buffer, d4, rest, r);
                    }
                    return r;
                }
                proof {
                    crate::traits::lemma_write_stop(b0, *buffer, d4, rest);
                }
                return Err(WriteError::EndOfBuffer);
            },
        };
        let r = write_next(r, &VarI32 { val: data as i32 }, buffer, Ghost(b0), Ghost(d4));
        let ghost d5 = d4 + VarI32 { val: data_len(self.sections@) as i32 }.wire();
        let r = write_slice_next(r, self.sections.as_slice(), buffer, Ghost(b0), Ghost(d5));
        let ghost d6 = d5 + concat_wires(self.sections@);
        let r = write_next(r, &VarI32::from(self.block_entity_num), buffer, Ghost(b0), Ghost(d6));
        proof {
            assert(d6 + VarI32 { val: self.block_entity_num }.wire() =~= self.wire());
        }
        r
    }
}

impl ChunkDataPacket {
    /// The packet ids the chunk data packet is sent with, by protocol version: 0x22 in 573, 575, 578.
    pub fn packet_ids() -> (r: PacketIds)
        ensures
            ids_view(r) == seq![(0x22i32, seq![573i32, 575i32, 578i32])],
            r.any_version is None,
    {
        let v0: [i32; 3] = [573, 575, 578];
        proof {
            assert(v0@ =~= seq![573i32, 575i32, 578i32]);
        }
        let r = then_id(no_ids(), 0x22, &v0);
        proof {
            assert(ids_view(r) =~= seq![(0x22i32, seq![573i32, 575i32, 578i32])]);
        }
        r
    }
}

impl JoinGamePacket {
    /// The packet ids the join game packet is sent with, by protocol version: 0x26 in 573, 575, 578.
    pub fn packet_ids() -> (r: PacketIds)
        ensures
            ids_view(r) == seq![(0x26i32, seq![573i32, 575i32, 578i32])],
            r.any_version is None,
    {
        let v0: [i32; 3] = [573, 575, 578];
        proof {
            assert(v0@ =~= seq![573i32, 575i32, 578i32]);
        }
        let r = then_id(no_ids(), 0x26, &v0);
        proof {
            assert(ids_view(r) =~= seq![(0x26i32, seq![573i32, 575i32, 578i32])]);
        }
        r
    }
}

/// The join game packet ends with whether the debug info is reduced, then
/// whether the respawn screen is shown.
pub proof fn law_join_game_ends_with_flags(p: JoinGamePacket)
    ensures
        p.wire().len() >= 2,
        p.wire()[p.wire().len() - 2] == (if p.reduced_debug { 1u8 } else { 0u8 }),
        p.wire()[p.wire().len() - 1] == (if p.enable_respawn_screen { 1u8 } else { 0u8 }),
{
}

} // verus!
