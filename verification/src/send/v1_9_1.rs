//! Packets of protocol versions 108 to 404 (1.9.1 to 1.13.2).

use vstd::prelude::*;
use vstd::std_specs::convert::FromSpecImpl;
use vstd::utf8::encode_utf8;

use crate::buf::WriteBuf;
use crate::error::WriteError;
use crate::send::fields::{checked_outcome, write_next, write_next_str};
use crate::traits::{PacketSize, PacketWrite};
use crate::util::str_wire;
use crate::varint::{lemma_vari32_wire_len, VarI32};
use crate::send::specs::JoinGameSpec;

use crate::send::ids::{any_version, ids_view, no_ids, then_id, PacketIds};

verus! {

broadcast use crate::num::lemma_be_bytes_len_auto;

/// The longest level type, in characters.
pub const LEVEL_TYPE_MAX: usize = 16;

/// The join game packet.
pub struct JoinGamePacket {
    pub entity_id: i32,
    pub game_mode: u8,
    pub dimension: i32,
    pub difficulty: u8,
    pub max_players: u8,
    pub level_type: String,
    pub reduced_debug: bool,
}

impl JoinGamePacket {
    /// The bytes of the packet, when its strings are short enough.
    pub open spec fn wire(&self) -> Seq<u8> {
        self.entity_id.wire() + self.game_mode.wire() + self.dimension.wire() + self.difficulty.wire() + self.max_players.wire() + str_wire(encode_utf8(self.level_type@)) + self.reduced_debug.wire()
    }

    /// The number of bytes of the packet.
    pub fn size(&self) -> (n: usize)
        requires
            self.wire().len() <= usize::MAX,
        ensures
            n == self.wire().len(),
    {
        proof {
            lemma_vari32_wire_len(VarI32 { val: encode_utf8(self.level_type@).len() as i32 });
        }
        4 + 1 + 4 + 1 + 1 + VarI32::from(self.level_type.as_str().as_bytes().len()).size() + self.level_type.as_str().as_bytes().len() + 1
    }

    /// Writes the packet; a string longer than its limit is refused.
    pub fn write(&self, buffer: &mut WriteBuf) -> (r: Result<(), WriteError>)
        ensures
            checked_outcome(
                *old(buffer),
                *final(buffer),
                self.level_type@.len() <= LEVEL_TYPE_MAX,
                self.wire(),
                r,
                WriteError::StringTooLong(LEVEL_TYPE_MAX, self.level_type@.len() as usize),
            ),
    {
        let ghost b0 = *buffer;
        let ghost d0 = Seq::<u8>::empty();
        proof { assert(b0@ =~= b0@ + d0); }
        let r = write_next(Ok(()), &self.entity_id, buffer, Ghost(b0), Ghost(d0));
        let ghost d1 = d0 + self.entity_id.wire();
        let r = write_next(r, &self.game_mode, buffer, Ghost(b0), Ghost(d1));
        let ghost d2 = d1 + self.game_mode.wire();
        let r = write_next(r, &self.dimension, buffer, Ghost(b0), Ghost(d2));
        let ghost d3 = d2 + self.dimension.wire();
        let r = write_next(r, &self.difficulty, buffer, Ghost(b0), Ghost(d3));
        let ghost d4 = d3 + self.difficulty.wire();
        let r = write_next(r, &self.max_players, buffer, Ghost(b0), Ghost(d4));
        let ghost d5 = d4 + self.max_players.wire();
        let r = write_next_str(r, LEVEL_TYPE_MAX, &self.level_type, buffer, Ghost(b0), Ghost(d5));
        let ghost d6 = d5 + str_wire(encode_utf8(self.level_type@));
        let r = write_next(r, &self.reduced_debug, buffer, Ghost(b0), Ghost(d6));
        let ghost d7 = d6 + self.reduced_debug.wire();
        proof { assert(d7 =~= self.wire()); }
        r
    }
}

impl From<JoinGameSpec> for JoinGamePacket {
    fn from(spec: JoinGameSpec) -> (r: JoinGamePacket)
        ensures
            r.entity_id == spec.entity_id,
            r.game_mode == spec.game_mode,
            r.dimension == spec.dimension,
            r.difficulty == spec.difficulty,
            r.max_players == spec.max_players,
            r.level_type@ == spec.level_type@,
            r.reduced_debug == spec.reduced_debug,
    {
        JoinGamePacket { entity_id: spec.entity_id, game_mode: spec.game_mode, dimension: spec.dimension, difficulty: spec.difficulty, max_players: spec.max_players, level_type: spec.level_type, reduced_debug: spec.reduced_debug }
    }
}

/// The join game packet built from a description carries each of its fields
/// unchanged in the field of the same name.
pub proof fn law_join_game_keeps_fields(spec: JoinGameSpec, r: JoinGamePacket)
    requires
        call_ensures(<JoinGamePacket as From<JoinGameSpec>>::from, (spec,), r),
    ensures
        r.entity_id == spec.entity_id,
        r.game_mode == spec.game_mode,
        r.dimension == spec.dimension,
        r.difficulty == spec.difficulty,
        r.max_players == spec.max_players,
        r.level_type@ == spec.level_type@,
        r.reduced_debug == spec.reduced_debug,
{
}

impl FromSpecImpl<JoinGameSpec> for JoinGamePacket {
    open spec fn obeys_from_spec() -> bool {
        true
    }

    open spec fn from_spec(spec: JoinGameSpec) -> JoinGamePacket {
        JoinGamePacket { entity_id: spec.entity_id, game_mode: spec.game_mode, dimension: spec.dimension, difficulty: spec.difficulty, max_players: spec.max_players, level_type: spec.level_type, reduced_debug: spec.reduced_debug }
    }
}

impl JoinGamePacket {
    /// The packet ids the join game packet is sent with, by protocol version: 0x23 in 108, 109, 110, 210, 315, 316, 335, 338, 340; 0x25 in 393, 401, 404.
    pub fn packet_ids() -> (r: PacketIds)
        ensures
            ids_view(r) == seq![(0x23i32, seq![108i32, 109i32, 110i32, 210i32, 315i32, 316i32, 335i32, 338i32, 340i32]), (0x25i32, seq![393i32, 401i32, 404i32])],
            r.any_version is None,
    {
        let v0: [i32; 9] = [108, 109, 110, 210, 315, 316, 335, 338, 340];
        let v1: [i32; 3] = [393, 401, 404];
        proof {
            assert(v0@ =~= seq![108i32, 109i32, 110i32, 210i32, 315i32, 316i32, 335i32, 338i32, 340i32]);
            assert(v1@ =~= seq![393i32, 401i32, 404i32]);
        }
        let r = then_id(then_id(no_ids(), 0x23, &v0), 0x25, &v1);
        proof {
            assert(ids_view(r) =~= seq![(0x23i32, seq![108i32, 109i32, 110i32, 210i32, 315i32, 316i32, 335i32, 338i32, 340i32]), (0x25i32, seq![393i32, 401i32, 404i32])]);
        }
        r
    }
}

/// The join game packet ends with whether the debug info is reduced.
pub proof fn law_join_game_ends_with_flag(p: JoinGamePacket)
    ensures
        p.wire().len() >= 1,
        p.wire().last() == (if p.reduced_debug { 1u8 } else { 0u8 }),
{
}

} // verus!
