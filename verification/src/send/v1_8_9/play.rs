//! Play packets of protocol version 47 (1.8.9) and later.

use vstd::prelude::*;
use vstd::std_specs::convert::FromSpecImpl;
use vstd::utf8::encode_utf8;

use crate::buf::WriteBuf;
use crate::error::WriteError;
use crate::send::fields::{checked_outcome, write_next, write_next_str};
use crate::traits::{PacketSize, PacketWrite};
use crate::util::str_wire;
use crate::varint::{lemma_vari32_wire_len, VarI32};
use crate::send::specs::{JoinGameSpec, ServerDifficultySpec};

use crate::send::ids::{any_version, ids_view, no_ids, then_id, PacketIds};

use crate::error::ReadError;
use crate::traits::PacketRead;
verus! {

broadcast use crate::num::lemma_be_bytes_len_auto;

/// The longest level type, in characters.
pub const LEVEL_TYPE_MAX: usize = 32767;

/// The longest disconnect reason, in characters.
pub const REASON_MAX: usize = 262144;

/// The low eight bits of `n`, as a signed byte.
pub open spec fn i32_to_i8_spec(n: i32) -> i8 {
    n as i8
}

/// Narrows a dimension id to the byte this version sends, keeping its low
/// eight bits.
pub fn i32_to_i8(n: i32) -> (r: i8)
    ensures
        r == i32_to_i8_spec(n),
        (r as int - n as int) % 256 == 0,
{
    let r = n as i8;
    assert(((n as i8) as int - n as int) % 256 == 0) by (bit_vector);
    r
}

/// The join game packet.
pub struct JoinGamePacket {
    pub entity_id: i32,
    pub game_mode: u8,
    pub dimension: i8,
    pub difficulty: u8,
    pub max_players: u8,
    pub level_type: String,
    pub reduced_debug: bool,
}

impl JoinGamePacket {
    /// The bytes of the packet, when its strings are short enough.
    pub open spec fn wire(&self) -> Seq<u8> {
        self.entity_id.wire() + self.game_mode.wire() + self.dimension.wire() + self.difficulty.wire() + self.max_players.wire() + str_wire(encode_utf8(self.level_type@)) + self.reduced_debug.wire()
    }

    /// The number of bytes of the packet.
    pub fn size(&self) -> (n: usize)
        requires
            self.wire().len() <= usize::MAX,
        ensures
            n == self.wire().len(),
    {
        proof {
            lemma_vari32_wire_len(VarI32 { val: encode_utf8(self.level_type@).len() as i32 });
        }
        4 + 1 + 1 + 1 + 1 + VarI32::from(self.level_type.as_str().as_bytes().len()).size() + self.level_type.as_str().as_bytes().len() + 1
    }

    /// Writes the packet; a string longer than its limit is refused.
    pub fn write(&self, buffer: &mut WriteBuf) -> (r: Result<(), WriteError>)
        ensures
            checked_outcome(
                *old(buffer),
                *final(buffer),
                self.level_type@.len() <= LEVEL_TYPE_MAX,
                self.wire(),
                r,
                WriteError::StringTooLong(LEVEL_TYPE_MAX, self.level_type@.len() as usize),
            ),
    {
        let ghost b0 = *buffer;
        let ghost d0 = Seq::<u8>::empty();
        proof { assert(b0@ =~= b0@ + d0); }
        let r = write_next(Ok(()), &self.entity_id, buffer, Ghost(b0), Ghost(d0));
        let ghost d1 = d0 + self.entity_id.wire();
        let r = write_next(r, &self.game_mode, buffer, Ghost(b0), Ghost(d1));
        let ghost d2 = d1 + self.game_mode.wire();
        let r = write_next(r, &self.dimension, buffer, Ghost(b0), Ghost(d2));
        let ghost d3 = d2 + self.dimension.wire();
        let r = write_next(r, &self.difficulty, buffer, Ghost(b0), Ghost(d3));
        let ghost d4 = d3 + self.difficulty.wire();
        let r = write_next(r, &self.max_players, buffer, Ghost(b0), Ghost(d4));
        let ghost d5 = d4 + self.max_players.wire();
        let r = write_next_str(r, LEVEL_TYPE_MAX, &self.level_type, buffer, Ghost(b0), Ghost(d5));
        let ghost d6 = d5 + str_wire(encode_utf8(self.level_type@));
        let r = write_next(r, &self.reduced_debug, buffer, Ghost(b0), Ghost(d6));
        let ghost d7 = d6 + self.reduced_debug.wire();
        proof { assert(d7 =~= self.wire()); }
        r
    }
}

impl From<JoinGameSpec> for JoinGamePacket {
    fn from(spec: JoinGameSpec) -> (r: JoinGamePacket)
        ensures
            r.entity_id == spec.entity_id,
            r.game_mode == spec.game_mode,
            (r.dimension as int - spec.dimension as int) % 256 == 0,
            r.difficulty == spec.difficulty,
            r.max_players == spec.max_players,
            r.level_type@ == spec.level_type@,
            r.reduced_debug == spec.reduced_debug,
    {
        JoinGamePacket { entity_id: spec.entity_id, game_mode: spec.game_mode, dimension: i32_to_i8(spec.dimension), difficulty: spec.difficulty, max_players: spec.max_players, level_type: spec.level_type, reduced_debug: spec.reduced_debug }
    }
}

/// The join game packet built from a description carries each of its fields
/// unchanged in the field of the same name, but the dimension, which is sent
/// as the signed byte with the same low eight bits.
pub proof fn law_join_game_keeps_fields(spec: JoinGameSpec, r: JoinGamePacket)
    requires
        call_ensures(<JoinGamePacket as From<JoinGameSpec>>::from, (spec,), r),
    ensures
        r.entity_id == spec.entity_id,
        r.game_mode == spec.game_mode,
        (r.dimension as int - spec.dimension as int) % 256 == 0,
        r.difficulty == spec.difficulty,
        r.max_players == spec.max_players,
        r.level_type@ == spec.level_type@,
        r.reduced_debug == spec.reduced_debug,
{
}

impl FromSpecImpl<JoinGameSpec> for JoinGamePacket {
    open spec fn obeys_from_spec() -> bool {
        true
    }

    open spec fn from_spec(spec: JoinGameSpec) -> JoinGamePacket {
        JoinGamePacket { entity_id: spec.entity_id, game_mode: spec.game_mode, dimension: i32_to_i8_spec(spec.dimension), difficulty: spec.difficulty, max_players: spec.max_players, level_type: spec.level_type, reduced_debug: spec.reduced_debug }
    }
}

/// The packet that ends a connection while playing, with the reason as JSON text.
pub struct DisconnectPacket {
    pub reason: String,
}

impl DisconnectPacket {
    /// The bytes of the packet, when its strings are short enough.
    pub open spec fn wire(&self) -> Seq<u8> {
        str_wire(encode_utf8(self.reason@))
    }

    /// The number of bytes of the packet.
    pub fn size(&self) -> (n: usize)
        requires
            self.wire().len() <= usize::MAX,
        ensures
            n == self.wire().len(),
    {
        proof {
            lemma_vari32_wire_len(VarI32 { val: encode_utf8(self.reason@).len() as i32 });
        }
        VarI32::from(self.reason.as_str().as_bytes().len()).size() + self.reason.as_str().as_bytes().len()
    }

    /// Writes the packet; a string longer than its limit is refused.
    pub fn write(&self, buffer: &mut WriteBuf) -> (r: Result<(), WriteError>)
        ensures
            checked_outcome(
                *old(buffer),
                *final(buffer),
                self.reason@.len() <= REASON_MAX,
                self.wire(),
                r,
                WriteError::StringTooLong(REASON_MAX, self.reason@.len() as usize),
            ),
    {
        let ghost b0 = *buffer;
        let ghost d0 = Seq::<u8>::empty();
        proof { assert(b0@ =~= b0@ + d0); }
        let r = write_next_str(Ok(()), REASON_MAX, &self.reason, buffer, Ghost(b0), Ghost(d0));
        let ghost d1 = d0 + str_wire(encode_utf8(self.reason@));
        proof { assert(d1 =~= self.wire()); }
        r
    }
}

impl DisconnectPacket {
    /// A disconnect packet with the given reason (JSON text).
    pub fn new(reason: String) -> (r: Self)
        ensures
            r.reason@ == reason@,
    {
        DisconnectPacket { reason }
    }
}

/// The server difficulty packet.
#[derive(Debug, Clone, Copy, PartialEq, Eq)]
pub struct ServerDifficultyPacket {
    pub difficulty: u8,
}

impl PacketSize for ServerDifficultyPacket {
    open spec fn wire(&self) -> Seq<u8> {
        self.difficulty.wire()
    }

    fn size(&self) -> (n: usize) {
        1
    }
}

impl PacketWrite for ServerDifficultyPacket {
    fn write(&self, buffer: &mut WriteBuf) -> (r: Result<(), WriteError>) {
        let ghost b0 = *buffer;
        let ghost d0 = Seq::<u8>::empty();
        proof { assert(b0@ =~= b0@ + d0); }
        let r = write_next(Ok(()), &self.difficulty, buffer, Ghost(b0), Ghost(d0));
        let ghost d1 = d0 + self.difficulty.wire();
        proof { assert(d1 =~= self.wire()); }
        r
    }
}

impl JoinGamePacket {
    /// The packet ids the join game packet is sent with: 0x01 in protocol
    /// version 47, 0x23 in 107.
    pub fn packet_ids() -> (r: PacketIds)
        ensures
            ids_view(r) == seq![(0x01i32, seq![47i32]), (0x23i32, seq![107i32])],
            r.any_version is None,
    {
        let a: [i32; 1] = [47];
        let b: [i32; 1] = [107];
        proof {
            assert(a@ =~= seq![47i32]);
            assert(b@ =~= seq![107i32]);
        }
        let r = then_id(then_id(no_ids(), 0x01, &a), 0x23, &b);
        proof {
            assert(ids_view(r) =~= seq![(0x01i32, seq![47i32]), (0x23i32, seq![107i32])]);
        }
        r
    }
}

impl From<ServerDifficultySpec> for ServerDifficultyPacket {
    fn from(spec: ServerDifficultySpec) -> (r: ServerDifficultyPacket)
        ensures
            r.difficulty == spec.difficulty,
    {
        ServerDifficultyPacket { difficulty: spec.difficulty }
    }
}

/// The server difficulty packet built from a description carries its
/// difficulty unchanged.
pub proof fn law_server_difficulty_keeps_difficulty(spec: ServerDifficultySpec, r: ServerDifficultyPacket)
    requires
        call_ensures(<ServerDifficultyPacket as From<ServerDifficultySpec>>::from, (spec,), r),
    ensures
        r.difficulty == spec.difficulty,
{
}

impl FromSpecImpl<ServerDifficultySpec> for ServerDifficultyPacket {
    open spec fn obeys_from_spec() -> bool {
        true
    }

    open spec fn from_spec(spec: ServerDifficultySpec) -> ServerDifficultyPacket {
        ServerDifficultyPacket { difficulty: spec.difficulty }
    }
}

impl DisconnectPacket {
    /// The packet ids the play disconnect packet is sent with, by protocol version: 0x40 in 47; 0x1A in 107, 108, 109, 110, 210, 315, 316, 335, 338, 340, 477, 480, 485, 490, 498, 735, 736; 0x1B in 393, 401, 404, 573, 575, 578.
    pub fn packet_ids() -> (r: PacketIds)
        ensures
            ids_view(r) == seq![(0x40i32, seq![47i32]), (0x1Ai32, seq![107i32, 108i32, 109i32, 110i32, 210i32, 315i32, 316i32, 335i32, 338i32, 340i32, 477i32, 480i32, 485i32, 490i32, 498i32, 735i32, 736i32]), (0x1Bi32, seq![393i32, 401i32, 404i32, 573i32, 575i32, 578i32])],
            r.any_version is None,
    {
        let v0: [i32; 1] = [47];
        let v1: [i32; 17] = [107, 108, 109, 110, 210, 315, 316, 335, 338, 340, 477, 480, 485, 490, 498, 735, 736];
        let v2: [i32; 6] = [393, 401, 404, 573, 575, 578];
        proof {
            assert(v0@ =~= seq![47i32]);
            assert(v1@ =~= seq![107i32, 108i32, 109i32, 110i32, 210i32, 315i32, 316i32, 335i32, 338i32, 340i32, 477i32, 480i32, 485i32, 490i32, 498i32, 735i32, 736i32]);
            assert(v2@ =~= seq![393i32, 401i32, 404i32, 573i32, 575i32, 578i32]);
        }
        let r = then_id(then_id(then_id(no_ids(), 0x40, &v0), 0x1A, &v1), 0x1B, &v2);
        proof {
            assert(ids_view(r) =~= seq![(0x40i32, seq![47i32]), (0x1Ai32, seq![107i32, 108i32, 109i32, 110i32, 210i32, 315i32, 316i32, 335i32, 338i32, 340i32, 477i32, 480i32, 485i32, 490i32, 498i32, 735i32, 736i32]), (0x1Bi32, seq![393i32, 401i32, 404i32, 573i32, 575i32, 578i32])]);
        }
        r
    }
}

impl ServerDifficultyPacket {
    /// The packet ids the server difficulty packet is sent with, by protocol version: 0x41 in 47; 0x0D in 107, 108, 109, 110, 210, 315, 316, 335, 338, 340, 393, 401, 404.
    pub fn packet_ids() -> (r: PacketIds)
        ensures
            ids_view(r) == seq![(0x41i32, seq![47i32]), (0x0Di32, seq![107i32, 108i32, 109i32, 110i32, 210i32, 315i32, 316i32, 335i32, 338i32, 340i32, 393i32, 401i32, 404i32])],
            r.any_version is None,
    {
        let v0: [i32; 1] = [47];
        let v1: [i32; 13] = [107, 108, 109, 110, 210, 315, 316, 335, 338, 340, 393, 401, 404];
        proof {
            assert(v0@ =~= seq![47i32]);
            assert(v1@ =~= seq![107i32, 108i32, 109i32, 110i32, 210i32, 315i32, 316i32, 335i32, 338i32, 340i32, 393i32, 401i32, 404i32]);
        }
        let r = then_id(then_id(no_ids(), 0x41, &v0), 0x0D, &v1);
        proof {
            assert(ids_view(r) =~= seq![(0x41i32, seq![47i32]), (0x0Di32, seq![107i32, 108i32, 109i32, 110i32, 210i32, 315i32, 316i32, 335i32, 338i32, 340i32, 393i32, 401i32, 404i32])]);
        }
        r
    }
}

/// A server difficulty packet reads back as its difficulty.
pub proof fn law_server_difficulty_reads_back(p: ServerDifficultyPacket)
    ensures
        <u8 as PacketRead>::parse(p.wire()) == Ok::<(u8, nat), ReadError>((p.difficulty, 1nat)),
{
    crate::num::law_u8_roundtrip(p.difficulty, Seq::empty());
    assert(p.difficulty.wire() + Seq::<u8>::empty() =~= p.difficulty.wire());
}

/// The join game packet ends with whether the debug info is reduced.
pub proof fn law_join_game_ends_with_flag(p: JoinGamePacket)
    ensures
        p.wire().len() >= 1,
        p.wire().last() == (if p.reduced_debug { 1u8 } else { 0u8 }),
{
}

} // verus!
