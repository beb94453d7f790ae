//! Packets of protocol versions 477 to 498 (1.14).

use vstd::prelude::*;

use crate::buf::WriteBuf;
use crate::collections::{checked_slice_size, concat_wires, slice_size, write_slice};
use crate::error::WriteError;
use crate::send::fields::{checked_outcome, filled, write_bytes_next, write_next, write_next_str, write_slice_next};
use crate::send::specs::{JoinGameSpec, PaletteBlock, ServerDifficultySpec};
use crate::send::util::HeightMap;
use crate::send::v1_13::{build_compacted_data_array, law_span_words_bits, law_span_words_value, palette_wire, span_words, to_vars};
use crate::traits::{write_outcome, PacketSize, PacketWrite};
use crate::util::str_wire;
use crate::varint::{lemma_vari32_wire_len, VarI32};
use vstd::std_specs::convert::FromSpecImpl;
use vstd::utf8::encode_utf8;

use crate::send::ids::{any_version, ids_view, no_ids, then_id, PacketIds};

use crate::error::ReadError;
use crate::traits::PacketRead;
verus! {

broadcast use crate::num::lemma_be_bytes_len_auto;

/// The largest number of bits per block a section is sent with.
pub const MAX_BITS_PER_BLOCK: u8 = 14;

/// The number of biome entries of a chunk column.
pub const BIOME_COUNT: usize = 256;

/// The longest level type, in characters.
pub const LEVEL_TYPE_MAX: usize = 16;

/// The number of blocks among `blocks` that are not air and exist in the
/// protocol version.
pub open spec fn counted(blocks: Seq<PaletteBlock>) -> nat
    decreases blocks.len(),
{
    if blocks.len() == 0 {
        0
    } else {
        counted(blocks.drop_last()) + if !blocks.last().is_air && blocks.last().global_id is Some {
            1nat
        } else {
            0nat
        }
    }
}

/// The blocks counted are exactly those that are not air and have a global
/// id, whether or not they block movement: their number among `blocks`.
pub proof fn law_counted_blocks(blocks: Seq<PaletteBlock>)
    ensures
        counted(blocks) == blocks.filter(|b: PaletteBlock| !b.is_air && b.global_id is Some).len(),
    decreases blocks.len(),
{
    reveal(Seq::filter);
    if blocks.len() > 0 {
        law_counted_blocks(blocks.drop_last());
    }
}

proof fn lemma_counted_bound(blocks: Seq<PaletteBlock>)
    ensures
        counted(blocks) <= blocks.len(),
    decreases blocks.len(),
{
    if blocks.len() > 0 {
        lemma_counted_bound(blocks.drop_last());
    }
}

/// Counts the blocks of a section that are not air and exist in the
/// protocol version.
pub fn count_blocks(blocks: &[PaletteBlock]) -> (n: i16)
    requires
        blocks@.len() <= 32767,
    ensures
        n == counted(blocks@),
        n == blocks@.filter(|b: PaletteBlock| !b.is_air && b.global_id is Some).len(),
{
    proof {
        law_counted_blocks(blocks@);
    }
    let mut n: i16 = 0;
    let mut i: usize = 0;
    while i < blocks.len()
        invariant
            i <= blocks@.len(),
            blocks@.len() <= 32767,
            n == counted(blocks@.take(i as int)),
        decreases blocks@.len() - i,
    {
        proof {
            assert(blocks@.take(i + 1).drop_last() =~= blocks@.take(i as int));
            lemma_counted_bound(blocks@.take(i as int));
        }
        let b = blocks[i];
        if !b.is_air && b.global_id.is_some() {
            n = n + 1;
        }
        i = i + 1;
    }
    proof {
        assert(blocks@.take(i as int) =~= blocks@);
    }
    n
}

/// The count of a section's blocks is the number of its blocks that are not
/// air and have a global id, whatever their other properties.
pub proof fn law_count_blocks(blocks: &[PaletteBlock], n: i16)
    requires
        call_ensures(count_blocks, (blocks,), n),
    ensures
        n == blocks@.filter(|b: PaletteBlock| !b.is_air && b.global_id is Some).len(),
{
}

/// One section of a chunk as sent: the number of blocks that are not air,
/// its bits per block, its palette (absent for a direct palette) and its
/// packed blocks.
pub struct ChunkSectionData {
    pub block_count: i16,
    pub bits_per_block: u8,
    pub palette: Option<Vec<i32>>,
    pub block_data: Vec<u64>,
}

/// Builds a section from what its palette gives: `bits_needed` bits per
/// entry, the section's `blocks` (to count those that are not air), and the
/// palette `entries` of the blocks with the `palette` itself, or global ids
/// without a palette. The bits are at least four; above eight the palette
/// is direct and the entries are packed with `max_bits` bits.
pub fn into_chunk_section(
    bits_needed: u32,
    max_bits: u8,
    blocks: &[PaletteBlock],
    entries: &[u64],
    palette: Option<Vec<i32>>,
) -> (r: ChunkSectionData)
    requires
        9 <= max_bits <= 64,
        blocks@.len() <= 32767,
    ensures
        r.block_count == counted(blocks@),
        r.block_count == blocks@.filter(|b: PaletteBlock| !b.is_air && b.global_id is Some).len(),
        bits_needed < 4 ==> r.bits_per_block == 4,
        4 <= bits_needed < 9 ==> r.bits_per_block == bits_needed,
        bits_needed >= 9 ==> r.bits_per_block == max_bits,
        r.bits_per_block > 8 ==> r.palette is None && r.block_data@ == span_words(
            entries@,
            max_bits as u64,
        ),
        r.bits_per_block <= 8 ==> r.palette == palette && r.block_data@ == span_words(
            entries@,
            r.bits_per_block as u64,
        ),
{
    let bits_per_block = if bits_needed < 4 {
        4u8
    } else if bits_needed < 9 {
        bits_needed as u8
    } else {
        max_bits
    };
    let block_count = count_blocks(blocks);
    let capacity = (4096u32 * bits_per_block as u32) / 64;
    if bits_per_block > 8 {
        let block_data = build_compacted_data_array(max_bits, capacity, entries);
        ChunkSectionData { block_count, bits_per_block, palette: None, block_data }
    } else {
        let block_data = build_compacted_data_array(bits_per_block, capacity, entries);
        ChunkSectionData { block_count, bits_per_block, palette, block_data }
    }
}

impl PacketSize for ChunkSectionData {
    open spec fn wire(&self) -> Seq<u8> {
        self.block_count.wire() + self.bits_per_block.wire() + palette_wire(self.palette) + VarI32 {
            val: self.block_data@.len() as i32,
        }.wire() + concat_wires(self.block_data@)
    }

    fn size(&self) -> (n: usize) {
        let palette_len: usize = match &self.palette {
            Some(palette) => {
                let vars = to_vars(palette);
                VarI32 { val: palette.len() as i32 }.size() + slice_size(vars.as_slice())
            },
            None => 0,
        };
        let head = 2 + 1 + palette_len;
        let count = VarI32 { val: self.block_data.len() as i32 }.size();
        let data = slice_size(self.block_data.as_slice());
        head + count + data
    }
}

impl PacketWrite for ChunkSectionData {
    fn write(&self, buffer: &mut WriteBuf) -> (r: Result<(), WriteError>) {
        let ghost b0 = *buffer;
        let r = self.block_count.write(buffer);
        let ghost d0 = self.block_count.wire();
        let r = write_next(r, &self.bits_per_block, buffer, Ghost(b0), Ghost(d0));
        let ghost done = d0 + self.bits_per_block.wire();
        let r = match &self.palette {
            Some(palette) => {
                let vars = to_vars(palette);
                let r = write_next(r, &VarI32 { val: palette.len() as i32 }, buffer, Ghost(b0), Ghost(done));
                let ghost d2 = done + VarI32 { val: palette@.len() as i32 }.wire();
                let r = write_slice_next(r, vars.as_slice(), buffer, Ghost(b0), Ghost(d2));
                proof {
                    assert(d2 + concat_wires(vars@) =~= done + palette_wire(self.palette));
                }
                r
            },
            None => {
                proof {
                    assert(done + palette_wire(self.palette) =~= done);
                }
                r
            },
        };
        let ghost d3 = done + palette_wire(self.palette);
        let r = write_next(r, &VarI32 { val: self.block_data.len() as i32 }, buffer, Ghost(b0), Ghost(d3));
        let ghost d4 = d3 + VarI32 { val: self.block_data@.len() as i32 }.wire();
        write_slice_next(r, self.block_data.as_slice(), buffer, Ghost(b0), Ghost(d4))
    }
}

/// The bytes of the biome array: every biome id is zero.
pub open spec fn biome_wire() -> Seq<u8> {
    Seq::new((BIOME_COUNT * 4) as nat, |i: int| 0u8)
}

/// Every biome of a chunk column is sent as id zero: 1024 bytes, all zero.
pub proof fn law_biomes_all_zero()
    ensures
        biome_wire().len() == 1024,
        forall|i: int| 0 <= i < 1024 ==> #[trigger] biome_wire()[i] == 0u8,
{
}

/// The number of bytes of the data part of a chunk: its sections, then its
/// biomes.
pub open spec fn data_len(sections: Seq<ChunkSectionData>) -> nat {
    concat_wires(sections).len() + (BIOME_COUNT * 4) as nat
}

/// The length the data part of a chunk is announced with.
pub fn data_value(field: &Vec<ChunkSectionData>) -> (n: usize)
    requires
        data_len(field@) <= usize::MAX,
    ensures
        n == data_len(field@),
{
    data_size(field)
}

/// The number of bytes of the data part of a chunk.
pub fn data_size(field: &Vec<ChunkSectionData>) -> (n: usize)
    requires
        data_len(field@) <= usize::MAX,
    ensures
        n == data_len(field@),
{
    slice_size(field.as_slice()) + BIOME_COUNT * 4
}

/// Writes the data part of a chunk: its sections, then its biomes.
pub fn data_write(field: &Vec<ChunkSectionData>, buffer: &mut WriteBuf) -> (r: Result<(), WriteError>)
    ensures
        write_outcome(*old(buffer), *final(buffer), concat_wires(field@) + biome_wire(), r),
{
    let ghost b0 = *buffer;
    let r = write_slice(field.as_slice(), buffer);
    let biomes = filled(0, BIOME_COUNT * 4);
    write_bytes_next(r, biomes.as_slice(), buffer, Ghost(b0), Ghost(concat_wires(field@)))
}

/// The height map as sent: its entries packed nine bits each, as signed
/// 64-bit words.
pub struct PacketHeightMap {
    pub motion_blocking: Vec<i64>,
}

/// The height entries widened to 64 bits.
pub open spec fn widened(entries: Seq<u16>) -> Seq<u64> {
    Seq::new(entries.len(), |i: int| entries[i] as u64)
}

/// The words of the height map entries packed nine bits each, as signed
/// 64-bit words.
pub open spec fn heightmap_words(entries: Seq<u16>) -> Seq<i64> {
    Seq::new(
        span_words(widened(entries), 9).len(),
        |i: int| span_words(widened(entries), 9)[i] as i64,
    )
}

/// Widens the height entries to 64 bits.
pub fn widen(entries: &Vec<u16>) -> (r: Vec<u64>)
    ensures
        r@ == widened(entries@),
{
    let mut out: Vec<u64> = Vec::new();
    let mut i: usize = 0;
    while i < entries.len()
        invariant
            i <= entries@.len(),
            out@ == widened(entries@.take(i as int)),
        decreases entries@.len() - i,
    {
        out.push(entries[i] as u64);
        i = i + 1;
        proof {
            assert(out@ =~= widened(entries@.take(i as int)));
        }
    }
    proof {
        assert(entries@.take(i as int) =~= entries@);
    }
    out
}

/// Reinterprets the words as signed 64-bit numbers.
pub fn as_signed(words: Vec<u64>) -> (r: Vec<i64>)
    ensures
        r@ == Seq::new(words@.len(), |i: int| words@[i] as i64),
{
    let mut out: Vec<i64> = Vec::new();
    let mut i: usize = 0;
    while i < words.len()
        invariant
            i <= words@.len(),
            out@ == Seq::new(i as nat, |k: int| words@[k] as i64),
        decreases words@.len() - i,
    {
        out.push(words[i] as i64);
        i = i + 1;
        proof {
            assert(out@ =~= Seq::new(i as nat, |k: int| words@[k] as i64));
        }
    }
    out
}

/// The height map entries (each below 2^9) are sent packed end to end,
/// nine bits each, least significant bit first, across word boundaries: bit
/// `k` of the words is bit `k % 9` of entry `k / 9`.
pub proof fn law_heightmap_bits(entries: Seq<u16>, k: nat)
    requires
        forall|i: int| 0 <= i < entries.len() ==> #[trigger] entries[i] < 512,
        k < 64 * heightmap_words(entries).len(),
    ensures
        ((heightmap_words(entries)[(k / 64) as int] as u64) >> ((k % 64) as u64)) & 1u64 == ((entries[(k
            / 9) as int] as u64) >> ((k % 9) as u64)) & 1u64,
{
    let wide = widened(entries);
    vstd::arithmetic::power2::lemma2_to64();
    assert forall|i: int| 0 <= i < wide.len() implies #[trigger] wide[i] < vstd::arithmetic::power2::pow2(9) by {
        assert(wide[i] == entries[i] as u64);
    }
    law_span_words_bits(wide, 9, k);
    law_span_words_value(wide, 9);
    let w = span_words(wide, 9)[(k / 64) as int];
    assert((w as i64) as u64 == w) by (bit_vector);
    assert(k < entries.len() * 9) by (nonlinear_arith)
        requires
            k < 64 * span_words(wide, 9).len(),
            span_words(wide, 9).len() == wide.len() * 9 / 64,
            wide.len() == entries.len(),
    ;
    assert(k / 9 < entries.len()) by (nonlinear_arith)
        requires
            k < entries.len() * 9,
    ;
}

impl PacketHeightMap {
    /// The height map as sent: the entries packed nine bits each.
    pub fn from_map(map: HeightMap) -> (r: PacketHeightMap)
        ensures
            r.motion_blocking@ == heightmap_words(map@),
    {
        let entries = map.motion_blocking();
        let wide = widen(&entries);
        let words = build_compacted_data_array(9, 36, wide.as_slice());
        PacketHeightMap { motion_blocking: as_signed(words) }
    }
}

/// The join game packet.
pub struct JoinGamePacket {
    pub entity_id: i32,
    pub game_mode: u8,
    pub dimension: i32,
    pub max_players: u8,
    pub level_type: String,
    pub view_distance: i32,
    pub reduced_debug: bool,
}

impl JoinGamePacket {
    /// The bytes of the packet, when its level type is short enough.
    pub open spec fn wire(&self) -> Seq<u8> {
        self.entity_id.wire() + self.game_mode.wire() + self.dimension.wire()
            + self.max_players.wire() + str_wire(encode_utf8(self.level_type@)) + VarI32 {
            val: self.view_distance,
        }.wire() + self.reduced_debug.wire()
    }

    /// The number of bytes of the packet.
    pub fn size(&self) -> (n: usize)
        requires
            self.wire().len() <= usize::MAX,
        ensures
            n == self.wire().len(),
    {
        let s = self.level_type.as_str();
        let len = s.as_bytes().len();
        proof {
            lemma_vari32_wire_len(VarI32 { val: len as i32 });
            lemma_vari32_wire_len(VarI32 { val: self.view_distance });
        }
        4 + 1 + 4 + 1 + VarI32 { val: len as i32 }.size() + len + VarI32::from(self.view_distance).size() + 1
    }

    /// Writes the packet; a level type longer than [`LEVEL_TYPE_MAX`]
    /// characters is refused.
    pub fn write(&self, buffer: &mut WriteBuf) -> (r: Result<(), WriteError>)
        ensures
            checked_outcome(
                *old(buffer),
                *final(buffer),
                self.level_type@.len() <= LEVEL_TYPE_MAX,
                self.wire(),
                r,
                WriteError::StringTooLong(LEVEL_TYPE_MAX, self.level_type@.len() as usize),
            ),
    {
        let ghost b0 = *buffer;
        let r = self.entity_id.write(buffer);
        let ghost d1 = self.entity_id.wire();
        let r = write_next(r, &self.game_mode, buffer, Ghost(b0), Ghost(d1));
        let ghost d2 = d1 + self.game_mode.wire();
        let r = write_next(r, &self.dimension, buffer, Ghost(b0), Ghost(d2));
        let ghost d3 = d2 + self.dimension.wire();
        let r = write_next(r, &self.max_players, buffer, Ghost(b0), Ghost(d3));
        let ghost d4 = d3 + self.max_players.wire();
        let r = write_next_str(r, LEVEL_TYPE_MAX, &self.level_type, buffer, Ghost(b0), Ghost(d4));
        let ghost d5 = d4 + str_wire(encode_utf8(self.level_type@));
        let r = write_next(r, &VarI32::from(self.view_distance), buffer, Ghost(b0), Ghost(d5));
        let ghost d6 = d5 + VarI32 { val: self.view_distance }.wire();
        write_next(r, &self.reduced_debug, buffer, Ghost(b0), Ghost(d6))
    }
}

impl From<JoinGameSpec> for JoinGamePacket {
    fn from(spec: JoinGameSpec) -> (r: JoinGamePacket)
        ensures
            r.entity_id == spec.entity_id,
            r.game_mode == spec.game_mode,
            r.dimension == spec.dimension,
            r.max_players == spec.max_players,
            r.level_type@ == spec.level_type@,
            r.view_distance == spec.view_distance,
            r.reduced_debug == spec.reduced_debug,
    {
        JoinGamePacket {
            entity_id: spec.entity_id,
            game_mode: spec.game_mode,
            dimension: spec.dimension,
            max_players: spec.max_players,
            level_type: spec.level_type,
            view_distance: spec.view_distance,
            reduced_debug: spec.reduced_debug,
        }
    }
}

/// The join game packet built from a description carries each of its fields
/// unchanged in the field of the same name.
pub proof fn law_join_game_keeps_fields(spec: JoinGameSpec, r: JoinGamePacket)
    requires
        call_ensures(<JoinGamePacket as From<JoinGameSpec>>::from, (spec,), r),
    ensures
        r.entity_id == spec.entity_id,
        r.game_mode == spec.game_mode,
        r.dimension == spec.dimension,
        r.max_players == spec.max_players,
        r.level_type@ == spec.level_type@,
        r.view_distance == spec.view_distance,
        r.reduced_debug == spec.reduced_debug,
{
}

impl FromSpecImpl<JoinGameSpec> for JoinGamePacket {
    open spec fn obeys_from_spec() -> bool {
        true
    }

    open spec fn from_spec(spec: JoinGameSpec) -> JoinGamePacket {
        JoinGamePacket {
            entity_id: spec.entity_id,
            game_mode: spec.game_mode,
            dimension: spec.dimension,
            max_players: spec.max_players,
            level_type: spec.level_type,
            view_distance: spec.view_distance,
            reduced_debug: spec.reduced_debug,
        }
    }
}

/// The server difficulty packet.
#[derive(Debug, Clone, Copy, PartialEq, Eq)]
pub struct ServerDifficultyPacket {
    pub difficulty: u8,
    pub locked: bool,
}

impl PacketSize for ServerDifficultyPacket {
    open spec fn wire(&self) -> Seq<u8> {
        self.difficulty.wire() + self.locked.wire()
    }

    fn size(&self) -> (n: usize) {
        2
    }
}

impl PacketWrite for ServerDifficultyPacket {
    fn write(&self, buffer: &mut WriteBuf) -> (r: Result<(), WriteError>) {
        let ghost b0 = *buffer;
        let r = self.difficulty.write(buffer);
        write_next(r, &self.locked, buffer, Ghost(b0), Ghost(self.difficulty.wire()))
    }
}

impl From<ServerDifficultySpec> for ServerDifficultyPacket {
    fn from(spec: ServerDifficultySpec) -> (r: ServerDifficultyPacket)
        ensures
            r.difficulty == spec.difficulty,
            r.locked == spec.locked,
    {
        ServerDifficultyPacket { difficulty: spec.difficulty, locked: spec.locked }
    }
}

/// The server difficulty packet built from a description carries its
/// difficulty and whether it is locked unchanged.
pub proof fn law_server_difficulty_keeps_fields(spec: ServerDifficultySpec, r: ServerDifficultyPacket)
    requires
        call_ensures(<ServerDifficultyPacket as From<ServerDifficultySpec>>::from, (spec,), r),
    ensures
        r.difficulty == spec.difficulty,
        r.locked == spec.locked,
{
}

impl FromSpecImpl<ServerDifficultySpec> for ServerDifficultyPacket {
    open spec fn obeys_from_spec() -> bool {
        true
    }

    open spec fn from_spec(spec: ServerDifficultySpec) -> ServerDifficultyPacket {
        ServerDifficultyPacket { difficulty: spec.difficulty, locked: spec.locked }
    }
}

/// The packet telling the client which chunk the view is centred on.
#[derive(Debug, Clone, Copy, PartialEq, Eq)]
pub struct UpdateViewPosition {
    pub chunk_x: i32,
    pub chunk_z: i32,
}

impl PacketSize for UpdateViewPosition {
    open spec fn wire(&self) -> Seq<u8> {
        VarI32 { val: self.chunk_x }.wire() + VarI32 { val: self.chunk_z }.wire()
    }

    fn size(&self) -> (n: usize) {
        VarI32::from(self.chunk_x).size() + VarI32::from(self.chunk_z).size()
    }
}

impl PacketWrite for UpdateViewPosition {
    fn write(&self, buffer: &mut WriteBuf) -> (r: Result<(), WriteError>) {
        let ghost b0 = *buffer;
        let r = VarI32::from(self.chunk_x).write(buffer);
        write_next(
            r,
            &VarI32::from(self.chunk_z),
            buffer,
            Ghost(b0),
            Ghost(VarI32 { val: self.chunk_x }.wire()),
        )
    }
}

impl From<(i32, i32)> for UpdateViewPosition {
    fn from(pos: (i32, i32)) -> (r: UpdateViewPosition)
        ensures
            r.chunk_x == pos.0,
            r.chunk_z == pos.1,
    {
        UpdateViewPosition { chunk_x: pos.0, chunk_z: pos.1 }
    }
}

/// The view position packet carries the chunk coordinates it is given, x
/// then z, unchanged.
pub proof fn law_view_position_keeps_coordinates(pos: (i32, i32), r: UpdateViewPosition)
    requires
        call_ensures(<UpdateViewPosition as From<(i32, i32)>>::from, (pos,), r),
    ensures
        r.chunk_x == pos.0,
        r.chunk_z == pos.1,
{
}

impl FromSpecImpl<(i32, i32)> for UpdateViewPosition {
    open spec fn obeys_from_spec() -> bool {
        true
    }

    open spec fn from_spec(pos: (i32, i32)) -> UpdateViewPosition {
        UpdateViewPosition { chunk_x: pos.0, chunk_z: pos.1 }
    }
}

impl ChunkSectionData {
    /// The number of bytes the section takes up, or `None` when that exceeds
    /// what a `usize` counts.
    pub fn checked_size(&self) -> (r: Option<usize>)
        ensures
            match r {
                Some(n) => n == self.wire().len(),
                None => self.wire().len() > usize::MAX,
            },
    {
        let ghost p = palette_wire(self.palette);
        let palette_len: usize = match &self.palette {
            Some(palette) => {
                let vars = to_vars(palette);
                proof {
                    assert forall|i: int| 0 <= i < vars@.len() implies #[trigger] vars@[i].wire().len() <= 5 by {
                        lemma_vari32_wire_len(vars@[i]);
                    }
                    lemma_vari32_wire_len(VarI32 { val: palette.len() as i32 });
                }
                match checked_slice_size(vars.as_slice(), 5) {
                    None => return None,
                    Some(n) => match n.checked_add(VarI32 { val: palette.len() as i32 }.size()) {
                        None => return None,
                        Some(m) => m,
                    },
                }
            },
            None => 0,
        };
        proof {
            assert(palette_len == p.len());
            lemma_vari32_wire_len(VarI32 { val: self.block_data@.len() as i32 });
            assert forall|i: int| 0 <= i < self.block_data@.len() implies #[trigger] self.block_data@[i].wire().len() <= 8 by {
                crate::num::lemma_be_bytes_len(self.block_data@[i] as nat, 8);
            }
        }
        let data = match checked_slice_size(self.block_data.as_slice(), 8) {
            None => return None,
            Some(d) => d,
        };
        let count = VarI32 { val: self.block_data.len() as i32 }.size();
        if palette_len > usize::MAX - 3 - count {
            return None;
        }
        let head = 3 + palette_len + count;
        head.checked_add(data)
    }
}

/// The total number of bytes of `sections`, or `None` when that exceeds
/// what a `usize` counts.
pub fn sections_checked_size(sections: &[ChunkSectionData]) -> (r: Option<usize>)
    ensures
        match r {
            Some(n) => n == concat_wires(sections@).len(),
            None => concat_wires(sections@).len() > usize::MAX,
        },
{
    let mut total: usize = 0;
    let mut i: usize = 0;
    while i < sections.len()
        invariant
            i <= sections@.len(),
            total == concat_wires(sections@.take(i as int)).len(),
        decreases sections@.len() - i,
    {
        proof {
            assert(sections@.take(i + 1).drop_last() =~= sections@.take(i as int));
        }
        let n = match sections[i].checked_size() {
            None => {
                proof {
                    crate::collections::lemma_concat_prefix(sections@, i + 1);
                }
                return None;
            },
            Some(n) => n,
        };
        match total.checked_add(n) {
            Some(t) => total = t,
            None => {
                proof {
                    crate::collections::lemma_concat_prefix(sections@, i + 1);
                }
                return None;
            },
        }
        i = i + 1;
    }
    proof {
        assert(sections@.take(i as int) =~= sections@);
    }
    Some(total)
}

/// The chunk data packet: a whole chunk column with its height map and
/// sections.
pub struct ChunkDataPacket {
    pub chunk_x: i32,
    pub chunk_z: i32,
    pub full_chunk: bool,
    pub bitmask: i32,
    /// The height map in NBT form (see [`PacketHeightMap`]).
    pub heightmap: Vec<u8>,
    pub size: usize,
    pub sections: Vec<ChunkSectionData>,
    pub block_entity_num: i32,
}

impl ChunkDataPacket {
    /// A full chunk column at `chunk_x`, `chunk_z` with the given height map
    /// (in NBT form) and sections, and no block entities.
    pub fn new(
        chunk_x: i32,
        chunk_z: i32,
        bitmask: i32,
        heightmap: Vec<u8>,
        sections: Vec<ChunkSectionData>,
    ) -> (r: Self)
        ensures
            r.chunk_x == chunk_x,
            r.chunk_z == chunk_z,
            r.full_chunk,
            r.bitmask == bitmask,
            r.heightmap@ == heightmap@,
            r.size == 0,
            r.sections@ == sections@,
            r.block_entity_num == 0,
    {
        ChunkDataPacket { chunk_x, chunk_z, full_chunk: true, bitmask, heightmap, size: 0, sections, block_entity_num: 0 }
    }
}

impl PacketSize for ChunkDataPacket {
    /// The data part is announced with its length (taken as a 32-bit
    /// number), whatever the `size` field holds.
    open spec fn wire(&self) -> Seq<u8> {
        self.chunk_x.wire() + self.chunk_z.wire() + self.full_chunk.wire() + VarI32 {
            val: self.bitmask,
        }.wire() + self.heightmap@ + VarI32 { val: data_len(self.sections@) as i32 }.wire()
            + concat_wires(self.sections@) + biome_wire() + VarI32 { val: self.block_entity_num }.wire()
    }

    fn size(&self) -> (n: usize) {
        let head = self.chunk_x.size() + self.chunk_z.size() + self.full_chunk.size()
            + VarI32::from(self.bitmask).size() + self.heightmap.len();
        let data = data_size(&self.sections);
        head + VarI32 { val: data as i32 }.size() + data + VarI32::from(self.block_entity_num).size()
    }
}

impl PacketWrite for ChunkDataPacket {
    fn write(&self, buffer: &mut WriteBuf) -> (r: Result<(), WriteError>) {
        let ghost b0 = *buffer;
        let r = self.chunk_x.write(buffer);
        let ghost d1 = self.chunk_x.wire();
        let r = write_next(r, &self.chunk_z, buffer, Ghost(b0), Ghost(d1));
        let ghost d2 = d1 + self.chunk_z.wire();
        let r = write_next(r, &self.full_chunk, buffer, Ghost(b0), Ghost(d2));
        let ghost d3 = d2 + self.full_chunk.wire();
        let r = write_next(r, &VarI32::from(self.bitmask), buffer, Ghost(b0), Ghost(d3));
        let ghost d3h = d3 + VarI32 { val: self.bitmask }.wire();
        let r = write_bytes_next(r, self.heightmap.as_slice(), buffer, Ghost(b0), Ghost(d3h));
        let ghost d4 = d3h + self.heightmap@;
        let checked = sections_checked_size(self.sections.as_slice());
        let fits = match checked {
            Some(n) => n <= usize::MAX - BIOME_COUNT * 4,
            None => false,
        };
        if !fits {
            let ghost rest = VarI32 { val: data_len(self.sections@) as i32 }.wire()
                + concat_wires(self.sections@) + biome_wire() + VarI32 {
                val: self.block_entity_num,
            }.wire();
            proof {
                WriteBuf::lemma_limit_bound(b0);
                assert(d4 + rest =~= self.wire());
                assert(rest.len() >= concat_wires(self.sections@).len() + BIOME_COUNT * 4);
                assert(rest.len() > usize::MAX);
            }
            if r.is_err() {
                proof {
                    crate::traits::lemma_write_fail_first(b0, *buffer, d4, rest, r);
                }
                return r;
            }
            proof {
                crate::traits::lemma_write_stop(b0, *buffer, d4, rest);
            }
            return Err(WriteError::EndOfBuffer);
        }
        let data = match checked {
            Some(n) => n + BIOME_COUNT * 4,
            None => 0,
        };
        let r = write_next(r, &VarI32 { val: data as i32 }, buffer, Ghost(b0), Ghost(d4));
        let ghost d5 = d4 + VarI32 { val: data_len(self.sections@) as i32 }.wire();
        let r = write_slice_next(r, self.sections.as_slice(), buffer, Ghost(b0), Ghost(d5));
        let ghost d6 = d5 + concat_wires(self.sections@);
        let biomes = filled(0, BIOME_COUNT * 4);
        let r = write_bytes_next(r, biomes.as_slice(), buffer, Ghost(b0), Ghost(d6));
        let ghost d7 = d6 + biome_wire();
        let r = write_next(r, &VarI32::from(self.block_entity_num), buffer, Ghost(b0), Ghost(d7));
        proof {
            assert(d7 + VarI32 { val: self.block_entity_num }.wire() =~= self.wire());
        }
        r
    }
}

impl ChunkDataPacket {
    /// The packet ids the chunk data packet is sent with, by protocol version: 0x21 in 477, 480, 485, 490, 498.
    pub fn packet_ids() -> (r: PacketIds)
        ensures
            ids_view(r) == seq![(0x21i32, seq![477i32, 480i32, 485i32, 490i32, 498i32])],
            r.any_version is None,
    {
        let v0: [i32; 5] = [477, 480, 485, 490, 498];
        proof {
            assert(v0@ =~= seq![477i32, 480i32, 485i32, 490i32, 498i32]);
        }
        let r = then_id(no_ids(), 0x21, &v0);
        proof {
            assert(ids_view(r) =~= seq![(0x21i32, seq![477i32, 480i32, 485i32, 490i32, 498i32])]);
        }
        r
    }
}

impl JoinGamePacket {
    /// The packet ids the join game packet is sent with, by protocol version: 0x25 in 477, 480, 485, 490, 498.
    pub fn packet_ids() -> (r: PacketIds)
        ensures
            ids_view(r) == seq![(0x25i32, seq![477i32, 480i32, 485i32, 490i32, 498i32])],
            r.any_version is None,
    {
        let v0: [i32; 5] = [477, 480, 485, 490, 498];
        proof {
            assert(v0@ =~= seq![477i32, 480i32, 485i32, 490i32, 498i32]);
        }
        let r = then_id(no_ids(), 0x25, &v0);
        proof {
            assert(ids_view(r) =~= seq![(0x25i32, seq![477i32, 480i32, 485i32, 490i32, 498i32])]);
        }
        r
    }
}

impl ServerDifficultyPacket {
    /// The packet ids the server difficulty packet is sent with, by protocol version: 0x0D in 477, 480, 485, 490, 498, 735, 736; 0x0E in 573, 575, 578.
    pub fn packet_ids() -> (r: PacketIds)
        ensures
            ids_view(r) == seq![(0x0Di32, seq![477i32, 480i32, 485i32, 490i32, 498i32, 735i32, 736i32]), (0x0Ei32, seq![573i32, 575i32, 578i32])],
            r.any_version is None,
    {
        let v0: [i32; 7] = [477, 480, 485, 490, 498, 735, 736];
        let v1: [i32; 3] = [573, 575, 578];
        proof {
            assert(v0@ =~= seq![477i32, 480i32, 485i32, 490i32, 498i32, 735i32, 736i32]);
            assert(v1@ =~= seq![573i32, 575i32, 578i32]);
        }
        let r = then_id(then_id(no_ids(), 0x0D, &v0), 0x0E, &v1);
        proof {
            assert(ids_view(r) =~= seq![(0x0Di32, seq![477i32, 480i32, 485i32, 490i32, 498i32, 735i32, 736i32]), (0x0Ei32, seq![573i32, 575i32, 578i32])]);
        }
        r
    }
}

impl UpdateViewPosition {
    /// The packet ids the update view position packet is sent with, by protocol version: 0x40 in 477, 480, 485, 490, 498, 735, 736; 0x41 in 573, 575, 578.
    pub fn packet_ids() -> (r: PacketIds)
        ensures
            ids_view(r) == seq![(0x40i32, seq![477i32, 480i32, 485i32, 490i32, 498i32, 735i32, 736i32]), (0x41i32, seq![573i32, 575i32, 578i32])],
            r.any_version is None,
    {
        let v0: [i32; 7] = [477, 480, 485, 490, 498, 735, 736];
        let v1: [i32; 3] = [573, 575, 578];
        proof {
            assert(v0@ =~= seq![477i32, 480i32, 485i32, 490i32, 498i32, 735i32, 736i32]);
            assert(v1@ =~= seq![573i32, 575i32, 578i32]);
        }
        let r = then_id(then_id(no_ids(), 0x40, &v0), 0x41, &v1);
        proof {
            assert(ids_view(r) =~= seq![(0x40i32, seq![477i32, 480i32, 485i32, 490i32, 498i32, 735i32, 736i32]), (0x41i32, seq![573i32, 575i32, 578i32])]);
        }
        r
    }
}

/// A server difficulty packet reads back as its difficulty, then whether it
/// is locked.
pub proof fn law_server_difficulty_reads_back(p: ServerDifficultyPacket)
    ensures
        <u8 as PacketRead>::parse(p.wire()) == Ok::<(u8, nat), ReadError>((p.difficulty, 1nat)),
        <bool as PacketRead>::parse(p.wire().skip(1)) == Ok::<(bool, nat), ReadError>((p.locked, 1nat)),
        p.wire().len() == 2,
{
    crate::num::law_u8_roundtrip(p.difficulty, p.locked.wire());
    assert(p.wire().skip(1) =~= p.locked.wire());
}

/// A view position packet reads back as its coordinates: x, then z, each a
/// variable-length number.
pub proof fn law_view_position_reads_back(p: UpdateViewPosition)
    ensures
        <VarI32 as PacketRead>::parse(p.wire()) == Ok::<(VarI32, nat), ReadError>(
            (VarI32 { val: p.chunk_x }, VarI32 { val: p.chunk_x }.wire().len()),
        ),
        <VarI32 as PacketRead>::parse(p.wire().skip(VarI32 { val: p.chunk_x }.wire().len() as int)) == Ok::<
            (VarI32, nat),
            ReadError,
        >((VarI32 { val: p.chunk_z }, VarI32 { val: p.chunk_z }.wire().len())),
{
    let a = VarI32 { val: p.chunk_x };
    let b = VarI32 { val: p.chunk_z };
    crate::varint::law_vari32_roundtrip(a, b.wire());
    crate::varint::law_vari32_roundtrip(b, Seq::empty());
    assert(p.wire().skip(a.wire().len() as int) =~= b.wire() + Seq::<u8>::empty());
}

/// The join game packet ends with whether the debug info is reduced.
pub proof fn law_join_game_ends_with_flag(p: JoinGamePacket)
    ensures
        p.wire().len() >= 1,
        p.wire().last() == (if p.reduced_debug { 1u8 } else { 0u8 }),
{
}

} // verus!
