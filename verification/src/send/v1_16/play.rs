//! Play packets of protocol versions 735 and 736 (1.16).

use vstd::prelude::*;

use vstd::utf8::encode_utf8;
use vstd::arithmetic::power2::{lemma_pow2_adds, lemma_pow2_pos, pow2};
use vstd::bits::lemma_u64_shl_is_mul;

use crate::buf::WriteBuf;
use crate::error::WriteError;
use crate::collections::concat_wires;
use crate::send::fields::{filled, write_bytes_next, write_next, write_next_str, write_slice_next};
use crate::send::specs::{JoinGameSpec, PaletteBlock};
use crate::traits::{write_outcome, PacketSize, PacketWrite};
use crate::util::str_wire;
use crate::varint::VarI32;
use dimension::{Codec, Dimension, DimensionData};
use crate::send::util::HeightMap;
use crate::send::v1_13::{bit_at, lemma_stream_bit, lemma_u64_bit, stream_value};
use crate::send::v1_14::{count_blocks, counted, widen, widened, as_signed, sections_checked_size, ChunkSectionData};

pub mod dimension;

use crate::send::ids::{any_version, ids_view, no_ids, then_id, PacketIds};

verus! {

/// The largest number of bits per block a section is sent with.
pub const MAX_BITS_PER_BLOCK: u8 = 15;

/// The word holding `chunk`: element `j` shifted left by `j * bits` bits,
/// all OR-ed together.
pub open spec fn or_pack(chunk: Seq<u64>, bits: u64) -> u64
    decreases chunk.len(),
{
    if chunk.len() == 0 {
        0
    } else {
        or_pack(chunk.drop_last(), bits) | (chunk.last() << (((chunk.len() - 1) * bits) as u64))
    }
}

/// The elements packed `64 / bits` to a word, an element never straddling
/// two words; the last word holds the elements left over.
pub open spec fn aligned_words(elements: Seq<u64>, bits: u64) -> Seq<u64> {
    let per = 64int / (bits as int);
    Seq::new(
        ((elements.len() + per - 1) / per) as nat,
        |k: int|
            or_pack(
                elements.subrange(
                    k * per,
                    if (k + 1) * per < elements.len() {
                        (k + 1) * per
                    } else {
                        elements.len() as int
                    },
                ),
                bits,
            ),
    )
}

/// The first `m` full words of the elements packed `per` to a word.
spec fn full_words(elements: Seq<u64>, bits: u64, per: int, m: nat) -> Seq<u64> {
    Seq::new(m, |k: int| or_pack(elements.subrange(k * per, (k + 1) * per), bits))
}

/// Packs `elements` of `bits_per_element` bits `64 / bits_per_element` to a
/// 64-bit word; the last word holds what is left over. `capacity` is the
/// number of words to reserve room for.
pub fn build_compacted_data_array(bits_per_element: u8, capacity: u32, elements: &[u64]) -> (r: Vec<u64>)
    requires
        1 <= bits_per_element <= 64,
    ensures
        r@ == aligned_words(elements@, bits_per_element as u64),
{
    let mut compacted_data: Vec<u64> = Vec::with_capacity(capacity as usize);
    let mut current_long: u64 = 0;
    let entries_per_long: u8 = (64 / bits_per_element as u32) as u8;
    let ghost b = bits_per_element as u64;
    let ghost per = entries_per_long as int;
    let mut current_entry: u8 = 0;
    let mut i: usize = 0;
    proof {
        assert(per * bits_per_element <= 64 && per >= 1) by (nonlinear_arith)
            requires
                per == 64int / (bits_per_element as int),
                1 <= bits_per_element <= 64,
        ;
        assert(per * compacted_data@.len() == 0);
    }
    while i < elements.len()
        invariant
            1 <= bits_per_element <= 64,
            b == bits_per_element as u64,
            per == entries_per_long,
            per == 64int / (bits_per_element as int),
            per >= 1,
            per * bits_per_element <= 64,
            i <= elements@.len(),
            current_entry < per,
            i == per * compacted_data@.len() + current_entry,
            compacted_data@ == full_words(elements@, b, per, compacted_data@.len()),
            current_long == or_pack(elements@.subrange(i - current_entry, i as int), b),
        decreases elements@.len() - i,
    {
        let element = elements[i];
        proof {
            assert(current_entry * bits_per_element < 64) by (nonlinear_arith)
                requires
                    current_entry < per,
                    per * bits_per_element <= 64,
                    bits_per_element >= 1,
            ;
            let s = elements@.subrange(i - current_entry, i + 1);
            assert(s.drop_last() =~= elements@.subrange(i - current_entry, i as int));
        }
        current_long = current_long | (element << (current_entry * bits_per_element));
        current_entry = current_entry + 1;
        i = i + 1;
        if current_entry == entries_per_long {
            proof {
                assert(compacted_data@.push(current_long) =~= full_words(
                    elements@,
                    b,
                    per,
                    compacted_data@.len() + 1,
                )) by {
                    let m = compacted_data@.len();
                    assert(i - current_entry == m * per) by (nonlinear_arith)
                        requires
                            i == per * m + current_entry,
                    ;
                    assert((m + 1) * per == i) by (nonlinear_arith)
                        requires
                            i == per * m + current_entry,
                            current_entry == per,
                    ;
                }
            }
            let ghost m0 = compacted_data@.len();
            compacted_data.push(current_long);
            current_long = 0;
            current_entry = 0;
            proof {
                assert(per * (m0 + 1) == per * m0 + per) by (nonlinear_arith);
                assert(elements@.subrange(i as int, i as int) =~= Seq::<u64>::empty());
            }
        }
    }
    let ghost m = compacted_data@.len();
    let ghost n = elements@.len();
    if current_entry != 0 {
        compacted_data.push(current_long);
    }
    proof {
        let aw = aligned_words(elements@, b);
        assert(n == per * m + current_entry);
        if current_entry != 0 {
            assert((n + per - 1) / per == m + 1) by (nonlinear_arith)
                requires
                    n == per * m + current_entry,
                    0 < current_entry < per,
            ;
            assert forall|k: int| 0 <= k < m + 1 implies compacted_data@[k] == aw[k] by {
                if k < m {
                    assert((k + 1) * per <= m * per) by (nonlinear_arith)
                        requires
                            k < m,
                            per >= 1,
                    ;
                    assert((k + 1) * per < n || (k + 1) * per == n);
                } else {
                    assert(k * per == n - current_entry) by (nonlinear_arith)
                        requires
                            k == m,
                            n == per * m + current_entry,
                    ;
                    assert((k + 1) * per >= n) by (nonlinear_arith)
                        requires
                            k == m,
                            n == per * m + current_entry,
                            current_entry < per,
                    ;
                }
            }
        } else {
            assert((n + per - 1) / per == m) by (nonlinear_arith)
                requires
                    n == per * m,
                    per >= 1,
            ;
            assert(m * per == n) by (nonlinear_arith)
                requires
                    n == per * m,
            ;
            assert forall|k: int| 0 <= k < m implies compacted_data@[k] == aw[k] by {
                assert((k + 1) * per <= m * per) by (nonlinear_arith)
                    requires
                        k < m,
                        per >= 1,
                ;
                assert((k + 1) * per < n || (k + 1) * per == n);
            }
        }
        assert(compacted_data@ =~= aw);
    }
    compacted_data
}

/// Builds a section from what its palette gives, as in 1.14 but packing the
/// entries without straddling words: `bits_needed` bits per entry, the
/// section's `blocks` (to count those that are not air), and the palette
/// `entries` of the blocks with the `palette` itself, or global ids without
/// a palette. The bits are at least four; above eight the palette is direct
/// and the entries are packed with [`MAX_BITS_PER_BLOCK`] bits.
pub fn into_chunk_section(
    bits_needed: u32,
    blocks: &[PaletteBlock],
    entries: &[u64],
    palette: Option<Vec<i32>>,
) -> (r: ChunkSectionData)
    requires
        blocks@.len() <= 32767,
    ensures
        r.block_count == counted(blocks@),
        r.block_count == blocks@.filter(|b: PaletteBlock| !b.is_air && b.global_id is Some).len(),
        bits_needed < 4 ==> r.bits_per_block == 4,
        4 <= bits_needed < 9 ==> r.bits_per_block == bits_needed,
        bits_needed >= 9 ==> r.bits_per_block == MAX_BITS_PER_BLOCK,
        r.bits_per_block > 8 ==> r.palette is None && r.block_data@ == aligned_words(
            entries@,
            MAX_BITS_PER_BLOCK as u64,
        ),
        r.bits_per_block <= 8 ==> r.palette == palette && r.block_data@ == aligned_words(
            entries@,
            r.bits_per_block as u64,
        ),
{
    let bits_per_block = if bits_needed < 4 {
        4u8
    } else if bits_needed < 9 {
        bits_needed as u8
    } else {
        MAX_BITS_PER_BLOCK
    };
    let block_count = count_blocks(blocks);
    let capacity = (4096u32 * bits_per_block as u32) / 64;
    if bits_per_block > 8 {
        let block_data = build_compacted_data_array(MAX_BITS_PER_BLOCK, capacity, entries);
        ChunkSectionData { block_count, bits_per_block, palette: None, block_data }
    } else {
        let block_data = build_compacted_data_array(bits_per_block, capacity, entries);
        ChunkSectionData { block_count, bits_per_block, palette, block_data }
    }
}

/// The height map as sent: its entries packed nine bits each, seven to a
/// word, as signed 64-bit words.
pub struct PacketHeightMap {
    pub motion_blocking: Vec<i64>,
}

/// The words of the height map entries packed seven to a word, as signed
/// 64-bit words.
pub open spec fn heightmap_words(entries: Seq<u16>) -> Seq<i64> {
    Seq::new(
        aligned_words(widened(entries), 9).len(),
        |i: int| aligned_words(widened(entries), 9)[i] as i64,
    )
}

/// The height map entries (each below 2^9) are sent seven to a word, nine
/// bits each, none straddling two words: bit `i` of word `k` is bit `i % 9`
/// of entry `7 * k + i / 9` where that entry is in the word, and zero above.
pub proof fn law_heightmap_bits(entries: Seq<u16>, k: int, i: u64)
    requires
        forall|e: int| 0 <= e < entries.len() ==> #[trigger] entries[e] < 512,
        0 <= k < heightmap_words(entries).len(),
        i < 64,
    ensures
        ((heightmap_words(entries)[k] as u64) >> i) & 1u64 == if i / 9 < 7 && 7 * k + ((i / 9) as int)
            < entries.len() {
            ((entries[7 * k + (i / 9) as int] as u64) >> (i % 9)) & 1u64
        } else {
            0u64
        },
{
    let wide = widened(entries);
    vstd::arithmetic::power2::lemma2_to64();
    assert forall|e: int| 0 <= e < wide.len() implies #[trigger] wide[e] < pow2(9) by {
        assert(wide[e] == entries[e] as u64);
    }
    law_aligned_words_bits(wide, 9, k, i);
    let w = aligned_words(wide, 9)[k];
    assert((w as i64) as u64 == w) by (bit_vector);
    assert(64int / 9 == 7);
    if i / 9 < 7 && 7 * k + ((i / 9) as int) < entries.len() {
        assert(wide[7 * k + (i / 9) as int] == entries[7 * k + (i / 9) as int] as u64);
    }
}

impl PacketHeightMap {
    /// The height map as sent: the entries packed nine bits each.
    pub fn from_map(map: HeightMap) -> (r: PacketHeightMap)
        ensures
            r.motion_blocking@ == heightmap_words(map@),
    {
        let entries = map.motion_blocking();
        let wide = widen(&entries);
        let words = build_compacted_data_array(9, 37, wide.as_slice());
        PacketHeightMap { motion_blocking: as_signed(words) }
    }
}

/// The number of biome entries of a chunk column.
pub const BIOME_COUNT: usize = 1024;

/// The bytes of the biome array: every biome id is zero.
pub open spec fn biome_wire() -> Seq<u8> {
    Seq::new((BIOME_COUNT * 4) as nat, |i: int| 0u8)
}

/// Every biome of a chunk column is sent as id zero: 4096 bytes, all zero.
pub proof fn law_biomes_all_zero()
    ensures
        biome_wire().len() == 4096,
        forall|i: int| 0 <= i < 4096 ==> #[trigger] biome_wire()[i] == 0u8,
{
}

/// The chunk data packet: a whole chunk column with its height map, biomes
/// (all zero) and sections; the lighting is not updated.
pub struct ChunkDataPacket {
    pub chunk_x: i32,
    pub chunk_z: i32,
    pub bit_mask: i32,
    /// The height map in NBT form.
    pub heightmap: Vec<u8>,
    pub chunk_sections: Vec<ChunkSectionData>,
}

impl ChunkDataPacket {
    /// A chunk column at `chunk_x`, `chunk_z` with the given height map (in
    /// NBT form) and sections.
    pub fn new(
        chunk_x: i32,
        chunk_z: i32,
        bit_mask: i32,
        heightmap: Vec<u8>,
        chunk_sections: Vec<ChunkSectionData>,
    ) -> (r: Self)
        ensures
            r.chunk_x == chunk_x,
            r.chunk_z == chunk_z,
            r.bit_mask == bit_mask,
            r.heightmap@ == heightmap@,
            r.chunk_sections@ == chunk_sections@,
    {
        ChunkDataPacket { chunk_x, chunk_z, bit_mask, heightmap, chunk_sections }
    }
}

impl PacketSize for ChunkDataPacket {
    /// A full chunk without a lighting update, announced with the length of
    /// its sections (taken as a 32-bit number), and no block entities.
    open spec fn wire(&self) -> Seq<u8> {
        self.chunk_x.wire() + self.chunk_z.wire() + true.wire() + false.wire() + VarI32 {
            val: self.bit_mask,
        }.wire() + self.heightmap@ + biome_wire() + VarI32 {
            val: concat_wires(self.chunk_sections@).len() as i32,
        }.wire() + concat_wires(self.chunk_sections@) + VarI32 { val: 0 }.wire()
    }

    fn size(&self) -> (n: usize) {
        let head = self.chunk_x.size() + self.chunk_z.size() + true.size() + false.size()
            + VarI32::from(self.bit_mask).size() + self.heightmap.len() + BIOME_COUNT * 4;
        let data = crate::collections::slice_size(self.chunk_sections.as_slice());
        head + VarI32 { val: data as i32 }.size() + data + VarI32 { val: 0 }.size()
    }
}

impl PacketWrite for ChunkDataPacket {
    fn write(&self, buffer: &mut WriteBuf) -> (r: Result<(), WriteError>) {
        let ghost b0 = *buffer;
        let r = self.chunk_x.write(buffer);
        let ghost d1 = self.chunk_x.wire();
        let r = write_next(r, &self.chunk_z, buffer, Ghost(b0), Ghost(d1));
        let ghost d2 = d1 + self.chunk_z.wire();
        let r = write_next(r, &true, buffer, Ghost(b0), Ghost(d2));
        let ghost d2a = d2 + true.wire();
        let r = write_next(r, &false, buffer, Ghost(b0), Ghost(d2a));
        let ghost d3 = d2a + false.wire();
        let r = write_next(r, &VarI32::from(self.bit_mask), buffer, Ghost(b0), Ghost(d3));
        let ghost d3h = d3 + VarI32 { val: self.bit_mask }.wire();
        let r = write_bytes_next(r, self.heightmap.as_slice(), buffer, Ghost(b0), Ghost(d3h));
        let ghost d3b = d3h + self.heightmap@;
        let biomes = filled(0, BIOME_COUNT * 4);
        let r = write_bytes_next(r, biomes.as_slice(), buffer, Ghost(b0), Ghost(d3b));
        let ghost d4 = d3b + biome_wire();
        let data = match sections_checked_size(self.chunk_sections.as_slice()) {
            Some(n) => n,
            None => {
                let ghost rest = VarI32 { val: concat_wires(self.chunk_sections@).len() as i32 }.wire()
                    + concat_wires(self.chunk_sections@) + VarI32 { val: 0 }.wire();
                proof {
                    WriteBuf::lemma_limit_bound(b0);
                    assert(d4 + rest =~= self.wire());
                    assert(rest.len() > usize::MAX);
                }
                if r.is_err() {
                    proof {
                        crate::traits::lemma_write_fail_first(b0, *buffer, d4, rest, r);
                    }
                    return r;
                }
                proof {
                    crate::traits::lemma_write_stop(b0, *buffer, d4, rest);
                }
                return Err(WriteError::EndOfBuffer);
            },
        };
        let r = write_next(r, &VarI32 { val: data as i32 }, buffer, Ghost(b0), Ghost(d4));
        let ghost d5 = d4 + VarI32 { val: concat_wires(self.chunk_sections@).len() as i32 }.wire();
        let r = write_slice_next(r, self.chunk_sections.as_slice(), buffer, Ghost(b0), Ghost(d5));
        let ghost d6 = d5 + concat_wires(self.chunk_sections@);
        let r = write_next(r, &VarI32 { val: 0 }, buffer, Ghost(b0), Ghost(d6));
        proof {
            assert(d6 + VarI32 { val: 0 }.wire() =~= self.wire());
        }
        r
    }
}

/// The longest identifier, in characters.
pub const IDENTIFIER_MAX: usize = 32767;

/// The bytes of the world names: each as a string.
pub open spec fn worlds_wire(worlds: Seq<String>) -> Seq<u8>
    decreases worlds.len(),
{
    if worlds.len() == 0 {
        Seq::empty()
    } else {
        worlds_wire(worlds.drop_last()) + str_wire(encode_utf8(worlds.last()@))
    }
}

/// Every world name is short enough.
pub open spec fn worlds_fit(worlds: Seq<String>) -> bool {
    forall|i: int| 0 <= i < worlds.len() ==> #[trigger] worlds[i]@.len() <= IDENTIFIER_MAX
}

/// The number the world names are announced with: how many there are.
pub fn worlds_value(field: &Vec<String>) -> (n: usize)
    ensures
        n == field@.len(),
{
    field.len()
}

/// The number of bytes of the world names.
pub fn worlds_size(field: &Vec<String>) -> (n: usize)
    requires
        worlds_wire(field@).len() <= usize::MAX,
    ensures
        n == worlds_wire(field@).len(),
{
    let mut total: usize = 0;
    let mut i: usize = 0;
    while i < field.len()
        invariant
            i <= field@.len(),
            worlds_wire(field@).len() <= usize::MAX,
            total == worlds_wire(field@.take(i as int)).len(),
        decreases field@.len() - i,
    {
        proof {
            assert(field@.take(i + 1).drop_last() =~= field@.take(i as int));
            lemma_worlds_prefix(field@, i + 1);
            crate::varint::lemma_vari32_wire_len(
                VarI32 { val: encode_utf8(field@[i as int]@).len() as i32 },
            );
        }
        let len = field[i].as_str().as_bytes().len();
        total = total + (VarI32 { val: len as i32 }).size() + len;
        i = i + 1;
    }
    proof {
        assert(field@.take(i as int) =~= field@);
    }
    total
}

proof fn lemma_worlds_prefix(worlds: Seq<String>, i: int)
    requires
        0 <= i <= worlds.len(),
    ensures
        worlds_wire(worlds.take(i)).len() <= worlds_wire(worlds).len(),
    decreases worlds.len(),
{
    if i < worlds.len() {
        assert(worlds.drop_last().take(i) =~= worlds.take(i));
        lemma_worlds_prefix(worlds.drop_last(), i);
    } else {
        assert(worlds.take(i) =~= worlds);
    }
}

/// Continues a sequence of writes with the world names, each a string of at
/// most [`IDENTIFIER_MAX`] characters.
fn worlds_write_next(
    prev: Result<(), WriteError>,
    field: &Vec<String>,
    buffer: &mut WriteBuf,
    Ghost(start): Ghost<WriteBuf>,
    Ghost(done): Ghost<Seq<u8>>,
) -> (r: Result<(), WriteError>)
    ensures
        prev is Err ==> r == prev,
        worlds_fit(field@) && write_outcome(start, *old(buffer), done, prev) ==> write_outcome(
            start,
            *final(buffer),
            done + worlds_wire(field@),
            r,
        ),
        !worlds_fit(field@) ==> r is Err,
{
    let mut r = prev;
    let mut i: usize = 0;
    proof {
        assert(done + worlds_wire(field@.take(0)) =~= done);
    }
    while i < field.len()
        invariant
            i <= field@.len(),
            prev is Err ==> r == prev,
            worlds_fit(field@.take(i as int)) && write_outcome(start, *old(buffer), done, prev)
                ==> write_outcome(start, *buffer, done + worlds_wire(field@.take(i as int)), r),
            !worlds_fit(field@.take(i as int)) ==> r is Err,
        decreases field@.len() - i,
    {
        let ghost d = done + worlds_wire(field@.take(i as int));
        let ghost prior = r;
        r = write_next_str(r, IDENTIFIER_MAX, &field[i], buffer, Ghost(start), Ghost(d));
        proof {
            let t = field@.take(i + 1);
            assert(t.drop_last() =~= field@.take(i as int));
            assert(d + str_wire(encode_utf8(field@[i as int]@)) =~= done + worlds_wire(t));
            if worlds_fit(t) {
                assert forall|k: int| 0 <= k < i implies #[trigger] field@.take(i as int)[k]@.len()
                    <= IDENTIFIER_MAX by {
                    assert(field@.take(i as int)[k] == t[k]);
                }
                assert(t[i as int] == field@[i as int]);
            }
            if !worlds_fit(t) && worlds_fit(field@.take(i as int)) {
                assert(field@[i as int]@.len() > IDENTIFIER_MAX) by {
                    assert forall|k: int| 0 <= k < i implies #[trigger] t[k]@.len()
                        <= IDENTIFIER_MAX by {
                        assert(field@.take(i as int)[k] == t[k]);
                    }
                }
            }
            if !worlds_fit(field@.take(i as int)) {
                assert(!worlds_fit(t)) by {
                    let k = choose|k: int|
                        0 <= k < i && !(#[trigger] field@.take(i as int)[k]@.len() <= IDENTIFIER_MAX);
                    assert(field@.take(i as int)[k] == t[k]);
                }
            }
        }
        i = i + 1;
    }
    proof {
        assert(field@.take(i as int) =~= field@);
    }
    r
}

/// Writes the world names, each a string of at most [`IDENTIFIER_MAX`]
/// characters.
pub fn worlds_write(field: &Vec<String>, buffer: &mut WriteBuf) -> (r: Result<(), WriteError>)
    ensures
        worlds_fit(field@) ==> write_outcome(*old(buffer), *final(buffer), worlds_wire(field@), r),
        !worlds_fit(field@) ==> r is Err,
{
    let ghost b0 = *buffer;
    proof {
        assert(b0@ =~= b0@ + Seq::<u8>::empty());
        assert(Seq::<u8>::empty() + worlds_wire(field@) =~= worlds_wire(field@));
    }
    worlds_write_next(Ok(()), field, buffer, Ghost(b0), Ghost(Seq::empty()))
}

/// The name of the only world.
pub fn init_world() -> (r: String)
    ensures
        r@ == "falcon:world"@,
{
    String::from_str("falcon:world")
}

/// The world names: the only world.
pub fn init_worlds() -> (r: Vec<String>)
    ensures
        r@.len() == 1,
        r@[0]@ == "falcon:world"@,
{
    let mut v: Vec<String> = Vec::new();
    v.push(init_world());
    v
}

/// The name of the dimension the player is in.
pub fn init_dimension() -> (r: String)
    ensures
        r@ == "minecraft:overworld"@,
{
    String::from_str("minecraft:overworld")
}

/// The codec describing the overworld only.
pub fn init_dimension_codec() -> (r: Codec)
    ensures
        r.dimension@.len() == 1,
        r.dimension@[0].dimension.name@ == "minecraft:overworld"@,
        r.dimension@[0].dimension.id == 0,
{
    let mut dims: Vec<DimensionData> = Vec::new();
    dims.push(DimensionData::new(Dimension::new(String::from_str("minecraft:overworld"), 0)));
    Codec::new(dims)
}

/// The join game packet.
pub struct JoinGamePacket {
    pub entity_id: i32,
    pub game_mode: u8,
    pub prev_gamemode: u8,
    pub worlds: Vec<String>,
    /// The dimension codec, as NBT bytes.
    pub dimension_codec: Vec<u8>,
    pub dimension: String,
    pub world_name: String,
    pub hashed_seed: i64,
    pub max_players: u8,
    pub view_distance: i32,
    pub reduced_debug: bool,
    pub enable_respawn_screen: bool,
    pub is_debug: bool,
    pub is_flat: bool,
}

impl JoinGamePacket {
    /// The packet for `spec`, with `dimension_codec` (the NBT bytes of the
    /// dimension codec): the previous game mode is the game mode, the world
    /// and dimension are the defaults, and the world is neither a debug nor
    /// a flat one.
    pub fn new(spec: JoinGameSpec, dimension_codec: Vec<u8>) -> (r: Self)
        ensures
            r.entity_id == spec.entity_id,
            r.game_mode == spec.game_mode,
            r.prev_gamemode == spec.game_mode,
            r.worlds@.len() == 1,
            r.worlds@[0]@ == "falcon:world"@,
            r.dimension_codec@ == dimension_codec@,
            r.dimension@ == "minecraft:overworld"@,
            r.world_name@ == "falcon:world"@,
            r.hashed_seed == spec.hashed_seed,
            r.max_players == spec.max_players,
            r.view_distance == spec.view_distance,
            r.reduced_debug == spec.reduced_debug,
            r.enable_respawn_screen == spec.enable_respawn_screen,
            !r.is_debug,
            !r.is_flat,
    {
        JoinGamePacket {
            entity_id: spec.entity_id,
            game_mode: spec.game_mode,
            prev_gamemode: spec.game_mode,
            worlds: init_worlds(),
            dimension_codec,
            dimension: init_dimension(),
            world_name: init_world(),
            hashed_seed: spec.hashed_seed,
            max_players: spec.max_players,
            view_distance: spec.view_distance,
            reduced_debug: spec.reduced_debug,
            enable_respawn_screen: spec.enable_respawn_screen,
            is_debug: false,
            is_flat: false,
        }
    }

    /// The strings of the packet are short enough.
    pub open spec fn fits(&self) -> bool {
        &&& worlds_fit(self.worlds@)
        &&& self.dimension@.len() <= IDENTIFIER_MAX
        &&& self.world_name@.len() <= IDENTIFIER_MAX
    }

    /// The bytes of the packet, when its strings are short enough.
    pub open spec fn wire(&self) -> Seq<u8> {
        self.entity_id.wire() + self.game_mode.wire() + self.prev_gamemode.wire() + VarI32 {
            val: self.worlds@.len() as i32,
        }.wire() + worlds_wire(self.worlds@) + self.dimension_codec@ + str_wire(
            encode_utf8(self.dimension@),
        ) + str_wire(encode_utf8(self.world_name@)) + self.hashed_seed.wire()
            + self.max_players.wire() + VarI32 { val: self.view_distance }.wire()
            + self.reduced_debug.wire() + self.enable_respawn_screen.wire() + self.is_debug.wire()
            + self.is_flat.wire()
    }

    /// Writes the packet; a string longer than [`IDENTIFIER_MAX`] characters
    /// is refused.
    pub fn write(&self, buffer: &mut WriteBuf) -> (r: Result<(), WriteError>)
        ensures
            self.fits() ==> write_outcome(*old(buffer), *final(buffer), self.wire(), r),
            !self.fits() ==> r is Err,
    {
        let ghost b0 = *buffer;
        let r = self.entity_id.write(buffer);
        let ghost d1 = self.entity_id.wire();
        let r = write_next(r, &self.game_mode, buffer, Ghost(b0), Ghost(d1));
        let ghost d2 = d1 + self.game_mode.wire();
        let r = write_next(r, &self.prev_gamemode, buffer, Ghost(b0), Ghost(d2));
        let ghost d3 = d2 + self.prev_gamemode.wire();
        let count = VarI32 { val: worlds_value(&self.worlds) as i32 };
        let r = write_next(r, &count, buffer, Ghost(b0), Ghost(d3));
        let ghost d4 = d3 + VarI32 { val: self.worlds@.len() as i32 }.wire();
        let r = worlds_write_next(r, &self.worlds, buffer, Ghost(b0), Ghost(d4));
        let ghost d5 = d4 + worlds_wire(self.worlds@);
        let r = write_bytes_next(r, self.dimension_codec.as_slice(), buffer, Ghost(b0), Ghost(d5));
        let ghost d6 = d5 + self.dimension_codec@;
        let r = write_next_str(r, IDENTIFIER_MAX, &self.dimension, buffer, Ghost(b0), Ghost(d6));
        let ghost d7 = d6 + str_wire(encode_utf8(self.dimension@));
        let r = write_next_str(r, IDENTIFIER_MAX, &self.world_name, buffer, Ghost(b0), Ghost(d7));
        let ghost d8 = d7 + str_wire(encode_utf8(self.world_name@));
        let r = write_next(r, &self.hashed_seed, buffer, Ghost(b0), Ghost(d8));
        let ghost d9 = d8 + self.hashed_seed.wire();
        let r = write_next(r, &self.max_players, buffer, Ghost(b0), Ghost(d9));
        let ghost d10 = d9 + self.max_players.wire();
        let r = write_next(r, &VarI32 { val: self.view_distance }, buffer, Ghost(b0), Ghost(d10));
        let ghost d11 = d10 + VarI32 { val: self.view_distance }.wire();
        let r = write_next(r, &self.reduced_debug, buffer, Ghost(b0), Ghost(d11));
        let ghost d12 = d11 + self.reduced_debug.wire();
        let r = write_next(r, &self.enable_respawn_screen, buffer, Ghost(b0), Ghost(d12));
        let ghost d13 = d12 + self.enable_respawn_screen.wire();
        let r = write_next(r, &self.is_debug, buffer, Ghost(b0), Ghost(d13));
        let ghost d14 = d13 + self.is_debug.wire();
        write_next(r, &self.is_flat, buffer, Ghost(b0), Ghost(d14))
    }
}

/// The value of the elements of `chunk` laid side by side, `bits` bits each,
/// the first at the lowest bits.
pub open spec fn packed_value(chunk: Seq<u64>, bits: u64) -> int
    decreases chunk.len(),
{
    if chunk.len() == 0 {
        0
    } else {
        packed_value(chunk.drop_last(), bits) + chunk.last() * pow2(((chunk.len() - 1) * bits) as nat)
    }
}

proof fn lemma_or_is_add(x: u64, e: u64, s: u64)
    by (bit_vector)
    requires
        s < 64,
        x < (1u64 << s),
    ensures
        x | (e << s) == x + (e << s),
{
}

/// Elements below 2^bits, as many as fit in a word, OR-ed into a word at
/// `bits` apart: the word is their value laid side by side, and the bits
/// above them are zero.
proof fn lemma_or_pack_value(chunk: Seq<u64>, bits: u64)
    requires
        1 <= bits <= 64,
        chunk.len() * bits <= 64,
        forall|i: int| 0 <= i < chunk.len() ==> #[trigger] chunk[i] < pow2(bits as nat),
    ensures
        or_pack(chunk, bits) == packed_value(chunk, bits),
        or_pack(chunk, bits) < pow2((chunk.len() * bits) as nat),
    decreases chunk.len(),
{
    if chunk.len() == 0 {
        vstd::arithmetic::power2::lemma2_to64();
    } else {
        let init = chunk.drop_last();
        let e = chunk.last();
        assert(e == chunk[chunk.len() - 1]);
        assert(init.len() * bits <= 64 - bits) by (nonlinear_arith)
            requires
                chunk.len() * bits <= 64,
                init.len() + 1 == chunk.len(),
        ;
        lemma_or_pack_value(init, bits);
        let sh = (init.len() * bits) as u64;
        let x = or_pack(init, bits);
        lemma_pow2_adds(sh as nat, bits as nat);
        lemma_pow2_pos(sh as nat);
        lemma_pow2_pos(bits as nat);
        assert(e * pow2(sh as nat) < pow2(bits as nat) * pow2(sh as nat)) by (nonlinear_arith)
            requires
                e < pow2(bits as nat),
                pow2(sh as nat) > 0,
        ;
        assert(pow2((sh + bits) as nat) <= pow2(64)) by {
            if sh + bits < 64 {
                vstd::arithmetic::power2::lemma_pow2_strictly_increases((sh + bits) as nat, 64);
            }
        }
        assert(pow2(64) == 0x1_0000_0000_0000_0000) by {
            vstd::arithmetic::power2::lemma2_to64();
            vstd::arithmetic::power2::lemma2_to64_rest();
        }
        vstd::bits::lemma_u64_pow2_no_overflow(sh as nat);
        assert(chunk.len() * bits == init.len() * bits + bits) by (nonlinear_arith)
            requires
                init.len() + 1 == chunk.len(),
        ;
        lemma_u64_shl_is_mul(e, sh);
        lemma_u64_shl_is_mul(1, sh);
        lemma_or_is_add(x, e, sh);
        assert(x + e * pow2(sh as nat) < pow2((chunk.len() * bits) as nat)) by (nonlinear_arith)
            requires
                x < pow2(sh as nat),
                e + 1 <= pow2(bits as nat),
                pow2((sh + bits) as nat) == pow2(sh as nat) * pow2(bits as nat),
                chunk.len() * bits == sh + bits,
        ;
    }
}

/// The words the elements are packed into, `64 / bits` to a word, for
/// elements below 2^bits: each word is the value of its elements laid side
/// by side, `bits` bits each, the first at the lowest bits, and its bits
/// above them are zero; no element straddles two words.
pub proof fn law_aligned_words_value(elements: Seq<u64>, bits: u64, k: int)
    requires
        1 <= bits <= 64,
        forall|i: int| 0 <= i < elements.len() ==> #[trigger] elements[i] < pow2(bits as nat),
        0 <= k < aligned_words(elements, bits).len(),
    ensures
        ({
            let per = 64int / (bits as int);
            let chunk = elements.subrange(
                k * per,
                if (k + 1) * per < elements.len() {
                    (k + 1) * per
                } else {
                    elements.len() as int
                },
            );
            &&& aligned_words(elements, bits)[k] == packed_value(chunk, bits)
            &&& aligned_words(elements, bits)[k] < pow2((chunk.len() * bits) as nat)
        }),
{
    let per = 64int / (bits as int);
    let n = elements.len() as int;
    assert(per * bits <= 64 && per >= 1) by (nonlinear_arith)
        requires
            per == 64int / (bits as int),
            1 <= bits <= 64,
    ;
    assert(k < (n + per - 1) / per);
    assert(k * per < n) by (nonlinear_arith)
        requires
            0 <= k < (n + per - 1) / per,
            per >= 1,
    ;
    let end = if (k + 1) * per < n {
        (k + 1) * per
    } else {
        n
    };
    assert(end - k * per <= per) by (nonlinear_arith)
        requires
            end == (if (k + 1) * per < n { (k + 1) * per } else { n }),
            k * per < n,
    ;
    assert(0 <= k * per) by (nonlinear_arith)
        requires
            0 <= k,
            per >= 1,
    ;
    assert((k + 1) * per == k * per + per) by (nonlinear_arith);
    assert(k * per <= end <= n);
    let chunk = elements.subrange(k * per, end);
    assert(chunk.len() == end - k * per);
    assert(chunk.len() * bits <= per * bits) by (nonlinear_arith)
        requires
            chunk.len() <= per,
            bits >= 1,
    ;
    assert forall|i: int| 0 <= i < chunk.len() implies #[trigger] chunk[i] < pow2(bits as nat) by {
        assert(chunk[i] == elements[k * per + i]);
    }
    lemma_or_pack_value(chunk, bits);
}

proof fn lemma_packed_stream(chunk: Seq<u64>, bits: u64)
    ensures
        packed_value(chunk, bits) == stream_value(chunk, bits),
    decreases chunk.len(),
{
    if chunk.len() > 0 {
        lemma_packed_stream(chunk.drop_last(), bits);
    }
}

/// No element straddles two words: bit `i` of word `k` is bit `i % bits` of
/// element `k * per + i / bits` (with `per = 64 / bits` elements to a word)
/// where that element is in the word, and zero above the word's elements.
pub proof fn law_aligned_words_bits(elements: Seq<u64>, bits: u64, k: int, i: u64)
    requires
        1 <= bits <= 64,
        forall|e: int| 0 <= e < elements.len() ==> #[trigger] elements[e] < pow2(bits as nat),
        0 <= k < aligned_words(elements, bits).len(),
        i < 64,
    ensures
        ({
            let per = 64int / (bits as int);
            let at = k * per + (i / bits) as int;
            (aligned_words(elements, bits)[k] >> i) & 1u64 == if (i / bits) < per && at < elements.len() {
                (elements[at] >> (i % bits)) & 1u64
            } else {
                0u64
            }
        }),
{
    let per = 64int / (bits as int);
    let n = elements.len() as int;
    law_aligned_words_value(elements, bits, k);
    assert(per * bits <= 64 && per >= 1) by (nonlinear_arith)
        requires
            per == 64int / (bits as int),
            1 <= bits <= 64,
    ;
    assert(k * per < n) by (nonlinear_arith)
        requires
            0 <= k < (n + per - 1) / per,
            per >= 1,
    ;
    assert(0 <= k * per) by (nonlinear_arith)
        requires
            0 <= k,
            per >= 1,
    ;
    assert((k + 1) * per == k * per + per) by (nonlinear_arith);
    let end = if (k + 1) * per < n {
        (k + 1) * per
    } else {
        n
    };
    let chunk = elements.subrange(k * per, end);
    let w = aligned_words(elements, bits)[k];
    let q = (i / bits) as int;
    assert forall|e: int| 0 <= e < chunk.len() implies #[trigger] chunk[e] < pow2(bits as nat) by {
        assert(chunk[e] == elements[k * per + e]);
    }
    lemma_u64_bit(w, i);
    lemma_packed_stream(chunk, bits);
    assert(i == q * bits + i % bits) by {
        vstd::arithmetic::div_mod::lemma_fundamental_div_mod(i as int, bits as int);
    }
    if q < chunk.len() {
        assert(i < chunk.len() * bits) by (nonlinear_arith)
            requires
                i == q * bits + i % bits,
                i % bits < bits,
                q + 1 <= chunk.len(),
        ;
        lemma_stream_bit(chunk, bits, i as nat);
        assert(chunk[q] == elements[k * per + q]);
        assert(q < per && k * per + q < n);
        lemma_u64_bit(elements[k * per + q], i % bits);
    } else {
        assert(chunk.len() * bits <= i) by (nonlinear_arith)
            requires
                i == q * bits + i % bits,
                i % bits >= 0,
                q >= chunk.len(),
                bits >= 1,
        ;
        assert(!(q < per && k * per + q < n));
        lemma_pow2_adds((chunk.len() * bits) as nat, (i - chunk.len() * bits) as nat);
        lemma_pow2_pos((i - chunk.len() * bits) as nat);
        lemma_pow2_pos(i as nat);
        assert(w < pow2(i as nat)) by (nonlinear_arith)
            requires
                w < pow2((chunk.len() * bits) as nat),
                pow2(i as nat) == pow2((chunk.len() * bits) as nat) * pow2((i - chunk.len() * bits) as nat),
                pow2((i - chunk.len() * bits) as nat) > 0,
        ;
        vstd::arithmetic::div_mod::lemma_basic_div(w as int, pow2(i as nat) as int);
    }
}

impl ChunkDataPacket {
    /// The packet ids the chunk data packet is sent with, by protocol version: 0x21 in 735.
    pub fn packet_ids() -> (r: PacketIds)
        ensures
            ids_view(r) == seq![(0x21i32, seq![735i32])],
            r.any_version is None,
    {
        let v0: [i32; 1] = [735];
        proof {
            assert(v0@ =~= seq![735i32]);
        }
        let r = then_id(no_ids(), 0x21, &v0);
        proof {
            assert(ids_view(r) =~= seq![(0x21i32, seq![735i32])]);
        }
        r
    }
}

impl JoinGamePacket {
    /// The packet ids the join game packet is sent with, by protocol version: 0x25 in 735, 736.
    pub fn packet_ids() -> (r: PacketIds)
        ensures
            ids_view(r) == seq![(0x25i32, seq![735i32, 736i32])],
            r.any_version is None,
    {
        let v0: [i32; 2] = [735, 736];
        proof {
            assert(v0@ =~= seq![735i32, 736i32]);
        }
        let r = then_id(no_ids(), 0x25, &v0);
        proof {
            assert(ids_view(r) =~= seq![(0x25i32, seq![735i32, 736i32])]);
        }
        r
    }
}

} // verus!
