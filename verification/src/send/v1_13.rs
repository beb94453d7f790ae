//! Chunk packets of protocol versions 393 to 404 (1.13).

use vstd::prelude::*;
use vstd::arithmetic::power2::{lemma_pow2_adds, lemma_pow2_pos, pow2};
use vstd::bits::{lemma_u64_pow2_no_overflow, lemma_u64_shl_is_mul, lemma_u64_shr_is_div};

use crate::buf::WriteBuf;
use crate::collections::{checked_slice_size, concat_wires, slice_size, write_slice};
use crate::error::WriteError;
use crate::send::fields::{filled, write_bytes_next, write_next, write_slice_next};
use crate::traits::{write_outcome, PacketSize, PacketWrite};
use crate::varint::{lemma_vari32_wire_len, VarI32};
use crate::buf::WriteBuf as Buffer;

use crate::send::ids::{any_version, ids_view, no_ids, then_id, PacketIds};

verus! {

/// The largest number of bits per block a section is sent with.
pub const MAX_BITS_PER_BLOCK: u8 = 14;

/// The number of biome entries of a chunk column.
pub const BIOME_COUNT: usize = 256;

/// The number of bytes of one light array of a section (half a byte per
/// block).
pub const LIGHT_COUNT: usize = 2048;

/// The state of packing elements into 64-bit words where an element may
/// straddle two words: the full words, the word being filled and the bit
/// position in it where the next element starts.
pub open spec fn span_pack(elements: Seq<u64>, bits: u64) -> (Seq<u64>, u64, u64)
    decreases elements.len(),
{
    if elements.len() == 0 {
        (Seq::empty(), 0, 0)
    } else {
        let (words, current, at) = span_pack(elements.drop_last(), bits);
        let e = elements.last();
        if at + bits < 64 {
            (words, current | (e << at), (at + bits) as u64)
        } else {
            let over = (at + bits - 64) as u64;
            let full = current | (e << at);
            (
                words.push(full),
                if over != 0 {
                    e >> ((64 - at) as u64)
                } else {
                    0
                },
                over,
            )
        }
    }
}

/// The elements packed as a stream of bits: element `i` takes up bits
/// `i * bits` to `(i + 1) * bits` of the stream, lowest bits first, and the
/// stream is cut into 64-bit words; a word that is not full is left out.
/// An element wider than `bits` has its extra bits OR-ed into the bits that
/// follow it in its word (and in the next word when it straddles two).
pub open spec fn span_words(elements: Seq<u64>, bits: u64) -> Seq<u64> {
    span_pack(elements, bits).0
}

proof fn lemma_span_at(elements: Seq<u64>, bits: u64)
    requires
        1 <= bits <= 64,
    ensures
        span_pack(elements, bits).2 < 64,
        span_pack(elements, bits).2 + 64 * span_pack(elements, bits).0.len() == elements.len()
            * bits,
    decreases elements.len(),
{
    if elements.len() > 0 {
        lemma_span_at(elements.drop_last(), bits);
        assert(elements.len() * bits == elements.drop_last().len() * bits + bits) by (nonlinear_arith)
            requires
                elements.len() == elements.drop_last().len() + 1,
        ;
    }
}

/// Packs `elements` of `bits_per_element` bits into 64-bit words, an element
/// possibly straddling two words; a last word that is not full is dropped.
/// `capacity` is the number of words to reserve room for.
pub fn build_compacted_data_array(bits_per_element: u8, capacity: u32, elements: &[u64]) -> (r: Vec<u64>)
    requires
        1 <= bits_per_element <= 64,
    ensures
        r@ == span_words(elements@, bits_per_element as u64),
        r@.len() == elements@.len() * bits_per_element / 64,
{
    let mut compacted_data: Vec<u64> = Vec::with_capacity(capacity as usize);
    let mut current_long: u64 = 0;
    let mut offset: u8 = 0;
    let mut pos: u8 = 0;
    let ghost b = bits_per_element as u64;
    let mut i: usize = 0;
    while i < elements.len()
        invariant
            1 <= bits_per_element <= 64,
            b == bits_per_element as u64,
            i <= elements@.len(),
            span_pack(elements@.take(i as int), b) == (compacted_data@, current_long, (pos
                * bits_per_element + offset) as u64),
            pos * bits_per_element + offset < 64,
        decreases elements@.len() - i,
    {
        proof {
            lemma_span_at(elements@.take(i as int), b);
            assert(elements@.take(i + 1).drop_last() =~= elements@.take(i as int));
        }
        let element = elements[i];
        let bit_shift: u8 = pos * bits_per_element + offset;
        let limit: u8 = (64 - bits_per_element as u32) as u8;
        if bit_shift < limit {
            current_long = current_long | (element << bit_shift);
            proof {
                assert(pos <= pos * bits_per_element) by (nonlinear_arith)
                    requires
                        bits_per_element >= 1,
                ;
                assert((pos + 1) * bits_per_element + offset == bit_shift + bits_per_element) by (nonlinear_arith)
                    requires
                        bit_shift == pos * bits_per_element + offset,
                ;
            }
            pos = pos + 1;
        } else {
            offset = bit_shift - limit;
            current_long = current_long | (element << bit_shift);
            compacted_data.push(current_long);
            current_long = 0;
            if offset != 0 {
                let diff = bits_per_element - offset;
                current_long = current_long | (element >> diff);
                proof {
                    assert((0u64 | (element >> diff)) == element >> diff) by (bit_vector);
                }
            }
            pos = 0;
        }
        i = i + 1;
    }
    proof {
        assert(elements@.take(i as int) =~= elements@);
        lemma_span_at(elements@, b);
        assert(compacted_data@.len() == elements@.len() * b / 64) by (nonlinear_arith)
            requires
                span_pack(elements@, b).2 < 64,
                span_pack(elements@, b).2 + 64 * compacted_data@.len() == elements@.len() * b,
        ;
    }
    compacted_data
}

/// Which table of global block ids a section of a 1.13 chunk is written with.
#[derive(Debug, Clone, Copy, PartialEq, Eq, Structural)]
pub enum BlockIdTable {
    /// The ids of data version 1519, used by protocol 393.
    Ids1519,
    /// The ids of protocol versions 401 and 404 (data version 1631).
    Ids1631,
}

/// The table of global block ids for `protocol_version`: that of data version
/// 1631 for protocols 401 and 404, that of data version 1519 for every other.
pub fn block_id_table(protocol_version: i32) -> (r: BlockIdTable)
    ensures
        (r == BlockIdTable::Ids1631) <==> (protocol_version == 401 || protocol_version == 404),
        (r == BlockIdTable::Ids1519) <==> !(protocol_version == 401 || protocol_version == 404),
{
    match protocol_version {
        401 | 404 => BlockIdTable::Ids1631,
        _ => BlockIdTable::Ids1519,
    }
}

/// The number of bits per block a section is sent with, given the number
/// its palette needs: at least four, and the most for direct palettes.
pub fn bits_per_block(actual: u32) -> (r: u8)
    ensures
        actual < 4 ==> r == 4,
        4 <= actual < 9 ==> r == actual,
        actual >= 9 ==> r == MAX_BITS_PER_BLOCK,
{
    if actual < 4 {
        4u8
    } else if actual < 9 {
        actual as u8
    } else {
        MAX_BITS_PER_BLOCK
    }
}

/// One section of a chunk as sent: its bits per block, its palette (absent
/// for a direct palette), its packed blocks, and full block and sky light.
pub struct ChunkSectionData {
    pub bits_per_block: u8,
    pub palette: Option<Vec<i32>>,
    pub block_data: Vec<u64>,
}

/// The palette entries as variable-length integers.
pub open spec fn palette_vars(palette: Seq<i32>) -> Seq<VarI32> {
    Seq::new(palette.len(), |i: int| VarI32 { val: palette[i] })
}

/// A light array with every level at its maximum.
pub open spec fn full_light() -> Seq<u8> {
    Seq::new(LIGHT_COUNT as nat, |i: int| 0xFFu8)
}

/// The bytes of the palette part of a section: its length and entries, or
/// nothing for a direct palette.
pub open spec fn palette_wire(palette: Option<Vec<i32>>) -> Seq<u8> {
    match palette {
        Some(p) => VarI32 { val: p@.len() as i32 }.wire() + concat_wires(palette_vars(p@)),
        None => Seq::empty(),
    }
}

impl ChunkSectionData {
    /// A section with the given bits per block whose blocks are `blocks`
    /// (palette indices, or global ids for a direct palette): the blocks are
    /// packed with the bits per block, or, with more than eight, with
    /// [`MAX_BITS_PER_BLOCK`] bits and no palette (the palette is direct).
    pub fn from_blocks(bits_per_block: u8, blocks: &[u64], palette: Option<Vec<i32>>) -> (r: Self)
        requires
            1 <= bits_per_block <= 64,
        ensures
            r.bits_per_block == bits_per_block,
            bits_per_block > 8 ==> r.palette is None,
            bits_per_block <= 8 ==> r.palette == palette,
            bits_per_block > 8 ==> r.block_data@ == span_words(blocks@, MAX_BITS_PER_BLOCK as u64),
            bits_per_block <= 8 ==> r.block_data@ == span_words(blocks@, bits_per_block as u64),
    {
        let capacity = (4096u32 * bits_per_block as u32) / 64;
        if bits_per_block > 8 {
            let block_data = build_compacted_data_array(MAX_BITS_PER_BLOCK, capacity, blocks);
            ChunkSectionData { bits_per_block, palette: None, block_data }
        } else {
            let block_data = build_compacted_data_array(bits_per_block, capacity, blocks);
            ChunkSectionData { bits_per_block, palette, block_data }
        }
    }
}

/// The palette entries as variable-length integers.
pub(crate) fn to_vars(palette: &Vec<i32>) -> (r: Vec<VarI32>)
    ensures
        r@ == palette_vars(palette@),
{
    let mut out: Vec<VarI32> = Vec::new();
    let mut i: usize = 0;
    while i < palette.len()
        invariant
            i <= palette@.len(),
            out@ == palette_vars(palette@.take(i as int)),
        decreases palette@.len() - i,
    {
        out.push(VarI32 { val: palette[i] });
        i = i + 1;
        proof {
            assert(out@ =~= palette_vars(palette@.take(i as int)));
        }
    }
    proof {
        assert(palette@.take(i as int) =~= palette@);
    }
    out
}

impl ChunkSectionData {
    /// The number of bytes the section takes up, or `None` when that exceeds
    /// what a `usize` counts.
    pub fn checked_size(&self) -> (r: Option<usize>)
        ensures
            match r {
                Some(n) => n == self.wire().len(),
                None => self.wire().len() > usize::MAX,
            },
    {
        let ghost p = palette_wire(self.palette);
        let palette_len: usize = match &self.palette {
            Some(palette) => {
                let vars = to_vars(palette);
                proof {
                    assert forall|i: int| 0 <= i < vars@.len() implies #[trigger] vars@[i].wire().len() <= 5 by {
                        lemma_vari32_wire_len(vars@[i]);
                    }
                    lemma_vari32_wire_len(VarI32 { val: palette.len() as i32 });
                }
                match checked_slice_size(vars.as_slice(), 5) {
                    None => return None,
                    Some(n) => match n.checked_add(VarI32 { val: palette.len() as i32 }.size()) {
                        None => return None,
                        Some(m) => m,
                    },
                }
            },
            None => 0,
        };
        proof {
            assert(palette_len == p.len());
            lemma_vari32_wire_len(VarI32 { val: self.block_data@.len() as i32 });
            assert forall|i: int| 0 <= i < self.block_data@.len() implies #[trigger] self.block_data@[i].wire().len() <= 8 by {
                crate::num::lemma_be_bytes_len(self.block_data@[i] as nat, 8);
            }
        }
        let data = match checked_slice_size(self.block_data.as_slice(), 8) {
            None => return None,
            Some(d) => d,
        };
        let count = VarI32 { val: self.block_data.len() as i32 }.size();
        if palette_len > usize::MAX - 1 - count - LIGHT_COUNT - LIGHT_COUNT {
            return None;
        }
        let head = 1 + palette_len + count + LIGHT_COUNT + LIGHT_COUNT;
        head.checked_add(data)
    }
}

/// The total number of bytes of `sections`, or `None` when that exceeds
/// what a `usize` counts.
pub fn sections_checked_size(sections: &[ChunkSectionData]) -> (r: Option<usize>)
    ensures
        match r {
            Some(n) => n == concat_wires(sections@).len(),
            None => concat_wires(sections@).len() > usize::MAX,
        },
{
    let mut total: usize = 0;
    let mut i: usize = 0;
    while i < sections.len()
        invariant
            i <= sections@.len(),
            total == concat_wires(sections@.take(i as int)).len(),
        decreases sections@.len() - i,
    {
        proof {
            assert(sections@.take(i + 1).drop_last() =~= sections@.take(i as int));
        }
        let n = match sections[i].checked_size() {
            None => {
                proof {
                    crate::collections::lemma_concat_prefix(sections@, i + 1);
                }
                return None;
            },
            Some(n) => n,
        };
        match total.checked_add(n) {
            Some(t) => total = t,
            None => {
                proof {
                    crate::collections::lemma_concat_prefix(sections@, i + 1);
                }
                return None;
            },
        }
        i = i + 1;
    }
    proof {
        assert(sections@.take(i as int) =~= sections@);
    }
    Some(total)
}

impl PacketSize for ChunkSectionData {
    open spec fn wire(&self) -> Seq<u8> {
        self.bits_per_block.wire() + palette_wire(self.palette) + VarI32 {
            val: self.block_data@.len() as i32,
        }.wire() + concat_wires(self.block_data@) + full_light() + full_light()
    }

    fn size(&self) -> (n: usize) {
        let ghost p = palette_wire(self.palette);
        let palette_len: usize = match &self.palette {
            Some(palette) => {
                let vars = to_vars(palette);
                VarI32 { val: palette.len() as i32 }.size() + slice_size(vars.as_slice())
            },
            None => 0,
        };
        proof {
            assert(palette_len == p.len());
        }
        let head = 1 + palette_len;
        let count = VarI32 { val: self.block_data.len() as i32 }.size();
        let data = slice_size(self.block_data.as_slice());
        head + count + data + LIGHT_COUNT + LIGHT_COUNT
    }
}

impl PacketWrite for ChunkSectionData {
    fn write(&self, buffer: &mut WriteBuf) -> (r: Result<(), WriteError>) {
        let ghost b0 = *buffer;
        let r = self.bits_per_block.write(buffer);
        let ghost done = self.bits_per_block.wire();
        let r = match &self.palette {
            Some(palette) => {
                let vars = to_vars(palette);
                let r = write_next(r, &VarI32 { val: palette.len() as i32 }, buffer, Ghost(b0), Ghost(done));
                let ghost d2 = done + VarI32 { val: palette@.len() as i32 }.wire();
                let r = write_slice_next(r, vars.as_slice(), buffer, Ghost(b0), Ghost(d2));
                proof {
                    assert(d2 + concat_wires(vars@) =~= done + palette_wire(self.palette));
                }
                r
            },
            None => {
                proof {
                    assert(done + palette_wire(self.palette) =~= done);
                }
                r
            },
        };
        let ghost d3 = done + palette_wire(self.palette);
        let r = write_next(r, &VarI32 { val: self.block_data.len() as i32 }, buffer, Ghost(b0), Ghost(d3));
        let ghost d4 = d3 + VarI32 { val: self.block_data@.len() as i32 }.wire();
        let r = write_slice_next(r, self.block_data.as_slice(), buffer, Ghost(b0), Ghost(d4));
        let ghost d5 = d4 + concat_wires(self.block_data@);
        let light = filled(0xFF, LIGHT_COUNT);
        let r = write_bytes_next(r, light.as_slice(), buffer, Ghost(b0), Ghost(d5));
        let ghost d6 = d5 + full_light();
        let r = write_bytes_next(r, light.as_slice(), buffer, Ghost(b0), Ghost(d6));
        r
    }
}

/// The bytes of the biome array: every biome id is zero.
pub open spec fn biome_wire() -> Seq<u8> {
    Seq::new((BIOME_COUNT * 4) as nat, |i: int| 0u8)
}

/// Every biome of a chunk column is sent as id zero: 1024 bytes, all zero.
pub proof fn law_biomes_all_zero()
    ensures
        biome_wire().len() == 1024,
        forall|i: int| 0 <= i < 1024 ==> #[trigger] biome_wire()[i] == 0u8,
{
}

/// The number of bytes of the data part of a chunk: its sections, then its
/// biomes.
pub open spec fn data_len(sections: Seq<ChunkSectionData>) -> nat {
    concat_wires(sections).len() + (BIOME_COUNT * 4) as nat
}

/// The length the data part of a chunk is announced with.
pub fn data_value(field: &[ChunkSectionData]) -> (n: usize)
    requires
        data_len(field@) <= usize::MAX,
    ensures
        n == data_len(field@),
{
    data_size(field)
}

/// The number of bytes of the data part of a chunk.
pub fn data_size(field: &[ChunkSectionData]) -> (n: usize)
    requires
        data_len(field@) <= usize::MAX,
    ensures
        n == data_len(field@),
{
    slice_size(field) + BIOME_COUNT * 4
}

/// Writes the data part of a chunk: its sections, then its biomes.
pub fn data_write(field: &[ChunkSectionData], buffer: &mut WriteBuf) -> (r: Result<(), WriteError>)
    ensures
        write_outcome(*old(buffer), *final(buffer), concat_wires(field@) + biome_wire(), r),
{
    let ghost b0 = *buffer;
    let r = write_slice(field, buffer);
    let biomes = filled(0, BIOME_COUNT * 4);
    write_bytes_next(r, biomes.as_slice(), buffer, Ghost(b0), Ghost(concat_wires(field@)))
}

/// The chunk data packet: a whole chunk column with its sections.
pub struct ChunkDataPacket {
    pub chunk_x: i32,
    pub chunk_z: i32,
    pub full_chunk: bool,
    pub bitmask: i32,
    pub size: usize,
    pub sections: Vec<ChunkSectionData>,
    pub block_entity_num: i32,
}

impl ChunkDataPacket {
    /// A full chunk column at `chunk_x`, `chunk_z` with the given sections
    /// and no block entities.
    pub fn new(chunk_x: i32, chunk_z: i32, bitmask: i32, sections: Vec<ChunkSectionData>) -> (r: Self)
        ensures
            r.chunk_x == chunk_x,
            r.chunk_z == chunk_z,
            r.full_chunk,
            r.bitmask == bitmask,
            r.size == 0,
            r.sections == sections,
            r.block_entity_num == 0,
    {
        ChunkDataPacket { chunk_x, chunk_z, full_chunk: true, bitmask, size: 0, sections, block_entity_num: 0 }
    }
}

impl PacketSize for ChunkDataPacket {
    /// The data part is announced with its length (taken as a 32-bit
    /// number), whatever the `size` field holds.
    open spec fn wire(&self) -> Seq<u8> {
        self.chunk_x.wire() + self.chunk_z.wire() + self.full_chunk.wire() + VarI32 {
            val: self.bitmask,
        }.wire() + VarI32 { val: data_len(self.sections@) as i32 }.wire() + concat_wires(
            self.sections@,
        ) + biome_wire() + VarI32 { val: self.block_entity_num }.wire()
    }

    fn size(&self) -> (n: usize) {
        let head = self.chunk_x.size() + self.chunk_z.size() + self.full_chunk.size()
            + VarI32::from(self.bitmask).size();
        let data = data_size(self.sections.as_slice());
        head + VarI32 { val: data as i32 }.size() + data + VarI32::from(self.block_entity_num).size()
    }
}

impl PacketWrite for ChunkDataPacket {
    fn write(&self, buffer: &mut WriteBuf) -> (r: Result<(), WriteError>) {
        let ghost b0 = *buffer;
        let r = self.chunk_x.write(buffer);
        let ghost d1 = self.chunk_x.wire();
        let r = write_next(r, &self.chunk_z, buffer, Ghost(b0), Ghost(d1));
        let ghost d2 = d1 + self.chunk_z.wire();
        let r = write_next(r, &self.full_chunk, buffer, Ghost(b0), Ghost(d2));
        let ghost d3 = d2 + self.full_chunk.wire();
        let r = write_next(r, &VarI32::from(self.bitmask), buffer, Ghost(b0), Ghost(d3));
        let ghost d4 = d3 + VarI32 { val: self.bitmask }.wire();
        let checked = sections_checked_size(self.sections.as_slice());
        let fits = match checked {
            Some(n) => n <= usize::MAX - BIOME_COUNT * 4,
            None => false,
        };
        if !fits {
            let ghost rest = VarI32 { val: data_len(self.sections@) as i32 }.wire()
                + concat_wires(self.sections@) + biome_wire() + VarI32 {
                val: self.block_entity_num,
            }.wire();
            proof {
                Buffer::lemma_limit_bound(b0);
                assert(d4 + rest =~= self.wire());
                assert(rest.len() >= concat_wires(self.sections@).len() + BIOME_COUNT * 4);
                assert(rest.len() > usize::MAX);
            }
            if r.is_err() {
                proof {
                    assert(write_outcome(b0, *buffer, d4, r));
                    crate::traits::lemma_write_fail_first(b0, *buffer, d4, rest, r);
                }
                return r;
            }
            proof {
                crate::traits::lemma_write_stop(b0, *buffer, d4, rest);
            }
            return Err(WriteError::EndOfBuffer);
        }
        let data = match checked {
            Some(n) => n + BIOME_COUNT * 4,
            None => 0,
        };
        let r = write_next(r, &VarI32 { val: data as i32 }, buffer, Ghost(b0), Ghost(d4));
        let ghost d5 = d4 + VarI32 { val: data_len(self.sections@) as i32 }.wire();
        let r = write_slice_next(r, self.sections.as_slice(), buffer, Ghost(b0), Ghost(d5));
        let ghost d6 = d5 + concat_wires(self.sections@);
        let biomes = filled(0, BIOME_COUNT * 4);
        let r = write_bytes_next(r, biomes.as_slice(), buffer, Ghost(b0), Ghost(d6));
        let ghost d7 = d6 + biome_wire();
        write_next(r, &VarI32::from(self.block_entity_num), buffer, Ghost(b0), Ghost(d7))
    }
}

/// The elements laid end to end as one number, `bits` bits each, the first
/// at the lowest bits.
pub open spec fn stream_value(elements: Seq<u64>, bits: u64) -> int
    decreases elements.len(),
{
    if elements.len() == 0 {
        0
    } else {
        stream_value(elements.drop_last(), bits) + elements.last() * pow2(
            ((elements.len() - 1) * bits) as nat,
        )
    }
}

/// The words as one number, the first at the lowest 64 bits.
pub open spec fn words_value(words: Seq<u64>) -> int
    decreases words.len(),
{
    if words.len() == 0 {
        0
    } else {
        words_value(words.drop_last()) + words.last() * pow2(((words.len() - 1) * 64) as nat)
    }
}

proof fn lemma_or_low(x: u64, e: u64, s: u64)
    by (bit_vector)
    requires
        s < 64,
        x < (1u64 << s),
    ensures
        x | (e << s) == x + (e << s),
{
}

proof fn lemma_shl_low(e: u64, at: u64, s: u64)
    by (bit_vector)
    requires
        0 < at < 64,
        s == 64 - at,
    ensures
        e << at == (e & (((1u64 << s) - 1) as u64)) << at,
{
}

/// Shifting `e` left by `at` bits, where it does not fit a word: the word
/// holds its low part, and the bits above are what is shifted out.
proof fn lemma_split_shift(e: u64, at: u64)
    requires
        0 < at < 64,
    ensures
        e * pow2(at as nat) == (e << at) + (e >> ((64 - at) as u64)) * pow2(64),
{
    let s = (64 - at) as u64;
    lemma_u64_pow2_no_overflow(s as nat);
    lemma_u64_pow2_no_overflow(at as nat);
    lemma_u64_shl_is_mul(1, s);
    lemma_shl_low(e, at, s);
    vstd::bits::lemma_u64_low_bits_mask_is_mod(e, s as nat);
    assert(((1u64 << s) - 1) as int == vstd::bits::low_bits_mask(s as nat));
    let lo = e & (((1u64 << s) - 1) as u64);
    let ps = pow2(s as nat);
    assert(lo == (e as nat) % ps);
    lemma_pow2_adds(s as nat, at as nat);
    lemma_pow2_pos(s as nat);
    lemma_pow2_pos(at as nat);
    assert(lo < ps) by {
        vstd::arithmetic::div_mod::lemma_mod_bound(e as int, ps as int);
    }
    assert(lo * pow2(at as nat) < pow2(64)) by (nonlinear_arith)
        requires
            lo < ps,
            pow2(64) == ps * pow2(at as nat),
            pow2(at as nat) > 0,
    ;
    assert(pow2(64) == 0x1_0000_0000_0000_0000) by {
        vstd::arithmetic::power2::lemma2_to64();
        vstd::arithmetic::power2::lemma2_to64_rest();
    }
    lemma_u64_shl_is_mul(lo, at);
    lemma_u64_shr_is_div(e, s);
    vstd::arithmetic::div_mod::lemma_fundamental_div_mod(e as int, ps as int);
    let q = (e as nat) / ps;
    assert(e * pow2(at as nat) == q * pow2(64) + lo * pow2(at as nat)) by (nonlinear_arith)
        requires
            e == ps * q + lo,
            pow2(64) == ps * pow2(at as nat),
    ;
}

/// Packing elements below 2^bits, one straddling two words where it must:
/// the full words and the word being filled hold the elements laid end to
/// end, the word being filled holding no bits past the elements.
proof fn lemma_span_value(elements: Seq<u64>, bits: u64)
    requires
        1 <= bits <= 64,
        forall|i: int| 0 <= i < elements.len() ==> #[trigger] elements[i] < pow2(bits as nat),
    ensures
        stream_value(elements, bits) == words_value(span_pack(elements, bits).0) + span_pack(
            elements,
            bits,
        ).1 * pow2((64 * span_pack(elements, bits).0.len()) as nat),
        span_pack(elements, bits).1 < pow2(span_pack(elements, bits).2 as nat),
    decreases elements.len(),
{
    lemma_span_at(elements, bits);
    if elements.len() == 0 {
        vstd::arithmetic::power2::lemma2_to64();
    } else {
        let init = elements.drop_last();
        let e = elements.last();
        assert(e == elements[elements.len() - 1]);
        assert forall|i: int| 0 <= i < init.len() implies #[trigger] init[i] < pow2(bits as nat) by {
            assert(init[i] == elements[i]);
        }
        lemma_span_value(init, bits);
        lemma_span_at(init, bits);
        let (words, cur, at) = span_pack(init, bits);
        let w = words.len();
        let pw = pow2((64 * w) as nat);
        lemma_pow2_pos((64 * w) as nat);
        lemma_pow2_pos(at as nat);
        lemma_pow2_pos(bits as nat);
        assert((init.len() * bits) == 64 * w + at);
        lemma_pow2_adds((64 * w) as nat, at as nat);
        assert(stream_value(elements, bits) == words_value(words) + pw * (cur + e * pow2(at as nat)))
            by (nonlinear_arith)
            requires
                stream_value(elements, bits) == stream_value(init, bits) + e * pow2(
                    (init.len() * bits) as nat,
                ),
                stream_value(init, bits) == words_value(words) + cur * pw,
                pow2((init.len() * bits) as nat) == pw * pow2(at as nat),
        ;
        lemma_u64_pow2_no_overflow(at as nat);
        lemma_u64_shl_is_mul(1, at);
        lemma_or_low(cur, e, at);
        if at + bits < 64 {
            lemma_pow2_adds(at as nat, bits as nat);
            lemma_u64_pow2_no_overflow((at + bits) as nat);
            assert(e * pow2(at as nat) < pow2((at + bits) as nat)) by (nonlinear_arith)
                requires
                    e < pow2(bits as nat),
                    pow2((at + bits) as nat) == pow2(at as nat) * pow2(bits as nat),
                    pow2(at as nat) > 0,
            ;
            lemma_u64_shl_is_mul(e, at);
            assert(cur + e * pow2(at as nat) < pow2((at + bits) as nat)) by (nonlinear_arith)
                requires
                    cur < pow2(at as nat),
                    e + 1 <= pow2(bits as nat),
                    pow2((at + bits) as nat) == pow2(at as nat) * pow2(bits as nat),
            ;
            let c2 = cur | (e << at);
            assert(c2 == cur + e * pow2(at as nat));
            assert(stream_value(elements, bits) == words_value(words) + c2 * pw) by (nonlinear_arith)
                requires
                    stream_value(elements, bits) == words_value(words) + pw * (cur + e * pow2(at as nat)),
                    c2 == cur + e * pow2(at as nat),
            ;
        } else {
            let over = (at + bits - 64) as u64;
            let full = cur | (e << at);
            let hi: u64 = if over != 0 {
                e >> ((64 - at) as u64)
            } else {
                0
            };
            assert(words.push(full).drop_last() =~= words);
            lemma_pow2_adds((64 * w) as nat, 64);
            assert(words.push(full).last() == full);
            assert((words.push(full).len() - 1) * 64 == 64 * w);
            assert(words_value(words.push(full)) == words_value(words) + full * pw);
            assert(64 * (w + 1) == 64 * w + 64);
            vstd::arithmetic::power2::lemma2_to64();
            if at == 0 {
                assert(bits == 64 && over == 0);
                assert(cur == 0);
                assert(e << 0u64 == e) by (bit_vector);
                assert(0u64 | e == e) by (bit_vector);
                assert(e * pow2(0) == e) by (nonlinear_arith)
                    requires
                        pow2(0) == 1,
                ;
                assert(full == e);
                assert(hi == 0);
                assert(cur + e * pow2(at as nat) == full + hi * pow2(64));
            } else {
                lemma_split_shift(e, at);
                let s = (64 - at) as u64;
                lemma_u64_shr_is_div(e, s);
                lemma_pow2_adds(s as nat, over as nat);
                lemma_pow2_pos(s as nat);
                assert((e as nat) / pow2(s as nat) < pow2(over as nat)) by (nonlinear_arith)
                    requires
                        e < pow2(bits as nat),
                        pow2(bits as nat) == pow2(s as nat) * pow2(over as nat),
                        pow2(s as nat) > 0,
                ;
                assert(e >> s == (e as nat) / pow2(s as nat));
                if over == 0 {
                    assert(pow2(over as nat) == 1) by {
                        vstd::arithmetic::power2::lemma2_to64();
                    }
                    assert((e as nat) / pow2(s as nat) == 0);
                }
                assert(hi == e >> s);
                assert(full == cur + (e << at));
                assert(cur + e * pow2(at as nat) == full + hi * pow2(64));
            }
            assert(hi < pow2(over as nat));
            assert(stream_value(elements, bits) == words_value(words.push(full)) + hi * pow2(
                (64 * (w + 1)) as nat,
            )) by (nonlinear_arith)
                requires
                    stream_value(elements, bits) == words_value(words) + pw * (cur + e * pow2(at as nat)),
                    cur + e * pow2(at as nat) == full + hi * pow2(64),
                    words_value(words.push(full)) == words_value(words) + full * pw,
                    pow2((64 * (w + 1)) as nat) == pw * pow2(64),
            ;
        }
    }
}

/// Elements below 2^bits packed end to end into words, `bits` bits each,
/// an element straddling two words where it must: the words hold the
/// elements' bits in order, lowest first (bit `k` of the stream is bit
/// `k % 64` of word `k / 64`), and the bits left over past the last full
/// word are below what the words hold.
pub proof fn law_span_words_value(elements: Seq<u64>, bits: u64)
    requires
        1 <= bits <= 64,
        forall|i: int| 0 <= i < elements.len() ==> #[trigger] elements[i] < pow2(bits as nat),
    ensures
        stream_value(elements, bits) % (pow2((64 * span_words(elements, bits).len()) as nat) as int) == words_value(
            span_words(elements, bits),
        ),
        span_words(elements, bits).len() == elements.len() * bits / 64,
{
    lemma_span_value(elements, bits);
    lemma_span_at(elements, bits);
    lemma_words_bound(span_pack(elements, bits).0);
    let wv = words_value(span_pack(elements, bits).0);
    let p = pow2((64 * span_pack(elements, bits).0.len()) as nat);
    lemma_pow2_pos((64 * span_pack(elements, bits).0.len()) as nat);
    vstd::arithmetic::div_mod::lemma_mod_multiples_vanish(
        span_pack(elements, bits).1 as int,
        wv,
        p as int,
    );
    vstd::arithmetic::div_mod::lemma_small_mod(wv as nat, p as nat);
    assert(stream_value(elements, bits) == p * span_pack(elements, bits).1 + wv) by (nonlinear_arith)
        requires
            stream_value(elements, bits) == wv + span_pack(elements, bits).1 * p,
    ;
    assert(elements.len() * bits / 64 == span_pack(elements, bits).0.len()) by (nonlinear_arith)
        requires
            span_pack(elements, bits).2 < 64,
            span_pack(elements, bits).2 + 64 * span_pack(elements, bits).0.len() == elements.len()
                * bits,
    ;
}

/// The words' value lies below 2^(64 * their number).
/// Bit `k` of the number `x`.
pub open spec fn bit_at(x: int, k: nat) -> int {
    (x / (pow2(k) as int)) % 2
}

pub(crate) proof fn lemma_stream_bound(elements: Seq<u64>, bits: u64)
    requires
        forall|i: int| 0 <= i < elements.len() ==> #[trigger] elements[i] < pow2(bits as nat),
    ensures
        0 <= stream_value(elements, bits) < pow2((elements.len() * bits) as nat),
    decreases elements.len(),
{
    if elements.len() == 0 {
        vstd::arithmetic::power2::lemma2_to64();
    } else {
        let init = elements.drop_last();
        assert forall|i: int| 0 <= i < init.len() implies #[trigger] init[i] < pow2(bits as nat) by {
            assert(init[i] == elements[i]);
        }
        lemma_stream_bound(init, bits);
        let a = (init.len() * bits) as nat;
        lemma_pow2_adds(a, bits as nat);
        lemma_pow2_pos(a);
        assert(elements.last() == elements[elements.len() - 1]);
        assert((elements.len() * bits) as nat == a + bits) by (nonlinear_arith)
            requires
                elements.len() == init.len() + 1,
                a == init.len() * bits,
        ;
        assert(((elements.len() - 1) * bits) as nat == a);
        assert(stream_value(elements, bits) < pow2((elements.len() * bits) as nat)) by (nonlinear_arith)
            requires
                stream_value(elements, bits) == stream_value(init, bits) + elements.last() * pow2(a),
                0 <= stream_value(init, bits) < pow2(a),
                elements.last() < pow2(bits as nat),
                pow2((elements.len() * bits) as nat) == pow2(a) * pow2(bits as nat),
        ;
    }
}

/// Bit `k` of `x + y * 2^a`, for `k < a`, is that of `x`.
proof fn lemma_bit_low(x: int, y: int, a: nat, k: nat)
    requires
        0 <= x,
        0 <= y,
        k < a,
    ensures
        bit_at(x + y * pow2(a), k) == bit_at(x, k),
{
    let q = pow2(k) as int;
    let r = pow2((a - k - 1) as nat) as int;
    lemma_pow2_pos(k);
    lemma_pow2_adds(k, (a - k) as nat);
    lemma_pow2_adds(1, (a - k - 1) as nat);
    vstd::arithmetic::power2::lemma2_to64();
    let j = 2 * (y * r);
    assert(y * pow2(a) == j * q) by (nonlinear_arith)
        requires
            pow2(a) == q * pow2((a - k) as nat),
            pow2((a - k) as nat) == 2 * r,
            j == 2 * (y * r),
    ;
    vstd::arithmetic::div_mod::lemma_hoist_over_denominator(x, j, q as nat);
    vstd::arithmetic::div_mod::lemma_mod_multiples_vanish(y * r, x / q, 2);
}

/// Bit `k` of the elements laid side by side, `bits` apart, is bit
/// `k % bits` of element `k / bits`.
pub(crate) proof fn lemma_stream_bit(elements: Seq<u64>, bits: u64, k: nat)
    requires
        1 <= bits,
        forall|i: int| 0 <= i < elements.len() ==> #[trigger] elements[i] < pow2(bits as nat),
        k < elements.len() * bits,
    ensures
        bit_at(stream_value(elements, bits), k) == bit_at(elements[(k / (bits as nat)) as int] as int, k % (bits as nat)),
    decreases elements.len(),
{
    assert(elements.len() > 0) by (nonlinear_arith)
        requires
            k < elements.len() * bits,
    ;
    let n = elements.len() as int;
    let init = elements.drop_last();
    assert forall|i: int| 0 <= i < init.len() implies #[trigger] init[i] < pow2(bits as nat) by {
        assert(init[i] == elements[i]);
    }
    lemma_stream_bound(init, bits);
    let a = ((n - 1) * bits) as nat;
    assert(init.len() * bits == a);
    let x = stream_value(init, bits);
    let y = elements.last() as int;
    assert(stream_value(elements, bits) == x + y * pow2(a));
    if k < a {
        lemma_bit_low(x, y, a, k);
        assert(k / (bits as nat) < n - 1) by (nonlinear_arith)
            requires
                k < (n - 1) * bits,
                bits >= 1,
        ;
        lemma_stream_bit(init, bits, k);
        assert(init[(k / (bits as nat)) as int] == elements[(k / (bits as nat)) as int]);
    } else {
        let j = (k - a) as nat;
        assert(j < bits) by (nonlinear_arith)
            requires
                k < n * bits,
                a == (n - 1) * bits,
                j == k - a,
        ;
        lemma_pow2_adds(a, j);
        lemma_pow2_pos(a);
        lemma_pow2_pos(j);
        let p = pow2(a) as int;
        vstd::arithmetic::div_mod::lemma_div_denominator(x + y * p, p, pow2(j) as int);
        vstd::arithmetic::div_mod::lemma_div_multiples_vanish_fancy(y, x, p);
        assert(p * y + x == x + y * p) by (nonlinear_arith);
        vstd::arithmetic::div_mod::lemma_fundamental_div_mod_converse(k as int, bits as int, n - 1, j as int);
        assert(elements[n - 1] == elements.last());
    }
}

/// Bit `k` of `x` below `2^m`, for `k < m`, is that of `x` itself.
proof fn lemma_bit_mod(x: int, m: nat, k: nat)
    requires
        0 <= x,
        k < m,
    ensures
        bit_at(x % (pow2(m) as int), k) == bit_at(x, k),
{
    lemma_pow2_pos(m);
    let mm = pow2(m) as int;
    vstd::arithmetic::div_mod::lemma_fundamental_div_mod(x, mm);
    let r = x % mm;
    let q = x / mm;
    assert(0 <= r && 0 <= q) by {
        vstd::arithmetic::div_mod::lemma_mod_bound(x, mm);
        vstd::arithmetic::div_mod::lemma_div_pos_is_pos(x, mm);
    }
    assert(x == r + q * mm) by (nonlinear_arith)
        requires
            x == mm * q + r,
    ;
    lemma_bit_low(r, q, m, k);
}

proof fn lemma_words_stream(words: Seq<u64>)
    ensures
        words_value(words) == stream_value(words, 64),
    decreases words.len(),
{
    if words.len() > 0 {
        lemma_words_stream(words.drop_last());
    }
}

/// A bit of a `u64` read by shifting and masking is the bit of its value.
pub(crate) proof fn lemma_u64_bit(w: u64, s: u64)
    requires
        s < 64,
    ensures
        (w >> s) & 1u64 == bit_at(w as int, s as nat),
{
    lemma_u64_shr_is_div(w, s);
    let z = w >> s;
    assert(z & 1u64 == z % 2) by (bit_vector);
}

/// The elements are packed end to end, least significant bit first, across
/// word boundaries: bit `k` of the words (bit `k % 64` of word `k / 64`) is
/// bit `k % bits` of element `k / bits`, for every bit of every word.
pub proof fn law_span_words_bits(elements: Seq<u64>, bits: u64, k: nat)
    requires
        1 <= bits <= 64,
        forall|i: int| 0 <= i < elements.len() ==> #[trigger] elements[i] < pow2(bits as nat),
        k < 64 * span_words(elements, bits).len(),
    ensures
        (span_words(elements, bits)[(k / 64) as int] >> ((k % 64) as u64)) & 1u64 == (elements[(k / (bits as nat)) as int]
            >> ((k % (bits as nat)) as u64)) & 1u64,
{
    let ws = span_words(elements, bits);
    law_span_words_value(elements, bits);
    lemma_stream_bound(elements, bits);
    lemma_bit_mod(stream_value(elements, bits), (64 * ws.len()) as nat, k);
    lemma_words_stream(ws);
    vstd::arithmetic::power2::lemma2_to64();
    vstd::arithmetic::power2::lemma2_to64_rest();
    assert forall|i: int| 0 <= i < ws.len() implies #[trigger] ws[i] < pow2(64) by {}
    lemma_stream_bit(ws, 64, k);
    assert(k < elements.len() * bits) by (nonlinear_arith)
        requires
            k < 64 * ws.len(),
            ws.len() == elements.len() * bits / 64,
            bits >= 1,
    ;
    lemma_stream_bit(elements, bits, k);
    lemma_u64_bit(ws[(k / 64) as int], (k % 64) as u64);
    assert(k % (bits as nat) < bits) by (nonlinear_arith)
        requires
            bits >= 1,
    ;
    lemma_u64_bit(elements[(k / (bits as nat)) as int], (k % (bits as nat)) as u64);
}

proof fn lemma_words_bound(words: Seq<u64>)
    ensures
        0 <= words_value(words) < pow2((64 * words.len()) as nat),
    decreases words.len(),
{
    if words.len() == 0 {
        vstd::arithmetic::power2::lemma2_to64();
    } else {
        let init = words.drop_last();
        lemma_words_bound(init);
        lemma_pow2_adds((64 * init.len()) as nat, 64);
        lemma_pow2_pos((64 * init.len()) as nat);
        assert(pow2(64) == 0x1_0000_0000_0000_0000) by {
            vstd::arithmetic::power2::lemma2_to64();
            vstd::arithmetic::power2::lemma2_to64_rest();
        }
        assert(words_value(words) < pow2((64 * words.len()) as nat)) by (nonlinear_arith)
            requires
                words_value(words) == words_value(init) + words.last() * pow2((64 * init.len()) as nat),
                words_value(init) < pow2((64 * init.len()) as nat),
                words.last() < pow2(64),
                pow2((64 * words.len()) as nat) == pow2((64 * init.len()) as nat) * pow2(64),
                words.len() == init.len() + 1,
        ;
    }
}

impl ChunkDataPacket {
    /// The packet ids the chunk data packet is sent with, by protocol version: 0x22 in 393, 401, 404.
    pub fn packet_ids() -> (r: PacketIds)
        ensures
            ids_view(r) == seq![(0x22i32, seq![393i32, 401i32, 404i32])],
            r.any_version is None,
    {
        let v0: [i32; 3] = [393, 401, 404];
        proof {
            assert(v0@ =~= seq![393i32, 401i32, 404i32]);
        }
        let r = then_id(no_ids(), 0x22, &v0);
        proof {
            assert(ids_view(r) =~= seq![(0x22i32, seq![393i32, 401i32, 404i32])]);
        }
        r
    }
}

} // verus!
