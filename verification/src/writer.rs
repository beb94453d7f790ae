//! Framing outgoing packets for a connection.
//!
//! Each packet is preceded by its length as a variable-length integer padded
//! to three bytes, so that the header can be filled in once the packet is
//! complete. With compression enabled the frame also holds the length of
//! the packet before compression (zero for packets below the threshold).

use vstd::prelude::*;

use bytes::Bytes;

use crate::ext::{
    bytes_view, zlib_compressed, zlib_decompressed, zlib_stream_finish, zlib_stream_level,
    zlib_stream_new, zlib_stream_pieces, zlib_stream_write,
};
use crate::reader::{BUF_LEN, MAX_PACKET_LEN};
use crate::util::{drop_front, extend_bytes};
use crate::varint::{bits32, varint_wire};

verus! {

/// The zlib compression level packets are compressed with.
pub const COMPRESSION_LEVEL: u32 = 7;

/// How many lengths the header of the packet being written holds.
#[derive(Debug, Clone, Copy, PartialEq, Eq)]
pub enum WriteLength {
    /// The frame length only.
    One,
    /// The frame length and the length before compression.
    Two,
}

/// The bytes a three-byte slot holds after the variable-length encoding of
/// `u` was written over `slot`: an encoding shorter than three bytes gets the
/// continuation bit on its last byte, so that the untouched placeholder
/// bytes after it still belong to the number.
pub open spec fn patched_varint(slot: Seq<u8>, u: nat) -> Seq<u8> {
    let w = varint_wire(u);
    if w.len() < 3 {
        w.drop_last().push((w.last() + 128) as u8) + slot.skip(w.len() as int)
    } else {
        w + slot.skip(w.len() as int)
    }
}

/// The number `u` as a variable-length integer of exactly three bytes.
pub open spec fn varint3(u: nat) -> Seq<u8> {
    seq![(u % 128 + 128) as u8, ((u / 128) % 128 + 128) as u8, (u / 16384) as u8]
}

/// The placeholder a header slot starts as.
pub open spec fn placeholder() -> Seq<u8> {
    seq![0x80u8, 0x80u8, 0x00u8]
}

proof fn lemma_wire_small(u: nat)
    requires
        u < 0x20_0000,
    ensures
        u < 128 ==> varint_wire(u) == seq![u as u8],
        128 <= u < 16384 ==> varint_wire(u) == seq![(u % 128 + 128) as u8, (u / 128) as u8],
        16384 <= u ==> varint_wire(u) == seq![
            (u % 128 + 128) as u8,
            ((u / 128) % 128 + 128) as u8,
            (u / 16384) as u8,
        ],
{
    reveal_with_fuel(varint_wire, 4);
    if u >= 128 {
        assert(u / 128 / 128 == u / 16384) by {
            vstd::arithmetic::div_mod::lemma_div_denominator(u as int, 128, 128);
        }
    }
}

/// Writing a number below `2^21` over the placeholder gives its three-byte
/// encoding.
pub proof fn lemma_patched_placeholder(u: nat)
    requires
        u <= MAX_PACKET_LEN,
    ensures
        patched_varint(placeholder(), u) == varint3(u),
{
    lemma_wire_small(u);
    let w = varint_wire(u);
    if u < 128 {
        assert(patched_varint(placeholder(), u) =~= varint3(u));
    } else if u < 16384 {
        assert(u / 16384 == 0);
        assert((u / 128) % 128 == u / 128);
        assert(patched_varint(placeholder(), u) =~= varint3(u));
    } else {
        assert(patched_varint(placeholder(), u) =~= varint3(u));
    }
}

/// Writes `value` as a variable-length integer at the front of `buf`; when
/// the encoding is shorter than three bytes its last byte gets the
/// continuation bit, so that the placeholder bytes after it still belong to
/// the number.
pub fn write_var32_unchecked(value: i32, buf: &mut [u8])
    requires
        varint_wire(bits32(value)).len() <= old(buf)@.len(),
    ensures
        final(buf)@ == patched_varint(old(buf)@, bits32(value)),
{
    let mut u: u32 = if value >= 0 {
        value as u32
    } else {
        ((value as i64) + 0x1_0000_0000) as u32
    };
    let ghost u0 = bits32(value);
    let ghost initial = buf@;
    assert(u == u0);
    let mut i: usize = 0;
    loop
        invariant_except_break
            varint_wire(u0) == buf@.take(i as int) + varint_wire(u as nat),
        invariant
            varint_wire(u0).len() <= initial.len(),
            buf@.len() == initial.len(),
            i <= initial.len(),
            forall|k: int| i <= k < initial.len() ==> #[trigger] buf@[k] == initial[k],
        ensures
            varint_wire(u0) == buf@.take(i as int),
            buf@.len() == initial.len(),
            i <= initial.len(),
            forall|k: int| i <= k < initial.len() ==> #[trigger] buf@[k] == initial[k],
        decreases u,
    {
        proof {
            reveal_with_fuel(varint_wire, 2);
        }
        if u < 128 {
            proof {
                assert(i < buf@.len());
            }
            buf[i] = u as u8;
            i = i + 1;
            proof {
                assert(varint_wire(u0) =~= buf@.take(i as int));
            }
            break ;
        }
        proof {
            assert(i < buf@.len());
        }
        buf[i] = (u % 128 + 128) as u8;
        let ghost prev = u;
        u = u / 128;
        i = i + 1;
        proof {
            assert(varint_wire(prev as nat) == seq![(prev % 128 + 128) as u8] + varint_wire(
                u as nat,
            ));
            assert(varint_wire(u0) =~= buf@.take(i as int) + varint_wire(u as nat));
        }
    }
    let ghost w = varint_wire(u0);
    proof {
        assert(w.len() == i);
    }
    if i < 3 {
        let last = buf[i - 1];
        proof {
            assert(last == w.last());
            assert(last < 128) by {
                reveal_with_fuel(varint_wire, 3);
                lemma_wire_last(u0);
            }
        }
        assert((last | 0x80u8) == last + 128) by (bit_vector)
            requires
                last < 128u8,
        ;
        buf[i - 1] = last | 0x80;
        proof {
            assert(buf@ =~= patched_varint(initial, u0));
        }
    } else {
        proof {
            assert(buf@ =~= patched_varint(initial, u0));
        }
    }
}

proof fn lemma_wire_last(u: nat)
    ensures
        varint_wire(u).len() >= 1,
        varint_wire(u).last() < 128,
    decreases u,
{
    if u >= 128 {
        lemma_wire_last(u / 128);
    }
}

/// The state of a [`McWriter`], as contracts speak of it.
pub ghost struct WriterView {
    /// Written bytes not yet moved on.
    pub input: Seq<u8>,
    /// Bytes of the packet being written that are to be compressed, in the
    /// pieces they were handed to the compressor in.
    pub pending: Seq<Seq<u8>>,
    /// Whether the packet being written is compressed.
    pub compressing: bool,
    /// The framed output; the last packet may still be incomplete.
    pub processed: Seq<u8>,
    /// How many bytes at the front of `processed` make up complete packets.
    pub ready: nat,
    /// The header of the packet being written, if one was started.
    pub next_length: Option<WriteLength>,
    /// The compression threshold, when compression is enabled.
    pub compression: Option<i32>,
}

/// The state of a writer that has written nothing.
pub open spec fn fresh_writer(compression: Option<i32>) -> WriterView {
    WriterView {
        input: Seq::empty(),
        pending: Seq::empty(),
        compressing: false,
        processed: Seq::empty(),
        ready: 0,
        next_length: None,
        compression,
    }
}

/// Moving the written bytes on: into the compressor for a compressed packet
/// (as one more piece, when there are any), into the output otherwise.
pub open spec fn moved_on(v: WriterView) -> WriterView {
    if v.compressing {
        WriterView {
            input: Seq::empty(),
            pending: if v.input.len() > 0 {
                v.pending.push(v.input)
            } else {
                v.pending
            },
            ..v
        }
    } else {
        WriterView { input: Seq::empty(), processed: v.processed + v.input, ..v }
    }
}

/// The output of the packet being written, compressed where it is.
pub open spec fn closed_output(v: WriterView) -> Seq<u8> {
    let m = moved_on(v);
    if m.compressing {
        m.processed + zlib_compressed(COMPRESSION_LEVEL, m.pending)
    } else {
        m.processed
    }
}

/// The frame length of the packet being written, once complete.
pub open spec fn frame_len(v: WriterView) -> int {
    closed_output(v).len() - v.ready - 3
}

/// The length before compression of the packet being written.
pub open spec fn data_len(v: WriterView) -> nat {
    if v.compressing {
        moved_on(v).pending.flatten_alt().len()
    } else {
        0
    }
}

/// The lengths of the packet being written fit its header.
pub open spec fn finish_fits(v: WriterView) -> bool {
    v.next_length is Some ==> {
        &&& frame_len(v) <= MAX_PACKET_LEN
        &&& v.next_length == Some(WriteLength::Two) ==> data_len(v) <= MAX_PACKET_LEN
    }
}

/// Completing the packet being written: its bytes are moved on (and
/// compressed), the header slots are filled in and the packet is ready.
pub open spec fn finished(v: WriterView) -> WriterView {
    match v.next_length {
        None => v,
        Some(l) => {
            let out = closed_output(v);
            let p = v.ready as int;
            let first = out.take(p) + patched_varint(out.subrange(p, p + 3), frame_len(v) as nat)
                + out.skip(p + 3);
            let both = match l {
                WriteLength::One => first,
                WriteLength::Two => first.take(p + 3) + patched_varint(
                    first.subrange(p + 3, p + 6),
                    data_len(v),
                ) + first.skip(p + 6),
            };
            WriterView {
                input: Seq::empty(),
                pending: Seq::empty(),
                compressing: false,
                processed: both,
                ready: out.len(),
                next_length: None,
                ..v
            }
        },
    }
}

/// Writing `src`: the bytes go into the window, which is moved on whenever
/// it is full.
pub open spec fn written(v: WriterView, src: Seq<u8>) -> WriterView
    decreases src.len(),
{
    if src.len() == 0 || v.input.len() >= BUF_LEN {
        v
    } else {
        let room = BUF_LEN - v.input.len();
        let cnt: int = if src.len() < room {
            src.len() as int
        } else {
            room
        };
        let v1 = WriterView { input: v.input + src.take(cnt), ..v };
        if v1.input.len() >= BUF_LEN {
            written(moved_on(v1), src.skip(cnt))
        } else {
            written(v1, src.skip(cnt))
        }
    }
}

/// Starting a packet of about `len` bytes (at most the largest packet
/// length): the header slots go out as placeholders.
pub open spec fn started(v: WriterView, len: nat) -> WriterView {
    match v.compression {
        Some(t) => if t <= len {
            WriterView {
                compressing: true,
                processed: v.processed + placeholder() + placeholder(),
                next_length: Some(WriteLength::Two),
                ..v
            }
        } else {
            WriterView {
                processed: v.processed + placeholder() + seq![0u8],
                next_length: Some(WriteLength::One),
                ..v
            }
        },
        None => WriterView {
            processed: v.processed + placeholder(),
            next_length: Some(WriteLength::One),
            ..v
        },
    }
}

/// How many more bytes a writer takes: what its output buffer can still
/// grow by, the output holding at most `isize::MAX` bytes.
pub open spec fn writer_room(v: WriterView) -> nat {
    if v.processed.len() <= isize::MAX {
        (isize::MAX - v.processed.len()) as nat
    } else {
        0
    }
}

/// The zlib stream of `pieces` is not empty and inflates back to their
/// bytes.
pub open spec fn compressed_reads_back(pieces: Seq<Seq<u8>>) -> bool {
    &&& zlib_compressed(COMPRESSION_LEVEL, pieces).len() > 0
    &&& zlib_decompressed(zlib_compressed(COMPRESSION_LEVEL, pieces)) == Some(pieces.flatten_alt())
}

/// A minecraft protocol packet writer.
///
/// A packet is written between [`start_packet`](McWriter::start_packet) and
/// [`finish_packet`](McWriter::finish_packet); the framed packets are then
/// read out with [`chunk`](McWriter::chunk), [`advance`](McWriter::advance)
/// and [`copy_to_bytes`](McWriter::copy_to_bytes). It deals with
/// compression when enabled.
pub struct McWriter {
    input: Vec<u8>,
    pending: Vec<Vec<u8>>,
    compressing: bool,
    processed: Vec<u8>,
    processed_pos: usize,
    next_length: Option<WriteLength>,
    compression: Option<i32>,
}

impl View for McWriter {
    type V = WriterView;

    closed spec fn view(&self) -> WriterView {
        WriterView {
            input: self.input@,
            pending: Seq::new(self.pending@.len(), |i: int| self.pending@[i]@),
            compressing: self.compressing,
            processed: self.processed@,
            ready: self.processed_pos as nat,
            next_length: self.next_length,
            compression: self.compression,
        }
    }
}

impl McWriter {
    /// The writer's internal bookkeeping is consistent.
    pub closed spec fn wf(&self) -> bool {
        &&& self.input@.len() < BUF_LEN
        &&& self.parts_wf()
    }

    /// The bookkeeping is consistent, the window perhaps full.
    closed spec fn parts_wf(&self) -> bool {
        &&& self.input@.len() <= BUF_LEN
        &&& self.processed_pos <= self.processed@.len()
        &&& !self.compressing ==> self.pending@.len() == 0
        &&& self.next_length == Some(WriteLength::One) ==> self.processed_pos + 3
            <= self.processed@.len()
        &&& self.next_length == Some(WriteLength::Two) ==> self.processed_pos + 6
            <= self.processed@.len() && self.compressing
    }

    /// Creates a writer with the given compression threshold, or without
    /// compression.
    pub fn new(compression: Option<i32>) -> (r: Self)
        ensures
            r.wf(),
            r@ == fresh_writer(compression),
    {
        let w = McWriter {
            input: Vec::new(),
            pending: Vec::new(),
            compressing: false,
            processed: Vec::new(),
            processed_pos: 0,
            next_length: None,
            compression,
        };
        proof {
            assert(w@.pending =~= Seq::<Seq<u8>>::empty());
        }
        w
    }

    /// Sets the compression threshold, or disables compression.
    pub fn compression(&mut self, threshold: Option<i32>)
        requires
            old(self).wf(),
        ensures
            final(self).wf(),
            final(self)@ == (WriterView { compression: threshold, ..old(self)@ }),
    {
        self.compression = threshold;
    }

    /// Starts a packet of about `len` bytes: its header goes out as
    /// placeholders. With compression, a packet of at least the threshold
    /// is compressed and its header also holds its length before
    /// compression; a smaller one holds zero there.
    ///
    /// A packet longer than the protocol allows gives
    /// [`InvalidInput`](NetworkError::InvalidInput).
    pub fn start_packet(&mut self, len: usize) -> (r: Result<(), crate::error::NetworkError>)
        requires
            old(self).wf(),
        ensures
            final(self).wf(),
            len > MAX_PACKET_LEN ==> r == Err::<(), crate::error::NetworkError>(
                crate::error::NetworkError::InvalidInput,
            ) && final(self)@ == old(self)@,
            len <= MAX_PACKET_LEN ==> r is Ok && final(self)@ == started(old(self)@, len as nat),
    {
        if len > MAX_PACKET_LEN {
            return Err(crate::error::NetworkError::InvalidInput);
        }
        let ghost before = self.processed@;
        match self.compression {
            Some(threshold) => {
                if threshold <= len as i32 {
                    self.compressing = true;
                    extend_bytes(&mut self.processed, &[0x80, 0x80, 0x00, 0x80, 0x80, 0x00]);
                    self.next_length = Some(WriteLength::Two);
                    proof {
                        assert(self.processed@ =~= before + placeholder() + placeholder());
                    }
                } else {
                    extend_bytes(&mut self.processed, &[0x80, 0x80, 0x00, 0x00]);
                    self.next_length = Some(WriteLength::One);
                    proof {
                        assert(self.processed@ =~= before + placeholder() + seq![0u8]);
                    }
                }
            },
            None => {
                extend_bytes(&mut self.processed, &[0x80, 0x80, 0x00]);
                self.next_length = Some(WriteLength::One);
                proof {
                    assert(self.processed@ =~= before + placeholder());
                }
            },
        }
        Ok(())
    }

    /// Moves the written bytes on.
    fn flush(&mut self)
        requires
            old(self).parts_wf(),
        ensures
            final(self).wf(),
            final(self)@ == moved_on(old(self)@),
    {
        if self.compressing {
            if self.input.len() > 0 {
                let mut chunk: Vec<u8> = Vec::new();
                std::mem::swap(&mut chunk, &mut self.input);
                let ghost before = self@.pending;
                self.pending.push(chunk);
                proof {
                    assert(self@.pending =~= before.push(old(self)@.input));
                }
            }
        } else {
            extend_bytes(&mut self.processed, self.input.as_slice());
        }
        self.input = Vec::new();
    }

    /// Completes the packet being written, filling in its header; nothing
    /// happens when no packet was started.
    pub fn finish_packet(&mut self)
        requires
            old(self).wf(),
            finish_fits(old(self)@),
        ensures
            final(self).wf(),
            final(self)@ == finished(old(self)@),
            old(self)@.next_length is Some && old(self)@.compressing ==> compressed_reads_back(
                moved_on(old(self)@).pending,
            ),
    {
        let r = self.try_finish_packet();
        proof {
            assert(r is Ok);
        }
    }

    /// Completes the packet being written as
    /// [`finish_packet`](McWriter::finish_packet) does, when its lengths fit
    /// its header. When they do not (the packet, compressed where it is,
    /// came out longer than the protocol allows), gives
    /// [`InvalidInput`](NetworkError::InvalidInput) with the written bytes
    /// moved on and the packet left unfinished.
    pub fn try_finish_packet(&mut self) -> (r: Result<(), crate::error::NetworkError>)
        requires
            old(self).wf(),
        ensures
            final(self).wf(),
            r is Ok <==> finish_fits(old(self)@),
            r is Ok ==> final(self)@ == finished(old(self)@),
            r is Err ==> r == Err::<(), crate::error::NetworkError>(
                crate::error::NetworkError::InvalidInput,
            ) && final(self)@ == moved_on(old(self)@),
            old(self)@.next_length is Some && old(self)@.compressing ==> compressed_reads_back(
                moved_on(old(self)@).pending,
            ),
    {
        let length = match self.next_length {
            None => return Ok(()),
            Some(l) => l,
        };
        self.flush();
        let ghost m = self@;
        let pos = self.processed_pos;
        let out: Vec<u8> = if self.compressing {
            zlib_compress(&self.pending)
        } else {
            Vec::new()
        };
        proof {
            assert(old(self)@.next_length == Some(length));
            assert(m == moved_on(old(self)@));
            if m.compressing {
                assert(closed_output(old(self)@) == self.processed@ + out@);
            } else {
                assert(closed_output(old(self)@) == self.processed@);
            }
        }
        let total_in: usize = match length {
            WriteLength::Two => match capped_pieces_len(&self.pending, MAX_PACKET_LEN) {
                Some(n) => n,
                None => return Err(crate::error::NetworkError::InvalidInput),
            },
            WriteLength::One => 0,
        };
        let body = self.processed.len() - pos;
        if out.len() > MAX_PACKET_LEN || body - 3 > MAX_PACKET_LEN - out.len() {
            return Err(crate::error::NetworkError::InvalidInput);
        }
        self.next_length = None;
        if self.compressing {
            extend_bytes(&mut self.processed, out.as_slice());
            self.pending = Vec::new();
            self.compressing = false;
        }
        let ghost full = self.processed@;
        let new_len = self.processed.len();
        let packet_len = new_len - pos;
        proof {
            assert(full == closed_output(old(self)@));
            assert(packet_len - 3 == frame_len(old(self)@));
            lemma_bits32_small((packet_len - 3) as i32);
        }
        let mut slot = vstd::slice::slice_to_vec(vstd::slice::slice_subrange(self.processed.as_slice(), pos, pos + 3));
        write_var32_unchecked((packet_len - 3) as i32, slot.as_mut_slice());
        self.put_at(pos, slot.as_slice());
        let ghost first = self.processed@;
        proof {
            assert(first =~= full.take(pos as int) + patched_varint(
                full.subrange(pos as int, pos + 3),
                frame_len(old(self)@) as nat,
            ) + full.skip(pos + 3));
        }
        match length {
            WriteLength::One => {},
            WriteLength::Two => {
                proof {
                    lemma_bits32_small(total_in as i32);
                    assert(total_in == data_len(old(self)@));
                }
                let mut slot2 = vstd::slice::slice_to_vec(
                    vstd::slice::slice_subrange(self.processed.as_slice(), pos + 3, pos + 6),
                );
                write_var32_unchecked(total_in as i32, slot2.as_mut_slice());
                self.put_at(pos + 3, slot2.as_slice());
                proof {
                    assert(self.processed@ =~= first.take(pos + 3) + patched_varint(
                        first.subrange(pos + 3, pos + 6),
                        data_len(old(self)@),
                    ) + first.skip(pos + 6));
                }
            },
        }
        self.processed_pos = new_len;
        proof {
            assert(self@.processed == finished(old(self)@).processed);
            assert(self@.input == finished(old(self)@).input);
            assert(self@.pending == finished(old(self)@).pending);
            assert(self@.ready == finished(old(self)@).ready);
        }
        Ok(())
    }

    /// Overwrites the output at `at` with `bytes`.
    fn put_at(&mut self, at: usize, bytes: &[u8])
        requires
            at + bytes@.len() <= old(self).processed@.len(),
        ensures
            final(self).processed@ == old(self).processed@.take(at as int) + bytes@
                + old(self).processed@.skip(at + bytes@.len()),
            final(self).input == old(self).input,
            final(self).pending == old(self).pending,
            final(self).compressing == old(self).compressing,
            final(self).processed_pos == old(self).processed_pos,
            final(self).next_length == old(self).next_length,
            final(self).compression == old(self).compression,
    {
        let n = self.processed.len();
        let mut i: usize = 0;
        while i < bytes.len()
            invariant
                n == old(self).processed@.len(),
                at + bytes@.len() <= n,
                i <= bytes@.len(),
                self.processed@.len() == old(self).processed@.len(),
                forall|j: int|
                    0 <= j < self.processed@.len() ==> #[trigger] self.processed@[j] == if at <= j
                        < at + i {
                        bytes@[j - at]
                    } else {
                        old(self).processed@[j]
                    },
                self.input == old(self).input,
                self.pending == old(self).pending,
                self.compressing == old(self).compressing,
                self.processed_pos == old(self).processed_pos,
                self.next_length == old(self).next_length,
                self.compression == old(self).compression,
            decreases bytes@.len() - i,
        {
            self.processed.set(at + i, bytes[i]);
            i = i + 1;
        }
        proof {
            assert(self.processed@ =~= old(self).processed@.take(at as int) + bytes@
                + old(self).processed@.skip(at + bytes@.len()));
        }
    }

    /// How many more bytes can be written: what the output buffer can still
    /// grow by (it holds at most `isize::MAX` bytes). The output counts the
    /// framed bytes so far; bytes still waiting to be compressed do not.
    pub fn remaining_mut(&self) -> (n: usize)
        ensures
            n == writer_room(self@),
    {
        let max = isize::MAX as usize;
        if self.processed.len() <= max {
            max - self.processed.len()
        } else {
            0
        }
    }

    /// Writes bytes of the packet being written; the window is moved on
    /// whenever it is full.
    pub fn put_slice(&mut self, src: &[u8])
        requires
            old(self).wf(),
            src@.len() <= writer_room(old(self)@),
        ensures
            final(self).wf(),
            final(self)@ == written(old(self)@, src@),
    {
        let mut i: usize = 0;
        proof {
            assert(src@.skip(0) =~= src@);
        }
        while i < src.len()
            invariant
                self.wf(),
                i <= src@.len(),
                written(old(self)@, src@) == written(self@, src@.skip(i as int)),
            decreases src@.len() - i,
        {
            let room = BUF_LEN - self.input.len();
            let cnt = if src.len() - i < room {
                src.len() - i
            } else {
                room
            };
            let piece = vstd::slice::slice_subrange(src, i, i + cnt);
            extend_bytes(&mut self.input, piece);
            proof {
                assert(piece@ =~= src@.skip(i as int).take(cnt as int));
                assert(src@.skip(i as int).skip(cnt as int) =~= src@.skip(i + cnt));
            }
            if self.input.len() >= BUF_LEN {
                self.flush();
            }
            i = i + cnt;
        }
    }

    /// Writes one byte of the packet being written.
    pub fn put_u8(&mut self, b: u8)
        requires
            old(self).wf(),
            1 <= writer_room(old(self)@),
        ensures
            final(self).wf(),
            final(self)@ == written(old(self)@, seq![b]),
    {
        let src = [b];
        proof {
            assert(src@ =~= seq![b]);
        }
        self.put_slice(&src);
    }

    /// Writes the byte `val` `cnt` times.
    pub fn put_bytes(&mut self, val: u8, cnt: usize)
        requires
            old(self).wf(),
            cnt <= writer_room(old(self)@),
        ensures
            final(self).wf(),
            final(self)@ == written(old(self)@, Seq::new(cnt as nat, |i: int| val)),
    {
        let mut v: Vec<u8> = Vec::new();
        let mut i: usize = 0;
        while i < cnt
            invariant
                i <= cnt,
                v@ == Seq::new(i as nat, |k: int| val),
            decreases cnt - i,
        {
            v.push(val);
            i = i + 1;
            proof {
                assert(v@ =~= Seq::new(i as nat, |k: int| val));
            }
        }
        self.put_slice(v.as_slice());
    }

    /// How many bytes of complete packets are ready to be sent.
    pub fn remaining(&self) -> (n: usize)
        requires
            self.wf(),
        ensures
            n == self@.ready,
    {
        self.processed_pos
    }

    /// The bytes of complete packets, ready to be sent.
    pub fn chunk(&self) -> (s: &[u8])
        requires
            self.wf(),
        ensures
            s@ == self@.processed.take(self@.ready as int),
    {
        vstd::slice::slice_subrange(self.processed.as_slice(), 0, self.processed_pos)
    }

    /// Drops the first `cnt` ready bytes, once sent.
    pub fn advance(&mut self, cnt: usize)
        requires
            old(self).wf(),
            cnt <= old(self)@.ready,
        ensures
            final(self).wf(),
            final(self)@ == (WriterView {
                processed: old(self)@.processed.skip(cnt as int),
                ready: (old(self)@.ready - cnt) as nat,
                ..old(self)@
            }),
    {
        drop_front(&mut self.processed, cnt);
        self.processed_pos = self.processed_pos - cnt;
    }

    /// Takes the first `len` ready bytes out of the writer.
    pub fn copy_to_bytes(&mut self, len: usize) -> (b: Bytes)
        requires
            old(self).wf(),
            len <= old(self)@.ready,
        ensures
            final(self).wf(),
            bytes_view(b) == old(self)@.processed.take(len as int),
            final(self)@ == (WriterView {
                processed: old(self)@.processed.skip(len as int),
                ready: (old(self)@.ready - len) as nat,
                ..old(self)@
            }),
    {
        let head = vstd::slice::slice_to_vec(vstd::slice::slice_subrange(self.processed.as_slice(), 0, len));
        self.advance(len);
        Bytes::from(head)
    }

    /// Whether no written bytes wait to be moved on.
    pub fn is_input_empty(&self) -> (r: bool)
        ensures
            r == (self@.input.len() == 0),
    {
        self.input.len() == 0
    }

    /// Whether no complete packet waits to be sent.
    pub fn is_output_empty(&self) -> (r: bool)
        ensures
            r == (self@.ready == 0),
    {
        self.processed_pos == 0
    }
}

/// Compresses the bytes of `pieces` into one zlib stream at
/// [`COMPRESSION_LEVEL`], writing the pieces to the compressor one after the
/// other.
pub fn zlib_compress(pieces: &Vec<Vec<u8>>) -> (r: Vec<u8>)
    ensures
        r@ == zlib_compressed(COMPRESSION_LEVEL, Seq::new(pieces@.len(), |i: int| pieces@[i]@)),
        r@.len() > 0,
        zlib_decompressed(r@) == Some(Seq::new(pieces@.len(), |i: int| pieces@[i]@).flatten_alt()),
{
    let ghost all = Seq::new(pieces@.len(), |i: int| pieces@[i]@);
    let mut encoder = zlib_stream_new(COMPRESSION_LEVEL);
    let mut i: usize = 0;
    while i < pieces.len()
        invariant
            i <= pieces@.len(),
            all == Seq::new(pieces@.len(), |i: int| pieces@[i]@),
            zlib_stream_pieces(encoder) == all.take(i as int),
            zlib_stream_level(encoder) == COMPRESSION_LEVEL,
        decreases pieces@.len() - i,
    {
        zlib_stream_write(&mut encoder, pieces[i].as_slice());
        i = i + 1;
        proof {
            assert(zlib_stream_pieces(encoder) =~= all.take(i as int));
        }
    }
    proof {
        assert(all.take(i as int) =~= all);
    }
    zlib_stream_finish(encoder)
}

/// The total length of the pieces, or `None` when it exceeds `cap`.
fn capped_pieces_len(pieces: &Vec<Vec<u8>>, cap: usize) -> (r: Option<usize>)
    ensures
        r is Some <==> Seq::new(pieces@.len(), |i: int| pieces@[i]@).flatten_alt().len() <= cap,
        r is Some ==> r->0 == Seq::new(pieces@.len(), |i: int| pieces@[i]@).flatten_alt().len(),
{
    let ghost all = Seq::new(pieces@.len(), |i: int| pieces@[i]@);
    let mut total: usize = 0;
    let mut i: usize = 0;
    while i < pieces.len()
        invariant
            i <= pieces@.len(),
            all == Seq::new(pieces@.len(), |i: int| pieces@[i]@),
            total <= cap,
            total == all.take(i as int).flatten_alt().len(),
        decreases pieces@.len() - i,
    {
        proof {
            assert(all.take(i + 1).drop_last() =~= all.take(i as int));
            lemma_flatten_prefix(all, i + 1);
        }
        if pieces[i].len() > cap - total {
            return None;
        }
        total = total + pieces[i].len();
        i = i + 1;
    }
    proof {
        assert(all.take(i as int) =~= all);
    }
    Some(total)
}

proof fn lemma_flatten_prefix(s: Seq<Seq<u8>>, i: int)
    requires
        0 <= i <= s.len(),
    ensures
        s.take(i).flatten_alt().len() <= s.flatten_alt().len(),
    decreases s.len(),
{
    if i < s.len() {
        assert(s.drop_last().take(i) =~= s.take(i));
        lemma_flatten_prefix(s.drop_last(), i);
    } else {
        assert(s.take(i) =~= s);
    }
}

proof fn lemma_bits32_small(v: i32)
    requires
        0 <= v <= MAX_PACKET_LEN,
    ensures
        bits32(v) == v,
        varint_wire(v as nat).len() <= 3,
{
    lemma_wire_small(v as nat);
}

} // verus!
