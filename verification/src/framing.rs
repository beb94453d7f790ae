//! What the writer puts on the wire for a packet, and that the reader takes
//! the same packet back out of it.

use vstd::prelude::*;

use crate::error::ReadError;
use crate::ext::{zlib_compressed, zlib_decompressed};
use crate::num::be_bytes;
use crate::reader::{
    drain, extract, flushed, fresh_reader, frame_header, FrameHeader, ReaderView, MAX_PACKET_LEN,
};
use crate::varint::{lemma_decode_wire, lemma_wire_len, pow128, varint_decode, varint_wire};
use crate::writer::{
    compressed_reads_back, finish_fits, COMPRESSION_LEVEL, finished, fresh_writer, moved_on, placeholder, started, varint3, written,
    lemma_patched_placeholder, WriterView,
};
use crate::reader::BUF_LEN;
use crate::stream::{
    appended, lemma_appended_twice, lemma_drain_append, lemma_drain_keeps, lemma_flushed_plain,
    lemma_frame_prefix, lemma_receive_all, receive_all, received_split, single_frame,
};
use crate::reader::{next_outcome, valid_plain, Received};
use crate::ext::bytes_view;
use crate::error::NetworkError;
use bytes::Bytes;

verus! {

/// The frame of a packet with bytes `d`, started with the size estimate
/// `estimate`, on a connection with compression threshold `threshold`:
/// without compression its length and its bytes; with compression, a packet
/// estimated at least the threshold is sent as the frame length, the length
/// before compression and the zlib stream; a smaller one as the frame
/// length, a zero and its bytes. Every length takes three bytes.
pub open spec fn packet_frame(d: Seq<u8>, threshold: Option<i32>, estimate: nat) -> Seq<u8> {
    match threshold {
        None => varint3(d.len()) + d,
        Some(t) => if t <= estimate {
            varint3(3 + zlib_compressed(COMPRESSION_LEVEL, window_pieces(d)).len()) + varint3(d.len())
                + zlib_compressed(COMPRESSION_LEVEL, window_pieces(d))
        } else {
            varint3(d.len() + 1) + seq![0u8] + d
        },
    }
}

/// The pieces the writer hands the packet `d` to the compressor in: one per
/// full window of [`BUF_LEN`] bytes, then what is left.
pub open spec fn window_pieces(d: Seq<u8>) -> Seq<Seq<u8>>
    decreases d.len(),
{
    if d.len() == 0 {
        Seq::empty()
    } else if d.len() <= BUF_LEN {
        seq![d]
    } else {
        seq![d.take(BUF_LEN as int)] + window_pieces(d.skip(BUF_LEN as int))
    }
}

/// The pieces hold the packet's bytes, in order.
pub proof fn lemma_window_pieces_flatten(d: Seq<u8>)
    ensures
        window_pieces(d).flatten_alt() == d,
    decreases d.len(),
{
    window_pieces(d).lemma_flatten_and_flatten_alt_are_equivalent();
    if d.len() == 0 {
    } else if d.len() <= BUF_LEN {
        window_pieces(d).lemma_flatten_singleton();
    } else {
        lemma_window_pieces_flatten(d.skip(BUF_LEN as int));
        window_pieces(d.skip(BUF_LEN as int)).lemma_flatten_and_flatten_alt_are_equivalent();
        vstd::seq_lib::lemma_flatten_concat(
            seq![d.take(BUF_LEN as int)],
            window_pieces(d.skip(BUF_LEN as int)),
        );
        seq![d.take(BUF_LEN as int)].lemma_flatten_singleton();
        assert(d.take(BUF_LEN as int) + d.skip(BUF_LEN as int) =~= d);
    }
}

/// Writing `src` into a compressed packet hands the window's bytes and
/// `src` to the compressor in window-sized pieces.
pub proof fn lemma_written_pieces(v: WriterView, src: Seq<u8>)
    requires
        v.input.len() < BUF_LEN,
        v.compressing,
    ensures
        moved_on(written(v, src)) == (WriterView {
            input: Seq::empty(),
            pending: v.pending + window_pieces(v.input + src),
            ..v
        }),
    decreases src.len(),
{
    if src.len() == 0 {
        assert(v.input + src =~= v.input);
        if v.input.len() == 0 {
            assert(v.pending + window_pieces(v.input) =~= v.pending);
        } else {
            assert(v.pending.push(v.input) =~= v.pending + seq![v.input]);
        }
    } else {
        let room = BUF_LEN - v.input.len();
        let cnt: int = if src.len() < room {
            src.len() as int
        } else {
            room
        };
        let v1 = WriterView { input: v.input + src.take(cnt), ..v };
        let all = v.input + src;
        if v1.input.len() >= BUF_LEN {
            let m = moved_on(v1);
            lemma_written_pieces(m, src.skip(cnt));
            assert(m.input + src.skip(cnt) =~= src.skip(cnt));
            assert(all.take(BUF_LEN as int) =~= v1.input);
            assert(all.skip(BUF_LEN as int) =~= src.skip(cnt));
            if all.len() == BUF_LEN {
                assert(src.skip(cnt) =~= Seq::<u8>::empty());
                assert(all =~= v1.input);
                assert(v.pending.push(v1.input) + window_pieces(Seq::<u8>::empty()) =~= v.pending
                    + window_pieces(all));
            } else {
                assert(v.pending.push(v1.input) + window_pieces(src.skip(cnt)) =~= v.pending
                    + window_pieces(all));
            }
        } else {
            assert(src.skip(cnt) =~= Seq::<u8>::empty());
            lemma_written_pieces(v1, src.skip(cnt));
            assert(v1.input + src.skip(cnt) =~= all);
        }
    }
}

/// Whether `packet_frame` compresses.
pub open spec fn frame_compresses(threshold: Option<i32>, estimate: nat) -> bool {
    match threshold {
        None => false,
        Some(t) => t <= estimate,
    }
}

/// Writing `src` into a packet that is not compressed moves every byte into
/// the output, in order.
pub proof fn lemma_written_moves(v: WriterView, src: Seq<u8>)
    requires
        v.input.len() < BUF_LEN,
        !v.compressing,
    ensures
        moved_on(written(v, src)) == moved_on(WriterView { input: v.input + src, ..v }),
    decreases src.len(),
{
    if src.len() == 0 {
        assert(v.input + src =~= v.input);
    } else {
        let room = BUF_LEN - v.input.len();
        let cnt: int = if src.len() < room {
            src.len() as int
        } else {
            room
        };
        let v1 = WriterView { input: v.input + src.take(cnt), ..v };
        assert(src.take(cnt) + src.skip(cnt) =~= src);
        if v1.input.len() >= BUF_LEN {
            let m = moved_on(v1);
            lemma_written_moves(m, src.skip(cnt));
            assert(m.processed + src.skip(cnt) =~= v.processed + (v.input + src));
        } else {
            lemma_written_moves(v1, src.skip(cnt));
            assert(v1.input + src.skip(cnt) =~= v.input + src);
        }
    }
}

/// A number below `2^21` written in three bytes reads back as itself, with
/// the three bytes consumed.
pub proof fn lemma_decode_varint3(u: nat, rest: Seq<u8>)
    requires
        u <= MAX_PACKET_LEN,
    ensures
        varint_decode(varint3(u) + rest, 5) == Ok::<(nat, nat), ReadError>((u, 3)),
{
    let s = varint3(u) + rest;
    let b0 = (u % 128 + 128) as u8;
    let b1 = ((u / 128) % 128 + 128) as u8;
    let b2 = (u / 16384) as u8;
    assert(u / 16384 < 128);
    assert(s[0] == b0 && s[1] == b1 && s[2] == b2);
    let s1 = s.drop_first();
    let s2 = s1.drop_first();
    assert(s1[0] == b1 && s2[0] == b2);
    assert(varint_decode(s2, 3) == Ok::<(nat, nat), ReadError>(((u / 16384) as nat, 1)));
    assert(u / 16384 == u / 128 / 128) by {
        vstd::arithmetic::div_mod::lemma_div_denominator(u as int, 128, 128);
    }
    assert((u / 128) % 128 + 128 * (u / 16384) == u / 128) by {
        vstd::arithmetic::div_mod::lemma_fundamental_div_mod((u / 128) as int, 128);
    }
    assert(varint_decode(s1, 4) == Ok::<(nat, nat), ReadError>(((u / 128) as nat, 2)));
    assert(u % 128 + 128 * (u / 128) == u) by {
        vstd::arithmetic::div_mod::lemma_fundamental_div_mod(u as int, 128);
    }
}

/// Framing a view whose input is one whole frame: the header is read, then
/// its `expected` bytes, which complete the packet.
proof fn lemma_drain_frame(
    v: ReaderView,
    consumed: usize,
    expected: usize,
    prefix: u32,
    compressed: bool,
)
    requires
        v.expected == 0,
        !v.needs_input,
        !v.compressed,
        v.pending.len() == 0,
        !v.single_packet,
        frame_header(v.input, v.compression, v.single_packet) == (FrameHeader::Start {
            consumed,
            expected,
            prefix,
            compressed,
        }),
        consumed + expected == v.input.len(),
        expected > 0,
    ensures
        drain(v) == (if compressed {
            match zlib_decompressed(v.input.skip(consumed as int)) {
                None => Err(crate::error::NetworkError::InvalidInput),
                Some(p) => Ok(
                    ReaderView {
                        input: Seq::empty(),
                        expected: 0,
                        pending: Seq::empty(),
                        compressed: false,
                        processed: v.processed + be_bytes(prefix as nat, 4) + p,
                        ready: (v.processed + be_bytes(prefix as nat, 4) + p).len(),
                        ..v
                    },
                ),
            }
        } else {
            Ok(
                ReaderView {
                    input: Seq::empty(),
                    expected: 0,
                    processed: v.processed + be_bytes(prefix as nat, 4) + v.input.skip(
                        consumed as int,
                    ),
                    ready: (v.processed + be_bytes(prefix as nat, 4) + v.input.skip(
                        consumed as int,
                    )).len(),
                    ..v
                },
            )
        }),
{
    crate::reader::lemma_frame_header_bounds(v.input, v.compression, v.single_packet);
    let body = v.input.skip(consumed as int);
    let v1 = ReaderView {
        input: body,
        expected: expected as nat,
        compressed: compressed,
        processed: v.processed + be_bytes(prefix as nat, 4),
        ..v
    };
    assert(crate::reader::header_step(v) == Ok::<ReaderView, crate::error::NetworkError>(v1));
    assert(body.take(body.len() as int) =~= body);
    assert(body.skip(body.len() as int) =~= Seq::<u8>::empty());
    assert(v.pending + body =~= body);
    let v2 = crate::reader::data_step(v1);
    assert(drain(v1) == (match v2 {
        Err(e) => Err(e),
        Ok(w) => drain(w),
    }));
}

/// The four-byte length prefix of a packet reads back as its length, and the
/// packet follows it.
proof fn lemma_prefixed(d: Seq<u8>)
    requires
        d.len() <= MAX_PACKET_LEN,
    ensures
        ({
            let p = Seq::<u8>::empty() + be_bytes(d.len(), 4) + d;
            &&& p.len() == 4 + d.len()
            &&& crate::num::be_value(p.take(4)) == d.len()
            &&& p.subrange(4, 4 + d.len() as int) == d
            &&& p.skip(4 + d.len() as int) == Seq::<u8>::empty()
        }),
{
    assert(d.len() < crate::num::pow256(4)) by {
        reveal_with_fuel(crate::num::pow256, 5);
    }
    crate::num::lemma_be_roundtrip(d.len(), 4);
    let p = Seq::<u8>::empty() + be_bytes(d.len(), 4) + d;
    assert(p.take(4) =~= be_bytes(d.len(), 4));
    assert(p.subrange(4, 4 + d.len() as int) =~= d);
    assert(p.skip(4 + d.len() as int) =~= Seq::<u8>::empty());
}

/// The reader view given the whole of `frame` on a fresh connection.
pub open spec fn given_frame(frame: Seq<u8>, compression: bool) -> ReaderView {
    ReaderView { input: frame, needs_input: false, ..fresh_reader(compression, false) }
}

/// `frame` is one whole frame, and a fresh reader takes the packet back out
/// of it.
pub open spec fn reads_back(frame: Seq<u8>, compression: bool, d: Seq<u8>) -> bool {
    &&& single_frame(frame, compression)
    &&& flushed(given_frame(frame, compression)) matches Ok(f) && extract(f).1 == Ok::<
        Option<Seq<u8>>,
        crate::error::NetworkError,
    >(Some(d))
}

/// A reader between frames, plain and outside single packet mode: nothing
/// of a frame is pending and every packet it framed is ready.
pub open spec fn idle_reader(y: ReaderView) -> bool {
    &&& y.input.len() == 0
    &&& y.expected == 0
    &&& !y.compressed
    &&& y.pending.len() == 0
    &&& !y.single_packet
    &&& !y.encrypted
    &&& y.decrypted == 0
    &&& y.corrupted is None
    &&& y.ready == y.processed.len()
}

/// The reader `y` once it framed one more packet `d`: the packet follows
/// what it held, after its length in four bytes, and is ready.
pub open spec fn took_packet(y: ReaderView, d: Seq<u8>) -> ReaderView {
    ReaderView {
        input: Seq::empty(),
        expected: 0,
        needs_input: false,
        pending: Seq::empty(),
        compressed: false,
        processed: y.processed + be_bytes(d.len(), 4) + d,
        ready: (y.processed + be_bytes(d.len(), 4) + d).len(),
        ..y
    }
}

proof fn lemma_drains_plain(y: ReaderView, d: Seq<u8>)
    requires
        idle_reader(y),
        !y.compression,
        0 < d.len() <= MAX_PACKET_LEN,
    ensures
        drain(appended(y, varint3(d.len()) + d)) == Ok::<ReaderView, NetworkError>(took_packet(y, d)),
        single_frame(varint3(d.len()) + d, false),
{
    let frame = varint3(d.len()) + d;
    let r = appended(y, frame);
    lemma_decode_varint3(d.len(), d);
    assert(r.input =~= frame);
    assert(r.pending =~= Seq::<u8>::empty());
    assert(frame.skip(3) =~= d);
    lemma_drain_frame(r, 3, d.len() as usize, d.len() as u32, false);
    assert(drain(r) == Ok::<ReaderView, NetworkError>(took_packet(y, d)));
}

proof fn lemma_drains_small(y: ReaderView, d: Seq<u8>)
    requires
        idle_reader(y),
        y.compression,
        0 < d.len(),
        d.len() + 1 <= MAX_PACKET_LEN,
    ensures
        drain(appended(y, varint3(d.len() + 1) + seq![0u8] + d)) == Ok::<ReaderView, NetworkError>(
            took_packet(y, d),
        ),
        single_frame(varint3(d.len() + 1) + seq![0u8] + d, true),
{
    let frame = varint3(d.len() + 1) + seq![0u8] + d;
    let r = appended(y, frame);
    lemma_decode_varint3(d.len() + 1, seq![0u8] + d);
    assert(frame =~= varint3(d.len() + 1) + (seq![0u8] + d));
    assert(frame.skip(3) =~= seq![0u8] + d);
    assert(varint_decode(seq![0u8] + d, 5) == Ok::<(nat, nat), ReadError>((0, 1)));
    assert(frame.skip(4) =~= d);
    assert(r.input =~= frame);
    assert(r.pending =~= Seq::<u8>::empty());
    lemma_drain_frame(r, 4, d.len() as usize, d.len() as u32, false);
    assert(drain(r) == Ok::<ReaderView, NetworkError>(took_packet(y, d)));
}

proof fn lemma_drains_compressed(y: ReaderView, d: Seq<u8>, c: Seq<u8>)
    requires
        idle_reader(y),
        y.compression,
        0 < d.len() <= MAX_PACKET_LEN,
        0 < c.len(),
        3 + c.len() <= MAX_PACKET_LEN,
        zlib_decompressed(c) == Some(d),
    ensures
        drain(appended(y, varint3(3 + c.len()) + varint3(d.len()) + c)) == Ok::<
            ReaderView,
            NetworkError,
        >(took_packet(y, d)),
        single_frame(varint3(3 + c.len()) + varint3(d.len()) + c, true),
{
    let frame = varint3(3 + c.len()) + varint3(d.len()) + c;
    let r = appended(y, frame);
    lemma_decode_varint3(3 + c.len(), varint3(d.len()) + c);
    assert(frame =~= varint3(3 + c.len()) + (varint3(d.len()) + c));
    assert(frame.skip(3) =~= varint3(d.len()) + c);
    lemma_decode_varint3(d.len(), c);
    assert(frame.skip(6) =~= c);
    assert(r.input =~= frame);
    lemma_drain_frame(r, 6, c.len() as usize, d.len() as u32, true);
    assert(drain(r) == Ok::<ReaderView, NetworkError>(took_packet(y, d)));
}

/// An idle reader frames the frame of a packet `d` (not empty), written with
/// compression threshold `threshold`, by taking the packet; the frame is one
/// whole frame. Where the frame is compressed, this is for a zlib stream
/// that is not empty and inflates back to the packet.
pub proof fn lemma_frame_drains(y: ReaderView, d: Seq<u8>, threshold: Option<i32>, estimate: nat)
    requires
        idle_reader(y),
        y.compression == threshold is Some,
        d.len() > 0,
        packet_fits(d, threshold, estimate),
        frame_compresses(threshold, estimate) ==> compressed_reads_back(window_pieces(d)),
    ensures
        drain(appended(y, packet_frame(d, threshold, estimate))) == Ok::<ReaderView, NetworkError>(
            took_packet(y, d),
        ),
        single_frame(packet_frame(d, threshold, estimate), threshold is Some),
{
    match threshold {
        None => lemma_drains_plain(y, d),
        Some(t) => if t <= estimate {
            lemma_window_pieces_flatten(d);
            lemma_drains_compressed(y, d, zlib_compressed(COMPRESSION_LEVEL, window_pieces(d)));
        } else {
            lemma_drains_small(y, d);
        },
    }
}

/// How the frames a reader receives were made.
pub ghost enum Framing {
    /// By this crate's writer, on a connection with the given compression
    /// threshold.
    Writer(Option<i32>),
    /// Without compression, each packet after its length as the shortest
    /// variable-length integer.
    Plain,
}

impl Framing {
    /// Whether the frames carry the header of compressed connections.
    pub open spec fn compression(self) -> bool {
        match self {
            Framing::Writer(t) => t is Some,
            Framing::Plain => false,
        }
    }
}

/// The frame of the packet `p.0` (started with the estimate `p.1`, which
/// only the writer looks at) made as `framing` says.
pub open spec fn frame_for(framing: Framing, p: (Seq<u8>, nat)) -> Seq<u8> {
    match framing {
        Framing::Writer(t) => packet_frame(p.0, t, p.1),
        Framing::Plain => varint_wire(p.0.len()) + p.0,
    }
}

/// The packet `p.0` goes in a frame of its own made as `framing` says: it is
/// not empty and fits the frame's header, and where the writer compresses
/// it, its zlib stream reads back.
pub open spec fn frame_ok(framing: Framing, p: (Seq<u8>, nat)) -> bool {
    match framing {
        Framing::Writer(t) => p.0.len() > 0 && packet_fits(p.0, t, p.1) && (frame_compresses(t, p.1)
            ==> compressed_reads_back(window_pieces(p.0))),
        Framing::Plain => 0 < p.0.len() <= MAX_PACKET_LEN,
    }
}

proof fn lemma_drains_minimal(y: ReaderView, d: Seq<u8>)
    requires
        idle_reader(y),
        !y.compression,
        0 < d.len() <= MAX_PACKET_LEN,
    ensures
        drain(appended(y, varint_wire(d.len()) + d)) == Ok::<ReaderView, NetworkError>(took_packet(y, d)),
        single_frame(varint_wire(d.len()) + d, false),
{
    let h = varint_wire(d.len());
    let frame = h + d;
    let r = appended(y, frame);
    assert(pow128(3) == 0x20_0000) by {
        reveal_with_fuel(pow128, 4);
    }
    lemma_wire_len(d.len(), 3);
    lemma_decode_wire(d.len(), d, 5);
    assert(r.input =~= frame);
    assert(r.pending =~= Seq::<u8>::empty());
    assert(frame.skip(h.len() as int) =~= d);
    assert(d.len() % 0x1_0000_0000 == d.len());
    lemma_drain_frame(r, h.len() as usize, d.len() as usize, d.len() as u32, false);
    assert(drain(r) == Ok::<ReaderView, NetworkError>(took_packet(y, d)));
}

/// An idle reader frames a frame made as `framing` says by taking its
/// packet; the frame is one whole frame.
pub proof fn lemma_frame_for_drains(y: ReaderView, framing: Framing, p: (Seq<u8>, nat))
    requires
        idle_reader(y),
        y.compression == framing.compression(),
        frame_ok(framing, p),
    ensures
        drain(appended(y, frame_for(framing, p))) == Ok::<ReaderView, NetworkError>(took_packet(y, p.0)),
        single_frame(frame_for(framing, p), framing.compression()),
        0 < p.0.len() <= MAX_PACKET_LEN,
{
    match framing {
        Framing::Writer(t) => lemma_frame_drains(y, p.0, t, p.1),
        Framing::Plain => lemma_drains_minimal(y, p.0),
    }
}

/// A writer between packets: all its output is ready and nothing waits to
/// be moved on or compressed.
pub open spec fn idle_writer(v: WriterView) -> bool {
    &&& v.input.len() == 0
    &&& v.pending.len() == 0
    &&& !v.compressing
    &&& v.next_length is None
    &&& v.ready == v.processed.len()
}

/// What the writer `v` holds after the packet `d` was started with the
/// estimate `estimate` and written.
pub open spec fn wrote_after(v: WriterView, d: Seq<u8>, estimate: nat) -> WriterView {
    written(started(v, estimate), d)
}

/// What a fresh writer holds after the packet `d` was started with the
/// estimate `estimate` and written.
pub open spec fn wrote(d: Seq<u8>, threshold: Option<i32>, estimate: nat) -> WriterView {
    wrote_after(fresh_writer(threshold), d, estimate)
}

/// The writer `v`, once the packet `d` was started, written and finished,
/// holds its output followed by the packet's frame, all ready, and is
/// between packets again.
pub open spec fn appends_frame(v: WriterView, d: Seq<u8>, estimate: nat) -> bool {
    let f = finished(wrote_after(v, d, estimate));
    &&& f.processed == v.processed + packet_frame(d, v.compression, estimate)
    &&& f.ready == f.processed.len()
    &&& idle_writer(f)
    &&& f.compression == v.compression
}

proof fn lemma_wrote_moves(v: WriterView, d: Seq<u8>, estimate: nat)
    requires
        idle_writer(v),
        !frame_compresses(v.compression, estimate),
    ensures
        moved_on(wrote_after(v, d, estimate)) == moved_on(
            WriterView { input: d, ..started(v, estimate) },
        ),
{
    let s = started(v, estimate);
    lemma_written_moves(s, d);
    assert(s.input + d =~= d);
}

proof fn lemma_writer_plain(v: WriterView, d: Seq<u8>, estimate: nat)
    requires
        idle_writer(v),
        v.compression is None,
        finish_fits(wrote_after(v, d, estimate)),
    ensures
        appends_frame(v, d, estimate),
        d.len() <= MAX_PACKET_LEN,
{
    lemma_wrote_moves(v, d, estimate);
    lemma_patched_placeholder(d.len());
    let w = wrote_after(v, d, estimate);
    let p = v.processed.len() as int;
    let out = v.processed + placeholder() + d;
    assert(moved_on(w).processed =~= out);
    assert(out.take(p) =~= v.processed);
    assert(out.subrange(p, p + 3) =~= placeholder());
    assert(out.skip(p + 3) =~= d);
    assert(finished(w).processed =~= v.processed + packet_frame(d, None, estimate));
}

proof fn lemma_writer_small(v: WriterView, d: Seq<u8>, t: i32, estimate: nat)
    requires
        idle_writer(v),
        v.compression == Some(t),
        estimate < t,
        finish_fits(wrote_after(v, d, estimate)),
    ensures
        appends_frame(v, d, estimate),
        d.len() + 1 <= MAX_PACKET_LEN,
{
    lemma_wrote_moves(v, d, estimate);
    lemma_patched_placeholder(d.len() + 1);
    let w = wrote_after(v, d, estimate);
    let p = v.processed.len() as int;
    let out = v.processed + placeholder() + seq![0u8] + d;
    assert(moved_on(w).processed =~= out);
    assert(out.take(p) =~= v.processed);
    assert(out.subrange(p, p + 3) =~= placeholder());
    assert(out.skip(p + 3) =~= seq![0u8] + d);
    assert(finished(w).processed =~= v.processed + packet_frame(d, Some(t), estimate));
}

proof fn lemma_writer_compressed(v: WriterView, d: Seq<u8>, t: i32, estimate: nat)
    requires
        idle_writer(v),
        v.compression == Some(t),
        t <= estimate,
        finish_fits(wrote_after(v, d, estimate)),
    ensures
        appends_frame(v, d, estimate),
        d.len() <= MAX_PACKET_LEN,
        3 + zlib_compressed(COMPRESSION_LEVEL, window_pieces(d)).len() <= MAX_PACKET_LEN,
{
    let s = started(v, estimate);
    lemma_written_pieces(s, d);
    assert(s.input + d =~= d);
    assert(s.pending + window_pieces(d) =~= window_pieces(d));
    lemma_window_pieces_flatten(d);
    let c = zlib_compressed(COMPRESSION_LEVEL, window_pieces(d));
    lemma_patched_placeholder(3 + c.len());
    lemma_patched_placeholder(d.len());
    let w = wrote_after(v, d, estimate);
    assert(moved_on(w).pending == window_pieces(d));
    let p = v.processed.len() as int;
    let out = v.processed + placeholder() + placeholder() + c;
    assert(crate::writer::closed_output(w) =~= out);
    let first = out.take(p) + varint3(3 + c.len()) + out.skip(p + 3);
    assert(out.take(p) =~= v.processed);
    assert(out.subrange(p, p + 3) =~= placeholder());
    assert(first.subrange(p + 3, p + 6) =~= placeholder());
    assert(finished(w).processed =~= v.processed + packet_frame(d, Some(t), estimate));
}

/// The lengths of the frame of `d` fit its three-byte header slots: its
/// frame length, and with compression its length before compression.
pub open spec fn packet_fits(d: Seq<u8>, threshold: Option<i32>, estimate: nat) -> bool {
    match threshold {
        None => d.len() <= MAX_PACKET_LEN,
        Some(t) => if t <= estimate {
            3 + zlib_compressed(COMPRESSION_LEVEL, window_pieces(d)).len() <= MAX_PACKET_LEN && d.len()
                <= MAX_PACKET_LEN
        } else {
            d.len() + 1 <= MAX_PACKET_LEN
        },
    }
}

/// Whether the packet fits does not depend on what the writer wrote before.
pub proof fn lemma_fits_anywhere(v: WriterView, d: Seq<u8>, estimate: nat)
    requires
        idle_writer(v),
    ensures
        finish_fits(wrote_after(v, d, estimate)) == packet_fits(d, v.compression, estimate),
{
    let w = wrote_after(v, d, estimate);
    let p = v.processed.len() as int;
    if frame_compresses(v.compression, estimate) {
        let s = started(v, estimate);
        lemma_written_pieces(s, d);
        assert(s.input + d =~= d);
        assert(s.pending + window_pieces(d) =~= window_pieces(d));
        lemma_window_pieces_flatten(d);
        let c = zlib_compressed(COMPRESSION_LEVEL, window_pieces(d));
        assert(crate::writer::closed_output(w) =~= v.processed + placeholder() + placeholder() + c);
        assert(crate::writer::frame_len(w) == 3 + c.len());
        assert(crate::writer::data_len(w) == d.len());
    } else {
        lemma_wrote_moves(v, d, estimate);
        match v.compression {
            None => {
                assert(crate::writer::closed_output(w) =~= v.processed + placeholder() + d);
            },
            Some(t) => {
                assert(crate::writer::closed_output(w) =~= v.processed + placeholder() + seq![0u8]
                    + d);
            },
        }
    }
}

/// The writer `v` between packets frames the packet `d` as
/// [`packet_frame`], after what it already holds.
pub proof fn lemma_writer_appends(v: WriterView, d: Seq<u8>, estimate: nat)
    requires
        idle_writer(v),
        finish_fits(wrote_after(v, d, estimate)),
    ensures
        appends_frame(v, d, estimate),
        d.len() <= MAX_PACKET_LEN,
        frame_compresses(v.compression, estimate) ==> 3 + zlib_compressed(COMPRESSION_LEVEL, window_pieces(d)).len()
            <= MAX_PACKET_LEN,
        !frame_compresses(v.compression, estimate) && v.compression is Some ==> d.len() + 1
            <= MAX_PACKET_LEN,
{
    match v.compression {
        None => lemma_writer_plain(v, d, estimate),
        Some(t) => if t <= estimate {
            lemma_writer_compressed(v, d, t, estimate);
        } else {
            lemma_writer_small(v, d, t, estimate);
        },
    }
}

/// A packet goes through the writer and comes back out of the reader.
///
/// A fresh writer with compression threshold `threshold` frames the packet
/// `d`, started with the estimate `estimate`, as [`packet_frame`]. A fresh
/// reader with compression enabled exactly when the writer has it, given
/// that frame, frames it and hands out `d` as the first packet. This holds
/// for packets that are not empty (an empty packet only becomes ready once
/// the packet after it is complete); where the frame is compressed, for a
/// zlib stream that reads back ([`compressed_reads_back`]), as the
/// writer's [`finish_packet`](crate::writer::McWriter::finish_packet)
/// ensures of the stream it compresses (its pieces hold the packet,
/// [`lemma_window_pieces_flatten`]).
pub proof fn law_frame_roundtrip(d: Seq<u8>, threshold: Option<i32>, estimate: nat)
    requires
        estimate <= MAX_PACKET_LEN,
        d.len() > 0,
    ensures
        finish_fits(wrote(d, threshold, estimate)) ==> finished(
            wrote(d, threshold, estimate),
        ).processed == packet_frame(d, threshold, estimate) && finished(
            wrote(d, threshold, estimate),
        ).ready == packet_frame(d, threshold, estimate).len(),
        finish_fits(wrote(d, threshold, estimate)) && (frame_compresses(threshold, estimate) ==> compressed_reads_back(window_pieces(d))) ==> reads_back(
            packet_frame(d, threshold, estimate),
            threshold is Some,
            d,
        ),
{
    let v = fresh_writer(threshold);
    if finish_fits(wrote(d, threshold, estimate)) {
        lemma_writer_appends(v, d, estimate);
        lemma_fits_anywhere(v, d, estimate);
        assert(Seq::<u8>::empty() + packet_frame(d, threshold, estimate) =~= packet_frame(
            d,
            threshold,
            estimate,
        ));
        if frame_compresses(threshold, estimate) ==> compressed_reads_back(window_pieces(d)) {
            let c = threshold is Some;
            let y = fresh_reader(c, false);
            let frame = packet_frame(d, threshold, estimate);
            lemma_frame_drains(y, d, threshold, estimate);
            assert(given_frame(frame, c) == appended(y, frame));
            crate::stream::lemma_flushed_plain(appended(y, frame));
            lemma_prefixed(d);
        }
    }
}

/// A packet goes through the writer and comes back out of the reader,
/// however its frame is cut into the pieces the reader receives.
///
/// A fresh writer with compression threshold `threshold` frames the packet
/// `d` (not empty) as [`packet_frame`] ([`law_frame_roundtrip`]). A fresh
/// reader (plain, outside single packet mode, with compression enabled
/// exactly when the writer has it) that receives that frame in any pieces,
/// one [`put_slice`](crate::reader::McReader::put_slice) call each, is not
/// corrupted, and asked for the next packet it hands out `d`. Where the
/// frame is compressed, this is for a zlib stream that reads back
/// ([`compressed_reads_back`]), as the writer ensures of the stream it
/// compresses.
pub proof fn law_frame_roundtrip_any_cut(
    d: Seq<u8>,
    threshold: Option<i32>,
    estimate: nat,
    pieces: Seq<Seq<u8>>,
)
    requires
        estimate <= MAX_PACKET_LEN,
        d.len() > 0,
        finish_fits(wrote(d, threshold, estimate)),
        frame_compresses(threshold, estimate) ==> compressed_reads_back(window_pieces(d)),
        pieces.flatten_alt() == packet_frame(d, threshold, estimate),
    ensures
        receive_all(fresh_reader(threshold is Some, false), pieces) matches Received::Ready(w)
            && w.corrupted is None && forall|
            plain: Seq<u8>,
            new: ReaderView,
            r: Result<Option<Bytes>, NetworkError>,
        |
            valid_plain(w, plain) && #[trigger] next_outcome(w, plain, new, r) ==> (r matches Ok(
                Some(b),
            ) && bytes_view(b) == d),
{
    let c = threshold is Some;
    let z = fresh_reader(c, false);
    let frame = packet_frame(d, threshold, estimate);
    law_frame_roundtrip(d, threshold, estimate);
    assert(reads_back(frame, c, d));
    let f = flushed(given_frame(frame, c))->Ok_0;
    assert(given_frame(frame, c) == appended(z, frame));
    lemma_flushed_plain(appended(z, frame));
    assert(drain(appended(z, frame)) == Ok::<ReaderView, NetworkError>(f));
    assert(f.ready > 0);
    lemma_receive_all(z, pieces);
    let w = receive_all(z, pieces)->Ready_0;
    let (k, u) = choose|k: int, u: ReaderView| received_split(z, frame, k, u, w);
    let x = appended(z, frame.take(k));
    lemma_drain_keeps(x);
    if k == frame.len() {
        assert(frame.take(k) =~= frame);
        assert(w == f);
    } else {
        lemma_frame_prefix(z, frame, k);
        lemma_drain_append(x, frame.skip(k));
        lemma_appended_twice(z, frame.take(k), frame.skip(k));
        assert(frame.take(k) + frame.skip(k) =~= frame);
        assert(drain(w) == Ok::<ReaderView, NetworkError>(f));
        lemma_flushed_plain(w);
        assert forall|plain: Seq<u8>, new: ReaderView, r: Result<Option<Bytes>, NetworkError>|
            valid_plain(w, plain) && #[trigger] next_outcome(w, plain, new, r) implies (r matches Ok(
                Some(b),
            ) && bytes_view(b) == d) by {
            assert(plain =~= w.input.skip(0));
            assert(crate::reader::decrypt_with(w, plain) == w);
        }
    }
}

} // verus!
