//! Packets framed one after the other, by this crate's writer or plainly,
//! come back out of the reader in the same order, however the stream is cut
//! into pieces.

use vstd::prelude::*;

use bytes::Bytes;

use crate::error::NetworkError;
use crate::ext::{bytes_view, zlib_decompressed};
use crate::framing::{
    frame_compresses, frame_for, frame_ok, idle_reader, idle_writer, lemma_fits_anywhere,
    lemma_frame_for_drains, lemma_writer_appends, packet_fits, packet_frame, took_packet,
    window_pieces, wrote_after, Framing,
};
use crate::num::be_bytes;
use crate::varint::varint_wire;
use crate::reader::{
    FrameHeader, frame_header, take_data, asked, data_step, decrypt_with, decrypted_rest, drain, extract, finish_step, flushed,
    fresh_reader, header_step, next_outcome, receive, valid_plain, ReaderView, Received, BUF_LEN,
    MAX_PACKET_LEN,
};
use crate::stream::{
    appended, lemma_appended_twice, lemma_drain_append, lemma_drain_keeps, lemma_drain_leaves,
    lemma_frame_header_extend, single_frame,
    lemma_frame_prefix, lemma_receive_all, lemma_receive_framing, law_framing_ignores_cuts,
    plain_start, receive_all, received_split,
};
use crate::writer::{compressed_reads_back, finished, fresh_writer, WriterView};

verus! {

broadcast use crate::num::lemma_be_bytes_len_auto;

/// The frames of `packets` (each a packet and the estimate it was started
/// with) one after the other, made as `framing` says.
pub open spec fn frames_of(packets: Seq<(Seq<u8>, nat)>, framing: Framing) -> Seq<u8>
    decreases packets.len(),
{
    if packets.len() == 0 {
        Seq::empty()
    } else {
        frames_of(packets.drop_last(), framing) + frame_for(framing, packets.last())
    }
}

/// The writer `v` once each of `packets` was started with its estimate,
/// written and finished, in turn.
pub open spec fn wrote_packets(v: WriterView, packets: Seq<(Seq<u8>, nat)>) -> WriterView
    decreases packets.len(),
{
    if packets.len() == 0 {
        v
    } else {
        finished(wrote_after(wrote_packets(v, packets.drop_last()), packets.last().0, packets.last().1))
    }
}

/// The packets alone.
pub open spec fn packets_only(packets: Seq<(Seq<u8>, nat)>) -> Seq<Seq<u8>> {
    packets.map_values(|p: (Seq<u8>, nat)| p.0)
}

/// Every packet fits its frame's header slots.
pub open spec fn all_fit(packets: Seq<(Seq<u8>, nat)>, threshold: Option<i32>) -> bool {
    forall|i: int| 0 <= i < packets.len() ==> #[trigger] packet_fits(packets[i].0, threshold, packets[i].1)
}

/// A writer between packets frames `packets` one after the other: it then
/// holds its output followed by their frames, and is between packets again.
pub proof fn lemma_writer_packets(v: WriterView, packets: Seq<(Seq<u8>, nat)>)
    requires
        idle_writer(v),
        all_fit(packets, v.compression),
    ensures
        idle_writer(wrote_packets(v, packets)),
        wrote_packets(v, packets).compression == v.compression,
        wrote_packets(v, packets).processed == v.processed + frames_of(packets, Framing::Writer(v.compression)),
    decreases packets.len(),
{
    if packets.len() == 0 {
        assert(v.processed + Seq::<u8>::empty() =~= v.processed);
    } else {
        let init = packets.drop_last();
        assert(all_fit(init, v.compression)) by {
            assert forall|i: int| 0 <= i < init.len() implies #[trigger] packet_fits(
                init[i].0,
                v.compression,
                init[i].1,
            ) by {
                assert(init[i] == packets[i]);
            }
        }
        lemma_writer_packets(v, init);
        let w = wrote_packets(v, init);
        let last = packets.last();
        assert(packet_fits(packets[packets.len() - 1].0, v.compression, packets[packets.len() - 1].1));
        lemma_fits_anywhere(w, last.0, last.1);
        lemma_writer_appends(w, last.0, last.1);
        assert(v.processed + frames_of(init, Framing::Writer(v.compression)) + packet_frame(
            last.0,
            v.compression,
            last.1,
        ) =~= v.processed + frames_of(packets, Framing::Writer(v.compression)));
    }
}

/// The reader `y` once it framed each of `ds` in turn.
pub open spec fn took_packets(y: ReaderView, ds: Seq<Seq<u8>>) -> ReaderView
    decreases ds.len(),
{
    if ds.len() == 0 {
        y
    } else {
        took_packet(took_packets(y, ds.drop_last()), ds.last())
    }
}

/// The packets `ds` as a reader holds them once framed: each as its length
/// in four big-endian bytes followed by its bytes.
pub open spec fn prefixed_all(ds: Seq<Seq<u8>>) -> Seq<u8>
    decreases ds.len(),
{
    if ds.len() == 0 {
        Seq::empty()
    } else {
        prefixed_all(ds.drop_last()) + be_bytes(ds.last().len(), 4) + ds.last()
    }
}

proof fn lemma_took_packets(y: ReaderView, ds: Seq<Seq<u8>>)
    requires
        idle_reader(y),
    ensures
        idle_reader(took_packets(y, ds)),
        took_packets(y, ds).processed == y.processed + prefixed_all(ds),
        took_packets(y, ds).compression == y.compression,
        ds.len() > 0 ==> !took_packets(y, ds).needs_input,
    decreases ds.len(),
{
    if ds.len() == 0 {
        assert(y.processed + Seq::<u8>::empty() =~= y.processed);
    } else {
        lemma_took_packets(y, ds.drop_last());
        assert(y.processed + prefixed_all(ds.drop_last()) + be_bytes(ds.last().len(), 4) + ds.last()
            =~= y.processed + prefixed_all(ds));
        assert(took_packet(took_packets(y, ds.drop_last()), ds.last()).pending =~= Seq::<u8>::empty());
    }
}

/// Every packet is not empty, and where its frame is compressed, its zlib
/// stream reads back.
pub open spec fn all_read_back(packets: Seq<(Seq<u8>, nat)>, threshold: Option<i32>) -> bool {
    forall|i: int|
        0 <= i < packets.len() ==> #[trigger] packets[i].0.len() > 0 && (frame_compresses(
            threshold,
            packets[i].1,
        ) ==> compressed_reads_back(window_pieces(packets[i].0)))
}

/// A reader between frames frames the frames of `packets` by taking the
/// packets, in order.
pub proof fn lemma_reader_packets(y: ReaderView, packets: Seq<(Seq<u8>, nat)>, framing: Framing)
    requires
        idle_reader(y),
        y.compression == framing.compression(),
        readable_frames(packets, framing),
    ensures
        drain(appended(y, frames_of(packets, framing))) == Ok::<ReaderView, NetworkError>(
            took_packets(y, packets_only(packets)),
        ),
    decreases packets.len(),
{
    if packets.len() == 0 {
        assert(packets_only(packets) =~= Seq::<Seq<u8>>::empty());
        assert(drain(y) == Ok::<ReaderView, NetworkError>(y));
    } else {
        let init = packets.drop_last();
        let last = packets.last();
        let n = packets.len() - 1;
        assert(packets[n] == last);
        assert(readable_frames(init, framing)) by {
            assert forall|i: int| 0 <= i < init.len() implies #[trigger] frame_ok(framing, init[i]) by {
                assert(init[i] == packets[i]);
            }
        }
        lemma_reader_packets(y, init, framing);
        let a = frames_of(init, framing);
        let f = frame_for(framing, last);
        let u = took_packets(y, packets_only(init));
        lemma_took_packets(y, packets_only(init));
        assert(frame_ok(framing, packets[n]));
        assert(packets[n].0.len() > 0);
        lemma_frame_for_drains(u, framing, last);
        assert(f.len() > 0);
        lemma_appended_twice(y, a, f);
        lemma_drain_append(appended(y, a), f);
        assert(packets_only(packets).drop_last() =~= packets_only(init));
        assert(packets_only(packets).last() == last.0);
    }
}

/// The reader `v` without the first `j` bytes of what it framed (which are
/// ready): what handing out packets leaves.
pub open spec fn dropped(v: ReaderView, j: nat) -> ReaderView {
    ReaderView { processed: v.processed.skip(j as int), ready: (v.ready - j) as nat, ..v }
}

proof fn lemma_finish_dropped(v: ReaderView, j: nat)
    requires
        j <= v.ready <= v.processed.len(),
    ensures
        finish_step(dropped(v, j)) == (match finish_step(v) {
            Ok(w) => Ok(dropped(w, j)),
            Err(e) => Err(e),
        }),
        finish_step(v) matches Ok(w) ==> j <= w.ready <= w.processed.len(),
{
    if v.compressed {
        if let Some(d) = zlib_decompressed(v.pending) {
            assert(v.processed.skip(j as int) + d =~= (v.processed + d).skip(j as int));
        }
    }
}

proof fn lemma_data_dropped(v: ReaderView, j: nat)
    requires
        j <= v.ready <= v.processed.len(),
    ensures
        data_step(dropped(v, j)) == (match data_step(v) {
            Ok(w) => Ok(dropped(w, j)),
            Err(e) => Err(e),
        }),
        data_step(v) matches Ok(w) ==> j <= w.ready <= w.processed.len(),
{
    let k = if v.input.len() < v.expected {
        v.input.len()
    } else {
        v.expected
    };
    let chunk = v.input.take(k as int);
    assert(v.processed.skip(j as int) + chunk =~= (v.processed + chunk).skip(j as int));
    let v1 = ReaderView {
        input: v.input.skip(k as int),
        expected: (v.expected - k) as nat,
        pending: if v.compressed {
            v.pending + chunk
        } else {
            v.pending
        },
        processed: if v.compressed {
            v.processed
        } else {
            v.processed + chunk
        },
        ..v
    };
    lemma_finish_dropped(v1, j);
}

/// Framing does not look at the bytes framed before: without the first `j`
/// ready bytes, it frames the same, without them.
pub proof fn lemma_drain_dropped(v: ReaderView, j: nat)
    requires
        j <= v.ready <= v.processed.len(),
    ensures
        drain(dropped(v, j)) == (match drain(v) {
            Ok(w) => Ok(dropped(w, j)),
            Err(e) => Err(e),
        }),
        drain(v) matches Ok(w) ==> j <= w.ready <= w.processed.len(),
    decreases v.input.len(),
{
    if v.input.len() == 0 || v.needs_input {
    } else if v.expected > 0 {
        lemma_data_dropped(v, j);
        if let Ok(v1) = data_step(v) {
            if !v.single_packet {
                lemma_drain_dropped(v1, j);
            }
        }
    } else {
        crate::reader::lemma_frame_header_bounds(v.input, v.compression, v.single_packet);
        let dv = dropped(v, j);
        match crate::reader::frame_header(v.input, v.compression, v.single_packet) {
            crate::reader::FrameHeader::NeedMore => {
                assert(header_step(dv) == Ok::<ReaderView, NetworkError>(
                    dropped(ReaderView { needs_input: true, ..v }, j),
                ));
            },
            crate::reader::FrameHeader::Invalid => {},
            crate::reader::FrameHeader::Start { consumed, expected, prefix, compressed } => {
                let v1 = header_step(v)->Ok_0;
                let b = be_bytes(prefix as nat, 4);
                assert(v.processed.skip(j as int) + b =~= (v.processed + b).skip(j as int));
                assert(header_step(dv) == Ok::<ReaderView, NetworkError>(dropped(v1, j)));
                lemma_drain_dropped(v1, j);
            },
        }
    }
}

/// The first of the framed packets, then the rest.
proof fn lemma_prefixed_front(ds: Seq<Seq<u8>>)
    requires
        ds.len() > 0,
    ensures
        prefixed_all(ds) == be_bytes(ds[0].len(), 4) + ds[0] + prefixed_all(ds.drop_first()),
    decreases ds.len(),
{
    if ds.len() > 1 {
        lemma_prefixed_front(ds.drop_last());
        assert(ds.drop_last().drop_first() =~= ds.drop_first().drop_last());
        assert(ds.drop_last()[0] == ds[0]);
        assert(ds.drop_first().last() == ds.last());
    } else {
        assert(ds.drop_last() =~= Seq::<Seq<u8>>::empty());
        assert(ds.drop_first() =~= Seq::<Seq<u8>>::empty());
    }
}

/// Asking the reader `v` for a packet, once for each of `ds`, hands out
/// `ds` in order.
pub open spec fn hands_out(v: ReaderView, ds: Seq<Seq<u8>>) -> bool
    decreases ds.len(),
{
    ds.len() > 0 ==> forall|plain: Seq<u8>, new: ReaderView, r: Result<Option<Bytes>, NetworkError>|
        valid_plain(v, plain) && #[trigger] next_outcome(v, plain, new, r) ==> (r matches Ok(
            Some(b),
        ) && bytes_view(b) == ds[0] && hands_out(new, ds.drop_first()))
}

/// The reader `x` (plain, outside single packet mode) frames, when asked,
/// exactly the packets `ds`, and the packets it has ready are the first of
/// them.
pub open spec fn will_hand_out(x: ReaderView, ds: Seq<Seq<u8>>) -> bool {
    &&& x.corrupted is None
    &&& !x.encrypted
    &&& x.decrypted == 0
    &&& !x.single_packet
    &&& x.ready <= x.processed.len()
    &&& drain(x) matches Ok(f) && f.processed == prefixed_all(ds) && f.ready == f.processed.len()
        && f.input.len() == 0 && f.corrupted is None && !f.encrypted && f.decrypted == 0
        && !f.single_packet
    &&& exists|m: int|
        0 <= m <= ds.len() && x.processed.take(x.ready as int) == prefixed_all(#[trigger] ds.take(m))
    &&& forall|i: int| 0 <= i < ds.len() ==> #[trigger] ds[i].len() <= MAX_PACKET_LEN
}

proof fn lemma_first_packet(s: Seq<u8>, d: Seq<u8>, rest: Seq<u8>)
    requires
        d.len() <= MAX_PACKET_LEN,
        s == be_bytes(d.len(), 4) + d + rest,
    ensures
        crate::num::be_value(s.take(4)) == d.len(),
        s.subrange(4, 4 + d.len() as int) == d,
        s.skip(4 + d.len() as int) == rest,
{
    assert(d.len() < crate::num::pow256(4)) by {
        reveal_with_fuel(crate::num::pow256, 5);
    }
    crate::num::lemma_be_roundtrip(d.len(), 4);
    assert(s.take(4) =~= be_bytes(d.len(), 4));
    assert(s.subrange(4, 4 + d.len() as int) =~= d);
    assert(s.skip(4 + d.len() as int) =~= rest);
}

/// A reader that frames exactly `ds` when asked hands them out in order.
pub proof fn lemma_hands_out(x: ReaderView, ds: Seq<Seq<u8>>)
    requires
        will_hand_out(x, ds),
    ensures
        hands_out(x, ds),
    decreases ds.len(),
{
    if ds.len() > 0 {
        let d0 = ds[0];
        let rest = ds.drop_first();
        let j = (4 + d0.len()) as nat;
        let f = drain(x)->Ok_0;
        lemma_prefixed_front(ds);
        assert(d0.len() <= MAX_PACKET_LEN);
        assert forall|i: int| 0 <= i < rest.len() implies #[trigger] rest[i].len() <= MAX_PACKET_LEN by {
            assert(rest[i] == ds[i + 1]);
        }
        lemma_first_packet(f.processed, d0, prefixed_all(rest));
        if x.ready > 0 {
            let m = choose|m: int|
                0 <= m <= ds.len() && x.processed.take(x.ready as int) == prefixed_all(
                    #[trigger] ds.take(m),
                );
            let t = ds.take(m);
            if m == 0 {
                assert(t =~= Seq::<Seq<u8>>::empty());
                assert(prefixed_all(t) == Seq::<u8>::empty());
                assert(x.processed.take(x.ready as int).len() == x.ready);
                assert(false);
            }
            lemma_prefixed_front(t);
            assert(t[0] == d0);
            assert(t.drop_first() =~= rest.take(m - 1));
            let sx = x.processed.take(x.ready as int);
            lemma_first_packet(sx, d0, prefixed_all(rest.take(m - 1)));
            assert(x.processed.take(4) =~= sx.take(4));
            assert(x.processed.subrange(4, 4 + d0.len() as int) =~= sx.subrange(
                4,
                4 + d0.len() as int,
            ));
            assert(extract(x) == (
                dropped(x, j),
                Ok::<Option<Seq<u8>>, NetworkError>(Some(d0)),
            ));
            let x1 = dropped(x, j);
            lemma_drain_dropped(x, j);
            assert(x1.processed.take(x1.ready as int) =~= sx.skip(j as int));
            assert(will_hand_out(x1, rest));
            lemma_hands_out(x1, rest);
        } else {
            crate::stream::lemma_flushed_plain(x);
            assert(f.ready > 0);
            assert(extract(f) == (
                dropped(f, j),
                Ok::<Option<Seq<u8>>, NetworkError>(Some(d0)),
            ));
            let f1 = dropped(f, j);
            assert(drain(f1) == Ok::<ReaderView, NetworkError>(f1));
            assert(f1.processed.take(f1.ready as int) =~= f1.processed);
            assert(rest.take(rest.len() as int) =~= rest);
            assert(will_hand_out(f1, rest));
            lemma_hands_out(f1, rest);
        }
        assert forall|plain: Seq<u8>, new: ReaderView, r: Result<Option<Bytes>, NetworkError>|
            valid_plain(x, plain) && #[trigger] next_outcome(x, plain, new, r) implies (r matches Ok(
                Some(b),
            ) && bytes_view(b) == ds[0] && hands_out(new, ds.drop_first())) by {
            if x.ready == 0 {
                assert(plain =~= x.input.skip(0));
                assert(decrypt_with(x, plain) == x);
            }
        }
    }
}

/// Where the `k`-th byte of the frames of `packets` falls: after the frames
/// of the first `j` packets, within (or, for `j` the number of packets, at
/// the end of) the frame of the next.
proof fn lemma_frames_split(packets: Seq<(Seq<u8>, nat)>, framing: Framing, k: int) -> (j: int)
    requires
        0 <= k <= frames_of(packets, framing).len(),
    ensures
        0 <= j <= packets.len(),
        frames_of(packets.take(j), framing).len() <= k,
        j == packets.len() ==> k == frames_of(packets, framing).len() && packets.take(j)
            == packets,
        j < packets.len() ==> k - frames_of(packets.take(j), framing).len() < frame_for(framing, packets[j]).len() && frames_of(packets, framing).take(k) == frames_of(packets.take(j), framing)
            + frame_for(framing, packets[j]).take(
            k - frames_of(packets.take(j), framing).len(),
        ),
    decreases packets.len(),
{
    let n = packets.len() as int;
    assert(packets.take(n) =~= packets);
    if n == 0 {
        0
    } else {
        let init = packets.drop_last();
        let a = frames_of(init, framing);
        let f = frame_for(framing, packets[n - 1]);
        assert(packets.last() == packets[n - 1]);
        assert(frames_of(packets, framing) == a + f);
        if k < a.len() {
            let j = lemma_frames_split(init, framing, k);
            assert(init.take(j) =~= packets.take(j));
            assert(init[j] == packets[j]);
            assert(frames_of(packets, framing).take(k) =~= a.take(k));
            j
        } else if k == a.len() + f.len() {
            n
        } else {
            assert(init =~= packets.take(n - 1));
            assert(frames_of(packets, framing).take(k) =~= a + f.take(k - a.len()));
            n - 1
        }
    }
}

proof fn lemma_take_fits(packets: Seq<(Seq<u8>, nat)>, framing: Framing, j: int)
    requires
        0 <= j <= packets.len(),
        readable_frames(packets, framing),
    ensures
        readable_frames(packets.take(j), framing),
{
    let pj = packets.take(j);
    assert forall|i: int| 0 <= i < pj.len() implies #[trigger] frame_ok(framing, pj[i]) by {
        assert(pj[i] == packets[i]);
    }
}

/// Framing the first `k` bytes of the frames of `packets` leaves the first
/// of the packets ready, and nothing else.
proof fn lemma_split_ready(
    packets: Seq<(Seq<u8>, nat)>,
    framing: Framing,
    k: int,
    u: ReaderView,
)
    requires
        readable_frames(packets, framing),
        0 <= k <= frames_of(packets, framing).len(),
        drain(appended(fresh_reader(framing.compression(), false), frames_of(packets, framing).take(k)))
            == Ok::<ReaderView, NetworkError>(u),
    ensures
        u.ready <= u.processed.len(),
        exists|m: int|
            0 <= m <= packets.len() && u.processed.take(u.ready as int) == prefixed_all(
                #[trigger] packets_only(packets).take(m),
            ),
{
    let z = fresh_reader(framing.compression(), false);
    let s = frames_of(packets, framing);
    let ds = packets_only(packets);
    let j = lemma_frames_split(packets, framing, k);
    let pj = packets.take(j);
    assert(packets_only(pj) =~= ds.take(j));
    lemma_take_fits(packets, framing, j);
    lemma_reader_packets(z, pj, framing);
    let yj = took_packets(z, ds.take(j));
    lemma_took_packets(z, ds.take(j));
    assert(z.processed + prefixed_all(ds.take(j)) =~= prefixed_all(ds.take(j)));
    let a = frames_of(pj, framing);
    if j == packets.len() {
        assert(s.take(k) =~= s);
        assert(u == yj);
        assert(u.processed.take(u.ready as int) =~= u.processed);
    } else {
        let fj = frame_for(framing, packets[j]);
        let q = fj.take(k - a.len());
        assert(s.take(k) == a + q);
        assert(frame_ok(framing, packets[j]));
        assert(packets[j].0.len() > 0);
        lemma_frame_for_drains(yj, framing, packets[j]);
        if q.len() == 0 {
            assert(a + q =~= a);
            assert(u == yj);
            assert(u.processed.take(u.ready as int) =~= u.processed);
        } else {
            lemma_appended_twice(z, a, q);
            lemma_drain_append(appended(z, a), q);
            lemma_frame_prefix(yj, fj, k - a.len());
        }
    }
    assert(0 <= j <= packets.len() && u.processed.take(u.ready as int) == prefixed_all(
        ds.take(j),
    ));
}

/// The frames the writer makes of packets that fit their headers, are not
/// empty and, where compressed, read back, can be read back.
proof fn lemma_writer_readable(packets: Seq<(Seq<u8>, nat)>, threshold: Option<i32>)
    requires
        all_fit(packets, threshold),
        all_read_back(packets, threshold),
    ensures
        readable_frames(packets, Framing::Writer(threshold)),
{
    assert forall|i: int| 0 <= i < packets.len() implies #[trigger] frame_ok(
        Framing::Writer(threshold),
        packets[i],
    ) by {
        assert(packet_fits(packets[i].0, threshold, packets[i].1));
        assert(packets[i].0.len() > 0);
    }
}

/// Packets written one after the other come back out of the reader in the
/// same order, however the stream is cut.
///
/// A fresh writer with compression threshold `threshold` that starts (with
/// its estimate), writes and finishes each of `packets` in turn holds their
/// frames one after the other, all ready to be sent. A fresh reader (plain,
/// outside single packet mode, with compression enabled exactly when the
/// writer has it) that receives those frames in any pieces, one
/// [`put_slice`](crate::reader::McReader::put_slice) call each, is not
/// corrupted, and asked for a packet once per packet it hands the packets
/// out in order. This is for packets that are not empty and fit their
/// headers, started with estimates the writer accepts; where a frame is
/// compressed, for a zlib stream that reads back ([`compressed_reads_back`]),
/// as the writer's [`finish_packet`](crate::writer::McWriter::finish_packet)
/// ensures of the stream it compresses.
pub proof fn law_packets_roundtrip(
    threshold: Option<i32>,
    packets: Seq<(Seq<u8>, nat)>,
    pieces: Seq<Seq<u8>>,
)
    requires
        forall|i: int| 0 <= i < packets.len() ==> #[trigger] packets[i].1 <= MAX_PACKET_LEN,
        all_fit(packets, threshold),
        all_read_back(packets, threshold),
        pieces.flatten_alt() == frames_of(packets, Framing::Writer(threshold)),
    ensures
        idle_writer(wrote_packets(fresh_writer(threshold), packets)),
        wrote_packets(fresh_writer(threshold), packets).processed == frames_of(packets, Framing::Writer(threshold)),
        receive_all(fresh_reader(threshold is Some, false), pieces) matches Received::Ready(w)
            && hands_out(w, packets_only(packets)),
{
    let v = fresh_writer(threshold);
    lemma_writer_packets(v, packets);
    assert(v.processed + frames_of(packets, Framing::Writer(threshold)) =~= frames_of(packets, Framing::Writer(threshold)));
    let c = threshold is Some;
    let z = fresh_reader(c, false);
    let s = frames_of(packets, Framing::Writer(threshold));
    let ds = packets_only(packets);
    lemma_writer_readable(packets, threshold);
    lemma_reader_packets(z, packets, Framing::Writer(threshold));
    lemma_took_packets(z, ds);
    assert(z.processed + prefixed_all(ds) =~= prefixed_all(ds));
    lemma_receive_all(z, pieces);
    law_framing_ignores_cuts(c, pieces);
    let w = receive_all(z, pieces)->Ready_0;
    let (k, u) = choose|k: int, u: ReaderView| received_split(z, s, k, u, w);
    lemma_drain_keeps(appended(z, s.take(k)));
    assert forall|i: int| 0 <= i < ds.len() implies #[trigger] ds[i].len() <= MAX_PACKET_LEN by {
        assert(packet_fits(packets[i].0, threshold, packets[i].1));
    }
    lemma_split_ready(packets, Framing::Writer(threshold), k, u);
    assert(will_hand_out(w, ds));
    lemma_hands_out(w, ds);
}

/// How many of the frames of `packets` lie wholly within their first `k`
/// bytes.
pub open spec fn complete_frames(packets: Seq<(Seq<u8>, nat)>, framing: Framing, k: int) -> nat
    decreases packets.len(),
{
    if packets.len() == 0 {
        0
    } else if frames_of(packets, framing).len() <= k {
        packets.len()
    } else {
        complete_frames(packets.drop_last(), framing, k)
    }
}

/// The frames of the first `a` packets are the front of those of the first
/// `b`.
proof fn lemma_frames_take(packets: Seq<(Seq<u8>, nat)>, framing: Framing, a: int, b: int)
    requires
        0 <= a <= b <= packets.len(),
    ensures
        frames_of(packets.take(a), framing).len() <= frames_of(packets.take(b), framing).len(),
        frames_of(packets.take(b), framing).take(frames_of(packets.take(a), framing).len() as int)
            == frames_of(packets.take(a), framing),
    decreases b - a,
{
    if a < b {
        lemma_frames_take(packets, framing, a, b - 1);
        assert(packets.take(b).drop_last() =~= packets.take(b - 1));
        let fa = frames_of(packets.take(a), framing);
        let fb1 = frames_of(packets.take(b - 1), framing);
        let fb = frames_of(packets.take(b), framing);
        assert(fb == fb1 + frame_for(framing, packets.take(b).last()));
        assert(fb.take(fa.len() as int) =~= fb1.take(fa.len() as int));
    } else {
        let f = frames_of(packets.take(a), framing);
        assert(f.take(f.len() as int) =~= f);
    }
}

/// The complete frames: all frames of the first so many packets fit in the
/// first `k` bytes, and the next frame does not.
proof fn lemma_complete_frames(packets: Seq<(Seq<u8>, nat)>, framing: Framing, k: int)
    ensures
        complete_frames(packets, framing, k) <= packets.len(),
        frames_of(packets.take(complete_frames(packets, framing, k) as int), framing).len() <= k
            || complete_frames(packets, framing, k) == 0,
        complete_frames(packets, framing, k) < packets.len() ==> frames_of(
            packets.take(complete_frames(packets, framing, k) as int + 1),
            framing,
        ).len() > k,
    decreases packets.len(),
{
    let n = packets.len() as int;
    assert(packets.take(n) =~= packets);
    if n > 0 && frames_of(packets, framing).len() > k {
        let init = packets.drop_last();
        lemma_complete_frames(init, framing, k);
        let c = complete_frames(init, framing, k) as int;
        assert(init.take(c) =~= packets.take(c));
        if c < n - 1 {
            assert(init.take(c + 1) =~= packets.take(c + 1));
        } else {
            assert(init =~= packets.take(n - 1));
        }
    }
}

/// Whether all the bytes of the frame of the `h`-th packet are in the
/// first `k` bytes is whether more than `h` frames are complete there.
pub proof fn lemma_frame_arrived(packets: Seq<(Seq<u8>, nat)>, framing: Framing, k: int, h: int)
    requires
        0 <= h < packets.len(),
        0 <= k,
    ensures
        (h < complete_frames(packets, framing, k)) == (frames_of(packets.take(h + 1), framing).len()
            <= k),
{
    lemma_complete_frames(packets, framing, k);
    let c = complete_frames(packets, framing, k) as int;
    if h < c {
        lemma_frames_take(packets, framing, h + 1, c);
    } else {
        assert(c < packets.len());
        lemma_frames_take(packets, framing, c + 1, h + 1);
    }
}

/// The packets the frames split at `j` are the complete ones.
proof fn lemma_split_complete(packets: Seq<(Seq<u8>, nat)>, framing: Framing, k: int, j: int)
    requires
        0 <= j <= packets.len(),
        0 <= k,
        frames_of(packets.take(j), framing).len() <= k,
        j < packets.len() ==> k - frames_of(packets.take(j), framing).len() < frame_for(framing, packets[j]).len(),
    ensures
        j == complete_frames(packets, framing, k),
{
    lemma_complete_frames(packets, framing, k);
    let c = complete_frames(packets, framing, k) as int;
    if j < packets.len() {
        assert(packets.take(j + 1).drop_last() =~= packets.take(j));
        assert(packets.take(j + 1).last() == packets[j]);
        assert(frames_of(packets.take(j + 1), framing).len() > k);
    }
    if c < j {
        lemma_frames_take(packets, framing, c + 1, j);
    } else if j < c {
        lemma_frames_take(packets, framing, j + 1, c);
    }
}

/// Framing the first `k` bytes of the frames of `packets` on a fresh
/// reader meets no error, and leaves exactly the complete packets ready.
proof fn lemma_prefix_framed(packets: Seq<(Seq<u8>, nat)>, framing: Framing, k: int)
    requires
        readable_frames(packets, framing),
        0 <= k <= frames_of(packets, framing).len(),
    ensures
        drain(appended(fresh_reader(framing.compression(), false), frames_of(packets, framing).take(k)))
            matches Ok(u) && u.ready <= u.processed.len() && u.processed.take(u.ready as int)
            == prefixed_all(packets_only(packets).take(complete_frames(packets, framing, k) as int)),
{
    let z = fresh_reader(framing.compression(), false);
    let s = frames_of(packets, framing);
    let ds = packets_only(packets);
    let j = lemma_frames_split(packets, framing, k);
    lemma_split_complete(packets, framing, k, j);
    let pj = packets.take(j);
    assert(packets_only(pj) =~= ds.take(j));
    lemma_take_fits(packets, framing, j);
    lemma_reader_packets(z, pj, framing);
    let yj = took_packets(z, ds.take(j));
    lemma_took_packets(z, ds.take(j));
    assert(z.processed + prefixed_all(ds.take(j)) =~= prefixed_all(ds.take(j)));
    let a = frames_of(pj, framing);
    if j == packets.len() {
        assert(s.take(k) =~= s);
        assert(yj.processed.take(yj.ready as int) =~= yj.processed);
    } else {
        let fj = frame_for(framing, packets[j]);
        let q = fj.take(k - a.len());
        assert(s.take(k) == a + q);
        assert(frame_ok(framing, packets[j]));
        assert(packets[j].0.len() > 0);
        lemma_frame_for_drains(yj, framing, packets[j]);
        if q.len() == 0 {
            assert(a + q =~= a);
            assert(yj.processed.take(yj.ready as int) =~= yj.processed);
        } else {
            lemma_appended_twice(z, a, q);
            lemma_drain_append(appended(z, a), q);
            lemma_frame_prefix(yj, fj, k - a.len());
            let u = drain(appended(z, s.take(k)))->Ok_0;
            assert(u.processed.take(u.ready as int) =~= u.processed.take(yj.processed.len() as int).take(
                u.ready as int,
            ));
            assert(yj.processed.take(yj.ready as int) =~= yj.processed);
        }
    }
}

/// Receiving bytes does not look at the packets ready before: without the
/// first `j` ready bytes it receives the same, without them.
proof fn lemma_receive_dropped(y: ReaderView, j: nat, src: Seq<u8>)
    requires
        j <= y.ready <= y.processed.len(),
        !y.encrypted,
        y.decrypted == 0,
    ensures
        receive(dropped(y, j), src) == (match receive(y, src) {
            Received::Ready(w) => Received::Ready(dropped(w, j)),
            Received::Corrupted(e) => Received::Corrupted(e),
        }),
        receive(y, src) matches Received::Ready(w) ==> j <= w.ready <= w.processed.len()
            && !w.encrypted && w.decrypted == 0,
    decreases src.len(),
{
    let dy = dropped(y, j);
    if src.len() == 0 || y.corrupted is Some || y.input.len() >= BUF_LEN {
    } else {
        let room = BUF_LEN - y.input.len();
        let cnt: int = if src.len() < room {
            src.len() as int
        } else {
            room
        };
        let v1 = ReaderView { input: y.input + src.take(cnt), needs_input: false, ..y };
        let dv1 = ReaderView { input: dy.input + src.take(cnt), needs_input: false, ..dy };
        assert(dv1 == dropped(v1, j));
        assert(decrypt_with(v1, decrypted_rest(v1)) == v1);
        assert(decrypt_with(dv1, decrypted_rest(dv1)) == dv1);
        if v1.input.len() >= BUF_LEN && !v1.single_packet {
            lemma_drain_dropped(v1, j);
            lemma_drain_keeps(v1);
            if let Ok(w) = drain(v1) {
                let fw = ReaderView { decrypted: 0, ..w };
                assert(flushed(v1) == Ok::<ReaderView, NetworkError>(fw));
                assert(flushed(dv1) == Ok::<ReaderView, NetworkError>(dropped(fw, j)));
                lemma_receive_dropped(fw, j, src.skip(cnt));
            }
        } else {
            lemma_receive_dropped(v1, j, src.skip(cnt));
        }
    }
}

/// The packets framed from the first `b` packets are those from the first
/// `a`, then those from the rest.
proof fn lemma_prefixed_take(ds: Seq<Seq<u8>>, a: int, b: int)
    requires
        0 <= a <= b <= ds.len(),
    ensures
        prefixed_all(ds.take(b)) == prefixed_all(ds.take(a)) + prefixed_all(ds.subrange(a, b)),
    decreases b - a,
{
    if a == b {
        assert(ds.subrange(a, b) =~= Seq::<Seq<u8>>::empty());
        assert(prefixed_all(ds.take(a)) + Seq::<u8>::empty() =~= prefixed_all(ds.take(a)));
    } else {
        lemma_prefixed_take(ds, a, b - 1);
        assert(ds.take(b).drop_last() =~= ds.take(b - 1));
        assert(ds.subrange(a, b).drop_last() =~= ds.subrange(a, b - 1));
        assert(ds.take(b).last() == ds[b - 1]);
        assert(ds.subrange(a, b).last() == ds[b - 1]);
        let l = be_bytes(ds[b - 1].len(), 4) + ds[b - 1];
        assert(prefixed_all(ds.take(a)) + prefixed_all(ds.subrange(a, b - 1)) + be_bytes(
            ds[b - 1].len(),
            4,
        ) + ds[b - 1] =~= prefixed_all(ds.take(a)) + (prefixed_all(ds.subrange(a, b - 1))
            + be_bytes(ds[b - 1].len(), 4) + ds[b - 1]));
    }
}

/// The reader `w` while the frames of `packets` arrive: it received their
/// first `k` bytes, and handed out the first `h` packets. It framed the
/// first `kk` of those bytes at some point (giving `u`), the rest wait in
/// its window, and the packets handed out are gone from the front of what
/// it framed.
pub open spec fn awaits_at(
    w: ReaderView,
    packets: Seq<(Seq<u8>, nat)>,
    framing: Framing,
    k: int,
    h: int,
    kk: int,
    u: ReaderView,
) -> bool {
    let s = frames_of(packets, framing);
    &&& received_split(
        fresh_reader(framing.compression(), false),
        s.take(k),
        kk,
        u,
        appended(u, s.take(k).skip(kk)),
    )
    &&& h <= complete_frames(packets, framing, kk)
    &&& w == dropped(
        appended(u, s.take(k).skip(kk)),
        prefixed_all(packets_only(packets).take(h)).len(),
    )
}

/// The reader `w` received the first `k` bytes of the frames of `packets`,
/// and handed out the first `h` packets (see [`awaits_at`]).
pub open spec fn awaits(w: ReaderView, packets: Seq<(Seq<u8>, nat)>, framing: Framing, k: int, h: int) -> bool {
    &&& 0 <= k <= frames_of(packets, framing).len()
    &&& 0 <= h <= packets.len()
    &&& exists|kk: int, u: ReaderView| #[trigger] awaits_at(w, packets, framing, k, h, kk, u)
}

/// The frames of `packets` made as `framing` says can be read back: each
/// packet goes in a frame of its own (see [`frame_ok`]).
pub open spec fn readable_frames(packets: Seq<(Seq<u8>, nat)>, framing: Framing) -> bool {
    forall|i: int| 0 <= i < packets.len() ==> #[trigger] frame_ok(framing, packets[i])
}

/// A fresh reader (plain, outside single packet mode, with compression
/// enabled exactly when the frames carry it) has received nothing of the
/// frames and handed out nothing.
pub proof fn law_session_start(packets: Seq<(Seq<u8>, nat)>, framing: Framing)
    ensures
        awaits(fresh_reader(framing.compression(), false), packets, framing, 0, 0),
{
    let z = fresh_reader(framing.compression(), false);
    let s = frames_of(packets, framing);
    assert(s.take(0) =~= Seq::<u8>::empty());
    assert(s.take(0).take(0) =~= Seq::<u8>::empty());
    assert(s.take(0).skip(0) =~= Seq::<u8>::empty());
    assert(drain(z) == Ok::<ReaderView, NetworkError>(z));
    assert(packets_only(packets).take(0) =~= Seq::<Seq<u8>>::empty());
    assert(z.processed.skip(0) =~= z.processed);
    assert(dropped(z, 0) == z);
    assert(awaits_at(z, packets, framing, 0, 0, 0, z));
}

/// The state the reader framed to at `kk` is plain, as fresh, and holds the
/// complete packets there, the first `h` of them in front.
proof fn lemma_framed_state(
    packets: Seq<(Seq<u8>, nat)>,
    framing: Framing,
    kk: int,
    u: ReaderView,
    h: int,
)
    requires
        readable_frames(packets, framing),
        0 <= kk <= frames_of(packets, framing).len(),
        drain(appended(fresh_reader(framing.compression(), false), frames_of(packets, framing).take(kk)))
            == Ok::<ReaderView, NetworkError>(u),
        0 <= h <= complete_frames(packets, framing, kk),
    ensures
        u.ready <= u.processed.len(),
        u.processed.take(u.ready as int) == prefixed_all(
            packets_only(packets).take(complete_frames(packets, framing, kk) as int),
        ),
        prefixed_all(packets_only(packets).take(h)).len() <= u.ready,
        !u.encrypted && u.decrypted == 0 && !u.single_packet && u.corrupted is None,
        u.compression == framing.compression(),
{
    lemma_prefix_framed(packets, framing, kk);
    lemma_drain_keeps(appended(fresh_reader(framing.compression(), false), frames_of(packets, framing).take(kk)));
    let c = complete_frames(packets, framing, kk) as int;
    lemma_complete_frames(packets, framing, kk);
    let ds = packets_only(packets);
    assert(ds.len() == packets.len());
    lemma_prefixed_take(ds, h, c);
    assert(u.processed.take(u.ready as int).len() == u.ready);
    assert(prefixed_all(ds.take(c)).len() == prefixed_all(ds.take(h)).len() + prefixed_all(
        ds.subrange(h, c),
    ).len());
}

/// Receiving the next `n` bytes of the frames keeps the reader awaiting
/// the rest, having received them: it is not corrupted, and whatever it
/// framed is the frames' own.
pub proof fn law_session_put(
    packets: Seq<(Seq<u8>, nat)>,
    framing: Framing,
    k: int,
    h: int,
    w: ReaderView,
    n: int,
)
    requires
        readable_frames(packets, framing),
        awaits(w, packets, framing, k, h),
        0 <= n,
        k + n <= frames_of(packets, framing).len(),
    ensures
        receive(w, frames_of(packets, framing).subrange(k, k + n)) matches Received::Ready(w2)
            && awaits(w2, packets, framing, k + n, h),
{
    let s = frames_of(packets, framing);
    let z = fresh_reader(framing.compression(), false);
    let (kk, u) = choose|kk: int, u: ReaderView| #[trigger] awaits_at(w, packets, framing, k, h, kk, u);
    let total = s.take(k);
    let src = s.subrange(k, k + n);
    let y = appended(u, total.skip(kk));
    let j = prefixed_all(packets_only(packets).take(h)).len();
    assert(total.take(kk) =~= s.take(kk));
    lemma_framed_state(packets, framing, kk, u, h);
    assert(plain_start(z));
    lemma_receive_dropped(y, j, src);
    lemma_receive_framing(z, total, kk, u, src);
    assert(total + src =~= s.take(k + n));
    lemma_prefix_framed(packets, framing, k + n);
    match receive(y, src) {
        Received::Ready(w1) => {
            let (k2, u2) = choose|k2: int, u2: ReaderView|
                kk <= k2 && #[trigger] received_split(z, total + src, k2, u2, w1);
            assert(s.take(k + n).take(k2) =~= s.take(k2));
            assert(h <= complete_frames(packets, framing, k2)) by {
                if h > 0 && h <= packets.len() {
                    lemma_frame_arrived(packets, framing, kk, h - 1);
                    lemma_frame_arrived(packets, framing, k2, h - 1);
                }
            }
            assert(awaits_at(dropped(w1, j), packets, framing, k + n, h, k2, u2));
        },
        Received::Corrupted(e) => {},
    }
}

/// A reader whose ready packets are `ds[h..c]`, with `h < c`, hands out
/// `ds[h]`.
proof fn lemma_extract_next(x: ReaderView, ds: Seq<Seq<u8>>, h: int, c: int)
    requires
        0 <= h < c <= ds.len(),
        x.ready <= x.processed.len(),
        x.processed.take(x.ready as int) == prefixed_all(ds.subrange(h, c)),
        ds[h].len() <= MAX_PACKET_LEN,
    ensures
        extract(x) == (
            dropped(x, (4 + ds[h].len()) as nat),
            Ok::<Option<Seq<u8>>, NetworkError>(Some(ds[h])),
        ),
{
    let t = ds.subrange(h, c);
    lemma_prefixed_front(t);
    assert(t[0] == ds[h]);
    assert(t.drop_first() =~= ds.subrange(h + 1, c));
    let sx = x.processed.take(x.ready as int);
    lemma_first_packet(sx, ds[h], prefixed_all(ds.subrange(h + 1, c)));
    assert(x.processed.take(4) =~= sx.take(4));
    assert(x.processed.subrange(4, 4 + ds[h].len() as int) =~= sx.subrange(4, 4 + ds[h].len() as int));
}

/// Dropping ready bytes twice drops them together.
proof fn lemma_dropped_twice(y: ReaderView, a: nat, b: nat)
    requires
        a + b <= y.ready <= y.processed.len(),
    ensures
        dropped(dropped(y, a), b) == dropped(y, a + b),
{
    assert(y.processed.skip(a as int).skip(b as int) =~= y.processed.skip((a + b) as int));
}

/// Without the packets handed out, what the reader has ready are the
/// packets from the `h`-th to the last complete one.
proof fn lemma_ready_rest(x: ReaderView, ds: Seq<Seq<u8>>, h: int, c: int)
    requires
        0 <= h <= c <= ds.len(),
        x.ready <= x.processed.len(),
        x.processed.take(x.ready as int) == prefixed_all(ds.take(c)),
    ensures
        prefixed_all(ds.take(h)).len() <= x.ready,
        dropped(x, prefixed_all(ds.take(h)).len()).processed.take(
            dropped(x, prefixed_all(ds.take(h)).len()).ready as int,
        ) == prefixed_all(ds.subrange(h, c)),
        (dropped(x, prefixed_all(ds.take(h)).len()).ready > 0) == (h < c),
{
    lemma_prefixed_take(ds, h, c);
    let j = prefixed_all(ds.take(h)).len();
    assert(x.processed.take(x.ready as int).len() == x.ready);
    let d = dropped(x, j);
    assert(d.processed.take(d.ready as int) =~= x.processed.take(x.ready as int).skip(j as int));
    assert(prefixed_all(ds.take(c)).skip(j as int) =~= prefixed_all(ds.subrange(h, c)));
    if h < c {
        lemma_prefixed_front(ds.subrange(h, c));
    } else {
        assert(ds.subrange(h, c) =~= Seq::<Seq<u8>>::empty());
    }
}

/// Handing out the `h`-th packet when the reader has it ready.
proof fn lemma_hand_out(x: ReaderView, ds: Seq<Seq<u8>>, h: int, c: int)
    requires
        0 <= h < c <= ds.len(),
        x.ready <= x.processed.len(),
        x.processed.take(x.ready as int) == prefixed_all(ds.take(c)),
        ds[h].len() <= MAX_PACKET_LEN,
    ensures
        extract(dropped(x, prefixed_all(ds.take(h)).len())) == (
            dropped(x, prefixed_all(ds.take(h + 1)).len()),
            Ok::<Option<Seq<u8>>, NetworkError>(Some(ds[h])),
        ),
{
    lemma_ready_rest(x, ds, h, c);
    let j = prefixed_all(ds.take(h)).len();
    lemma_extract_next(dropped(x, j), ds, h, c);
    lemma_prefixed_take(ds, h, h + 1);
    assert(ds.subrange(h, h + 1) =~= seq![ds[h]]);
    assert(prefixed_all(seq![ds[h]]) =~= be_bytes(ds[h].len(), 4) + ds[h]) by {
        assert(seq![ds[h]].drop_last() =~= Seq::<Seq<u8>>::empty());
        assert(seq![ds[h]].last() == ds[h]);
        assert(prefixed_all(Seq::<Seq<u8>>::empty()) == Seq::<u8>::empty());
    }
    lemma_prefixed_take(ds, h + 1, c);
    lemma_dropped_twice(x, j, (4 + ds[h].len()) as nat);
}

/// What asking for a packet gives, on the reader awaiting the frames of
/// `packets` with `k` bytes received and `h` packets handed out: the next
/// packet when its frame has all arrived, and otherwise nothing.
pub open spec fn session_answer(
    w: ReaderView,
    packets: Seq<(Seq<u8>, nat)>,
    framing: Framing,
    k: int,
    h: int,
) -> bool {
    if h < packets.len() && frames_of(packets.take(h + 1), framing).len() <= k {
        &&& asked(w).1 == Ok::<Option<Seq<u8>>, NetworkError>(Some(packets[h].0))
        &&& awaits(asked(w).0, packets, framing, k, h + 1)
    } else {
        &&& asked(w).1 == Ok::<Option<Seq<u8>>, NetworkError>(None)
        &&& awaits(asked(w).0, packets, framing, k, h)
    }
}

/// The common facts of the two cases of asking.
proof fn lemma_session_facts(
    packets: Seq<(Seq<u8>, nat)>,
    framing: Framing,
    k: int,
    h: int,
    w: ReaderView,
    kk: int,
    u: ReaderView,
)
    requires
        readable_frames(packets, framing),
        0 <= k <= frames_of(packets, framing).len(),
        0 <= h <= packets.len(),
        awaits_at(w, packets, framing, k, h, kk, u),
    ensures
        packets_only(packets).len() == packets.len(),
        forall|i: int| 0 <= i < packets.len() ==> #[trigger] packets_only(packets)[i].len() <= MAX_PACKET_LEN
            && packets_only(packets)[i] == packets[i].0,
        0 <= kk <= k,
        w.corrupted is None,
        complete_frames(packets, framing, kk) <= packets.len(),
        h < packets.len() ==> ((h < complete_frames(packets, framing, k)) == (frames_of(
            packets.take(h + 1),
            framing,
        ).len() <= k)),
        h < complete_frames(packets, framing, kk) ==> h < complete_frames(packets, framing, k),
        appended(u, frames_of(packets, framing).take(k).skip(kk)).ready <= appended(
            u,
            frames_of(packets, framing).take(k).skip(kk),
        ).processed.len(),
        appended(u, frames_of(packets, framing).take(k).skip(kk)).processed.take(
            appended(u, frames_of(packets, framing).take(k).skip(kk)).ready as int,
        ) == prefixed_all(packets_only(packets).take(complete_frames(packets, framing, kk) as int)),
        (w.ready > 0) == (h < complete_frames(packets, framing, kk)),
{
    let s = frames_of(packets, framing);
    let ds = packets_only(packets);
    assert(ds.len() == packets.len());
    assert forall|i: int| 0 <= i < packets.len() implies #[trigger] ds[i].len() <= MAX_PACKET_LEN
        && ds[i] == packets[i].0 by {
        assert(frame_ok(framing, packets[i]));
    }
    let total = s.take(k);
    let y = appended(u, total.skip(kk));
    assert(total.take(kk) =~= s.take(kk));
    lemma_framed_state(packets, framing, kk, u, h);
    let c = complete_frames(packets, framing, kk) as int;
    lemma_complete_frames(packets, framing, kk);
    if h < packets.len() {
        lemma_frame_arrived(packets, framing, k, h);
        lemma_frame_arrived(packets, framing, kk, h);
    }
    lemma_ready_rest(y, ds, h, c);
}

/// Asking the reader for a packet, while the frames of `packets` arrive,
/// hands out the first packet not yet handed out when all the bytes of its
/// frame have arrived, and otherwise nothing (`Ok(None)`); never an error.
/// The reader then awaits the rest, with that packet handed out.
pub proof fn law_session_next(
    packets: Seq<(Seq<u8>, nat)>,
    framing: Framing,
    k: int,
    h: int,
    w: ReaderView,
)
    requires
        readable_frames(packets, framing),
        awaits(w, packets, framing, k, h),
    ensures
        session_answer(w, packets, framing, k, h),
{
    let (kk, u) = choose|kk: int, u: ReaderView| #[trigger] awaits_at(w, packets, framing, k, h, kk, u);
    lemma_session_facts(packets, framing, k, h, w, kk, u);
    if w.ready > 0 {
        lemma_session_ready(packets, framing, k, h, w, kk, u);
    } else {
        lemma_session_none_ready(packets, framing, k, h, w, kk, u);
    }
}

proof fn lemma_session_ready(
    packets: Seq<(Seq<u8>, nat)>,
    framing: Framing,
    k: int,
    h: int,
    w: ReaderView,
    kk: int,
    u: ReaderView,
)
    requires
        readable_frames(packets, framing),
        0 <= k <= frames_of(packets, framing).len(),
        0 <= h <= packets.len(),
        awaits_at(w, packets, framing, k, h, kk, u),
        w.ready > 0,
    ensures
        session_answer(w, packets, framing, k, h),
{
    lemma_session_facts(packets, framing, k, h, w, kk, u);
    let s = frames_of(packets, framing);
    let ds = packets_only(packets);
    let y = appended(u, s.take(k).skip(kk));
    let c = complete_frames(packets, framing, kk) as int;
    lemma_hand_out(y, ds, h, c);
    assert(awaits_at(asked(w).0, packets, framing, k, h + 1, kk, u));
}

proof fn lemma_session_none_ready(
    packets: Seq<(Seq<u8>, nat)>,
    framing: Framing,
    k: int,
    h: int,
    w: ReaderView,
    kk: int,
    u: ReaderView,
)
    requires
        readable_frames(packets, framing),
        0 <= k <= frames_of(packets, framing).len(),
        0 <= h <= packets.len(),
        awaits_at(w, packets, framing, k, h, kk, u),
        w.ready == 0,
    ensures
        session_answer(w, packets, framing, k, h),
{
    lemma_session_facts(packets, framing, k, h, w, kk, u);
    let s = frames_of(packets, framing);
    let z = fresh_reader(framing.compression(), false);
    let ds = packets_only(packets);
    let total = s.take(k);
    assert(complete_frames(packets, framing, kk) == h);
    lemma_session_flush(packets, framing, k, h, kk, u);
    let u2 = drain(appended(z, total))->Ok_0;
    let c2 = complete_frames(packets, framing, k) as int;
    assert(h <= c2);
    lemma_complete_frames(packets, framing, k);
    assert(c2 <= ds.len());
    lemma_ready_rest(u2, ds, h, c2);
    assert(total.skip(k) =~= Seq::<u8>::empty());
    assert(total.take(k) =~= total);
    if c2 > h {
        lemma_hand_out(u2, ds, h, c2);
        assert(awaits_at(asked(w).0, packets, framing, k, h + 1, k, u2));
    } else {
        assert(awaits_at(asked(w).0, packets, framing, k, h, k, u2));
    }
}

/// With nothing ready, the reader frames all it received, as framing the
/// whole received stream at once does.
proof fn lemma_session_flush(
    packets: Seq<(Seq<u8>, nat)>,
    framing: Framing,
    k: int,
    h: int,
    kk: int,
    u: ReaderView,
)
    requires
        readable_frames(packets, framing),
        0 <= k <= frames_of(packets, framing).len(),
        0 <= h <= packets.len(),
        awaits_at(
            dropped(
                appended(u, frames_of(packets, framing).take(k).skip(kk)),
                prefixed_all(packets_only(packets).take(h)).len(),
            ),
            packets,
            framing,
            k,
            h,
            kk,
            u,
        ),
        complete_frames(packets, framing, kk) == h,
    ensures
        ({
            let z = fresh_reader(framing.compression(), false);
            let s = frames_of(packets, framing);
            let w = dropped(appended(u, s.take(k).skip(kk)), prefixed_all(packets_only(packets).take(h)).len());
            &&& drain(appended(z, s.take(k))) matches Ok(u2)
            &&& flushed(decrypt_with(w, decrypted_rest(w))) == Ok::<ReaderView, NetworkError>(
                dropped(u2, prefixed_all(packets_only(packets).take(h)).len()),
            )
            &&& u2.input.len() < BUF_LEN
            &&& u2.ready <= u2.processed.len()
            &&& u2.processed.take(u2.ready as int) == prefixed_all(
                packets_only(packets).take(complete_frames(packets, framing, k) as int),
            )
            &&& h <= complete_frames(packets, framing, k)
            &&& w.corrupted is None
        }),
{
    let s = frames_of(packets, framing);
    let z = fresh_reader(framing.compression(), false);
    let ds = packets_only(packets);
    let total = s.take(k);
    let rest = total.skip(kk);
    let y = appended(u, rest);
    let j = prefixed_all(ds.take(h)).len();
    let w = dropped(y, j);
    assert(total.take(kk) =~= s.take(kk));
    lemma_framed_state(packets, framing, kk, u, h);
    assert(decrypt_with(w, decrypted_rest(w)) == w);
    lemma_drain_dropped(y, j);
    let x0 = appended(z, s.take(kk));
    lemma_drain_append(x0, rest);
    if rest.len() > 0 {
        lemma_appended_twice(z, s.take(kk), rest);
    }
    assert(s.take(kk) + rest =~= total);
    lemma_prefix_framed(packets, framing, k);
    let u2 = drain(appended(z, total))->Ok_0;
    assert(drain(y) == Ok::<ReaderView, NetworkError>(u2)) by {
        if rest.len() == 0 {
            assert(appended(x0, rest) == x0);
            assert(total =~= s.take(kk));
        }
    }
    lemma_framed_state(packets, framing, k, u2, 0);
    lemma_drain_leaves(appended(z, total));
    lemma_complete_frames(packets, framing, k);
    if h > 0 {
        lemma_frame_arrived(packets, framing, kk, h - 1);
        lemma_frame_arrived(packets, framing, k, h - 1);
    }
    lemma_drain_keeps(y);
}

/// In single packet mode a frame header reads as outside it once the whole
/// frame is there.
proof fn lemma_single_header_whole(x: Seq<u8>, c: bool)
    requires
        frame_header(x, c, false) matches FrameHeader::Start { consumed, expected, .. }
            && consumed + expected <= x.len(),
    ensures
        frame_header(x, c, true) == frame_header(x, c, false),
{
    crate::reader::lemma_decode_bounds(x, 5);
    if let Ok((v, n1)) = crate::varint::varint_decode(x, 5) {
        crate::reader::lemma_decode_bounds(x.skip(n1 as int), 5);
    }
}

/// In single packet mode the front of a frame, short of all of it, reads
/// as needing more.
proof fn lemma_single_header_part(f: Seq<u8>, q: Seq<u8>, c: bool)
    requires
        single_frame(f, c),
        q.len() < f.len(),
        q == f.take(q.len() as int),
    ensures
        frame_header(q, c, true) == FrameHeader::NeedMore,
{
    if frame_header(q, c, false) != FrameHeader::NeedMore {
        lemma_frame_header_extend(q, f.skip(q.len() as int), c);
        assert(q + f.skip(q.len() as int) =~= f);
        crate::reader::lemma_decode_bounds(q, 5);
    }
}

/// In single packet mode, a reader with nothing in progress whose input
/// starts with the whole frame of `d` frames exactly that packet and stops,
/// the bytes after the frame left waiting.
#[verifier::spinoff_prover]
#[verifier::rlimit(40)]
proof fn lemma_single_drains(x: ReaderView, framing: Framing, p: (Seq<u8>, nat), more: Seq<u8>)
    requires
        x.single_packet,
        x.expected == 0,
        !x.compressed,
        x.pending.len() == 0,
        !x.encrypted,
        x.decrypted == 0,
        x.corrupted is None,
        !x.needs_input,
        x.ready == x.processed.len(),
        x.compression == framing.compression(),
        x.input == frame_for(framing, p) + more,
        frame_ok(framing, p),
    ensures
        drain(x) == Ok::<ReaderView, NetworkError>(
            ReaderView { input: more, single_packet: true, ..took_packet(ReaderView { input: Seq::empty(), single_packet: false, ..x }, p.0) },
        ),
{
    let d = p.0;
    let f = frame_for(framing, p);
    let c = framing.compression();
    let y = ReaderView { input: Seq::empty(), single_packet: false, ..x };
    lemma_frame_for_drains(y, framing, p);
    lemma_frame_steps(y, f, took_packet(y, d));
    let a = appended(y, f);
    let v1 = header_step(a)->Ok_0;
    let v2 = took_packet(y, d);
    lemma_frame_header_extend(f, more, c);
    lemma_single_header_whole(f + more, c);
    if let FrameHeader::Start { consumed, expected, .. } = frame_header(f, c, false) {
        assert((f + more).skip(consumed as int) =~= f.skip(consumed as int) + more);
        let v1x = header_step(x)->Ok_0;
        assert(v1x == ReaderView { input: v1.input + more, single_packet: true, ..v1 });
        assert(v1.input.len() == v1.expected);
        assert((v1.input + more).take(v1.expected as int) =~= v1.input.take(v1.expected as int));
        assert((v1.input + more).skip(v1.expected as int) =~= more);
        assert(v1.input.skip(v1.expected as int) =~= Seq::<u8>::empty());
        assert(take_data(v1x) == ReaderView { input: more, single_packet: true, ..take_data(v1) });
        assert(data_step(v1x) == Ok::<ReaderView, NetworkError>(
            ReaderView { input: more, single_packet: true, ..v2 },
        ));
        assert(x.input.len() > 0);
        assert(!v1x.needs_input);
        assert(drain(x) == drain(v1x));
        assert(v1x.input.len() > 0 && v1x.expected > 0);
        assert(drain(v1x) == Ok::<ReaderView, NetworkError>(
            ReaderView { input: more, single_packet: true, ..v2 },
        ));
    }
}

/// The steps by which a whole frame, alone in the input of a reader with
/// nothing in progress, is framed outside single packet mode: its header,
/// then all its bytes at once.
proof fn lemma_frame_steps(y: ReaderView, f: Seq<u8>, t: ReaderView)
    requires
        single_frame(f, y.compression),
        !y.single_packet,
        y.expected == 0,
        y.input.len() == 0,
        drain(appended(y, f)) == Ok::<ReaderView, NetworkError>(t),
    ensures
        header_step(appended(y, f)) matches Ok(v1) && !v1.needs_input && v1.input.len() == v1.expected
            && v1.expected > 0 && v1.input == f.skip(f.len() - v1.expected) && data_step(v1) == Ok::<
            ReaderView,
            NetworkError,
        >(t),
{
    let c = y.compression;
    let a = appended(y, f);
    crate::reader::lemma_frame_header_bounds(f, c, false);
    assert(a.input =~= f);
    if let FrameHeader::Start { consumed, expected, .. } = frame_header(f, c, false) {
        let v1 = header_step(a)->Ok_0;
        assert(v1.input =~= f.skip(consumed as int));
        assert(!v1.needs_input);
        assert(drain(a) == drain(v1));
        if let Ok(v2) = data_step(v1) {
            assert(take_data(v1).input =~= Seq::<u8>::empty());
            assert(v2.input.len() == 0);
            assert(drain(v2) == Ok::<ReaderView, NetworkError>(v2));
            assert(drain(v1) == drain(v2));
        }
    }
}

/// The reader in single packet mode while the frames of `packets` arrive,
/// with `k` of their bytes received and `h` packets handed out: nothing is
/// in progress and nothing framed; the bytes from the frame of the first
/// packet not handed out on wait in its window. It has marked that it needs
/// more input only while that frame is not all there.
pub open spec fn single_awaits(
    w: ReaderView,
    packets: Seq<(Seq<u8>, nat)>,
    framing: Framing,
    k: int,
    h: int,
) -> bool {
    let start = frames_of(packets.take(h), framing).len() as int;
    &&& 0 <= h <= packets.len()
    &&& start <= k <= frames_of(packets, framing).len()
    &&& w == ReaderView {
        input: frames_of(packets, framing).subrange(start, k),
        needs_input: w.needs_input,
        ..fresh_reader(framing.compression(), true)
    }
    &&& w.needs_input ==> !(h < packets.len() && frames_of(packets.take(h + 1), framing).len() <= k)
}

/// The frame of the `h`-th packet lies between the frames of the packets
/// before it and those up to it.
proof fn lemma_frame_at(packets: Seq<(Seq<u8>, nat)>, framing: Framing, h: int)
    requires
        0 <= h < packets.len(),
    ensures
        frames_of(packets.take(h + 1), framing) == frames_of(packets.take(h), framing) + frame_for(framing, packets[h]),
        frames_of(packets, framing).subrange(
            frames_of(packets.take(h), framing).len() as int,
            frames_of(packets.take(h + 1), framing).len() as int,
        ) == frame_for(framing, packets[h]),
        frames_of(packets.take(h + 1), framing).len() <= frames_of(packets, framing).len(),
{
    assert(packets.take(h + 1).drop_last() =~= packets.take(h));
    assert(packets.take(h + 1).last() == packets[h]);
    let n = packets.len() as int;
    assert(packets.take(n) =~= packets);
    lemma_frames_take(packets, framing, h + 1, n);
    let a = frames_of(packets.take(h), framing);
    let f = frame_for(framing, packets[h]);
    let s = frames_of(packets, framing);
    assert(s.subrange(a.len() as int, (a + f).len() as int) =~= (a + f).subrange(a.len() as int, (a + f).len() as int));
    assert((a + f).subrange(a.len() as int, (a + f).len() as int) =~= f);
}

/// A fresh reader in single packet mode has received nothing of the frames
/// and handed out nothing.
pub proof fn law_single_session_start(packets: Seq<(Seq<u8>, nat)>, framing: Framing)
    requires
        readable_frames(packets, framing),
    ensures
        single_awaits(fresh_reader(framing.compression(), true), packets, framing, 0, 0),
{
    let s = frames_of(packets, framing);
    assert(packets.take(0) =~= Seq::<(Seq<u8>, nat)>::empty());
    assert(s.subrange(0, 0) =~= Seq::<u8>::empty());
    if packets.len() > 0 {
        lemma_frame_at(packets, framing, 0);
    }
    let n = packets.len() as int;
    assert(packets.take(n) =~= packets);
    lemma_frames_take(packets, framing, 0, n);
}

/// In single packet mode, receiving the next `n` bytes of the frames, as
/// many as the window takes, keeps the reader awaiting the rest, with the
/// bytes waiting in its window.
pub proof fn law_single_session_put(
    packets: Seq<(Seq<u8>, nat)>,
    framing: Framing,
    k: int,
    h: int,
    w: ReaderView,
    n: int,
)
    requires
        single_awaits(w, packets, framing, k, h),
        0 <= n <= crate::reader::room(w),
        k + n <= frames_of(packets, framing).len(),
    ensures
        receive(w, frames_of(packets, framing).subrange(k, k + n)) matches Received::Ready(w2)
            && single_awaits(w2, packets, framing, k + n, h),
{
    let s = frames_of(packets, framing);
    let src = s.subrange(k, k + n);
    let start = frames_of(packets.take(h), framing).len() as int;
    if n > 0 {
        let v1 = ReaderView { input: w.input + src.take(n), needs_input: false, ..w };
        assert(src.take(n) =~= src);
        assert(src.skip(n) =~= Seq::<u8>::empty());
        assert(receive(v1, src.skip(n)) == Received::Ready(v1));
        assert(receive(w, src) == receive(v1, src.skip(n)));
        assert(v1.input =~= s.subrange(start, k + n));
        assert(single_awaits(v1, packets, framing, k + n, h));
    } else {
        assert(src.len() == 0);
    }
}

/// In single packet mode, asking the reader for a packet, while the frames
/// of `packets` arrive, frames and hands out the first packet not yet handed
/// out when all the bytes of its frame have arrived, and otherwise nothing
/// (`Ok(None)`); never an error. The reader then awaits the rest, with that
/// packet handed out.
pub proof fn law_single_session_next(
    packets: Seq<(Seq<u8>, nat)>,
    framing: Framing,
    k: int,
    h: int,
    w: ReaderView,
)
    requires
        readable_frames(packets, framing),
        single_awaits(w, packets, framing, k, h),
    ensures
        h < packets.len() && frames_of(packets.take(h + 1), framing).len() <= k ==> {
            &&& asked(w).1 == Ok::<Option<Seq<u8>>, NetworkError>(Some(packets[h].0))
            &&& single_awaits(asked(w).0, packets, framing, k, h + 1)
        },
        !(h < packets.len() && frames_of(packets.take(h + 1), framing).len() <= k) ==> {
            &&& asked(w).1 == Ok::<Option<Seq<u8>>, NetworkError>(None)
            &&& single_awaits(asked(w).0, packets, framing, k, h)
        },
{
    let s = frames_of(packets, framing);
    let c = framing.compression();
    let start = frames_of(packets.take(h), framing).len() as int;
    assert(decrypt_with(w, decrypted_rest(w)) == w);
    let n = packets.len() as int;
    assert(packets.take(n) =~= packets);
    if h < n {
        lemma_frame_at(packets, framing, h);
        let end = frames_of(packets.take(h + 1), framing).len() as int;
        let d = packets[h].0;
        let f = frame_for(framing, packets[h]);
        assert(frame_ok(framing, packets[h]));
        lemma_frame_for_drains(fresh_reader(c, false), framing, packets[h]);
        if end <= k {
            let more = s.subrange(end, k);
            assert(w.input =~= f + more);
            lemma_single_drains(w, framing, packets[h], more);
            let v2 = ReaderView {
                input: more,
                single_packet: true,
                ..took_packet(ReaderView { input: Seq::empty(), single_packet: false, ..w }, d)
            };
            assert(flushed(w) == Ok::<ReaderView, NetworkError>(v2));
            assert(d.len() <= MAX_PACKET_LEN);
            assert(v2.processed =~= be_bytes(d.len(), 4) + d + Seq::<u8>::empty());
            lemma_first_packet(v2.processed, d, Seq::<u8>::empty());
            assert(v2.processed.take(4) =~= v2.processed.take(v2.ready as int).take(4));
            let v3 = dropped(v2, (4 + d.len()) as nat);
            assert(extract(v2) == (v3, Ok::<Option<Seq<u8>>, NetworkError>(Some(d))));
            assert(v3.processed =~= Seq::<u8>::empty());
            assert(v3 == ReaderView { input: more, needs_input: false, ..fresh_reader(c, true) });
            assert(single_awaits(v3, packets, framing, k, h + 1));
        } else {
            if w.input.len() > 0 && !w.needs_input {
                let q = w.input;
                assert(q =~= f.take(q.len() as int));
                lemma_single_header_part(f, q, c);
                let v1 = ReaderView { needs_input: true, ..w };
                assert(header_step(w) == Ok::<ReaderView, NetworkError>(v1));
                assert(drain(w) == Ok::<ReaderView, NetworkError>(v1));
                assert(flushed(w) == Ok::<ReaderView, NetworkError>(v1));
                assert(single_awaits(v1, packets, framing, k, h));
            } else {
                assert(drain(w) == Ok::<ReaderView, NetworkError>(w));
                assert(flushed(w) == Ok::<ReaderView, NetworkError>(w));
            }
        }
    } else {
        assert(packets.take(h) =~= packets);
        assert(w.input.len() == 0);
        assert(drain(w) == Ok::<ReaderView, NetworkError>(w));
        assert(flushed(w) == Ok::<ReaderView, NetworkError>(w));
    }
}

/// A call on a reader while frames arrive: receiving the next so many bytes
/// of the frames, or asking for a packet.
pub ghost enum ReaderCall {
    Put(nat),
    Next,
}

/// The answers to the requests among `calls`, made one after the other on
/// the reader `w`, the `Put`s receiving the bytes of `s` in order from the
/// `k`-th on. A reader that gets corrupted answers its error and no more.
pub open spec fn run_answers(w: ReaderView, s: Seq<u8>, k: int, calls: Seq<ReaderCall>) -> Seq<
    Result<Option<Seq<u8>>, NetworkError>,
>
    decreases calls.len(),
{
    if calls.len() == 0 {
        Seq::empty()
    } else {
        match calls[0] {
            ReaderCall::Put(n) => match receive(w, s.subrange(k, k + n)) {
                Received::Ready(w2) => run_answers(w2, s, k + n, calls.drop_first()),
                Received::Corrupted(e) => seq![Err(e)],
            },
            ReaderCall::Next => seq![asked(w).1] + run_answers(asked(w).0, s, k, calls.drop_first()),
        }
    }
}

/// The answers the requests among `calls` are owed, with `k` bytes of the
/// frames of `packets` received and `h` packets handed out before them: the
/// next packet when all of its frame has arrived, and otherwise nothing.
pub open spec fn owed_answers(
    packets: Seq<(Seq<u8>, nat)>,
    framing: Framing,
    k: int,
    h: int,
    calls: Seq<ReaderCall>,
) -> Seq<Result<Option<Seq<u8>>, NetworkError>>
    decreases calls.len(),
{
    if calls.len() == 0 {
        Seq::empty()
    } else {
        match calls[0] {
            ReaderCall::Put(n) => owed_answers(packets, framing, k + n, h, calls.drop_first()),
            ReaderCall::Next => if h < packets.len() && frames_of(packets.take(h + 1), framing).len()
                <= k {
                seq![Ok(Some(packets[h].0))] + owed_answers(
                    packets,
                    framing,
                    k,
                    h + 1,
                    calls.drop_first(),
                )
            } else {
                seq![Ok(None)] + owed_answers(packets, framing, k, h, calls.drop_first())
            },
        }
    }
}

/// The `Put`s among `calls`, from the `k`-th byte on, stay within the
/// frames `s`.
pub open spec fn puts_within(s: Seq<u8>, k: int, calls: Seq<ReaderCall>) -> bool
    decreases calls.len(),
{
    calls.len() > 0 ==> match calls[0] {
        ReaderCall::Put(n) => k + n <= s.len() && puts_within(s, k + n, calls.drop_first()),
        ReaderCall::Next => puts_within(s, k, calls.drop_first()),
    }
}

proof fn lemma_run_answers(
    packets: Seq<(Seq<u8>, nat)>,
    framing: Framing,
    k: int,
    h: int,
    w: ReaderView,
    calls: Seq<ReaderCall>,
)
    requires
        readable_frames(packets, framing),
        awaits(w, packets, framing, k, h),
        puts_within(frames_of(packets, framing), k, calls),
    ensures
        run_answers(w, frames_of(packets, framing), k, calls) == owed_answers(
            packets,
            framing,
            k,
            h,
            calls,
        ),
    decreases calls.len(),
{
    if calls.len() > 0 {
        match calls[0] {
            ReaderCall::Put(n) => {
                law_session_put(packets, framing, k, h, w, n as int);
                let w2 = receive(w, frames_of(packets, framing).subrange(k, k + n))->Ready_0;
                lemma_run_answers(packets, framing, k + n, h, w2, calls.drop_first());
            },
            ReaderCall::Next => {
                law_session_next(packets, framing, k, h, w);
                if h < packets.len() && frames_of(packets.take(h + 1), framing).len() <= k {
                    lemma_run_answers(packets, framing, k, h + 1, asked(w).0, calls.drop_first());
                } else {
                    lemma_run_answers(packets, framing, k, h, asked(w).0, calls.drop_first());
                }
            },
        }
    }
}

/// However the frames of `packets`, made as `framing` says, are cut into the
/// pieces a fresh reader (plain, outside single packet mode, with
/// compression enabled exactly when the frames carry it) receives, and however many times it is asked for a
/// packet between the pieces, each request is answered with the first
/// packet not yet handed out when all the bytes of its frame have arrived,
/// and with `Ok(None)` otherwise: the packets come out in order, none lost,
/// none twice, and no request fails.
pub proof fn law_packets_interleaved(
    packets: Seq<(Seq<u8>, nat)>,
    framing: Framing,
    calls: Seq<ReaderCall>,
)
    requires
        readable_frames(packets, framing),
        puts_within(frames_of(packets, framing), 0, calls),
    ensures
        run_answers(fresh_reader(framing.compression(), false), frames_of(packets, framing), 0, calls)
            == owed_answers(packets, framing, 0, 0, calls),
{
    law_session_start(packets, framing);
    lemma_run_answers(packets, framing, 0, 0, fresh_reader(framing.compression(), false), calls);
}

/// The `Put`s among `calls` stay within the frames, and, in single packet
/// mode, within the window: what waits there (the frames from that of the
/// first packet not handed out on) never exceeds it.
pub open spec fn single_calls_fit(
    packets: Seq<(Seq<u8>, nat)>,
    framing: Framing,
    k: int,
    h: int,
    calls: Seq<ReaderCall>,
) -> bool
    decreases calls.len(),
{
    calls.len() > 0 ==> match calls[0] {
        ReaderCall::Put(n) => k + n <= frames_of(packets, framing).len() && k + n - frames_of(
            packets.take(h),
            framing,
        ).len() <= BUF_LEN && single_calls_fit(packets, framing, k + n, h, calls.drop_first()),
        ReaderCall::Next => if h < packets.len() && frames_of(packets.take(h + 1), framing).len()
            <= k {
            single_calls_fit(packets, framing, k, h + 1, calls.drop_first())
        } else {
            single_calls_fit(packets, framing, k, h, calls.drop_first())
        },
    }
}

proof fn lemma_single_run_answers(
    packets: Seq<(Seq<u8>, nat)>,
    framing: Framing,
    k: int,
    h: int,
    w: ReaderView,
    calls: Seq<ReaderCall>,
)
    requires
        readable_frames(packets, framing),
        single_awaits(w, packets, framing, k, h),
        single_calls_fit(packets, framing, k, h, calls),
    ensures
        run_answers(w, frames_of(packets, framing), k, calls) == owed_answers(
            packets,
            framing,
            k,
            h,
            calls,
        ),
    decreases calls.len(),
{
    if calls.len() > 0 {
        match calls[0] {
            ReaderCall::Put(n) => {
                law_single_session_put(packets, framing, k, h, w, n as int);
                let w2 = receive(w, frames_of(packets, framing).subrange(k, k + n))->Ready_0;
                lemma_single_run_answers(packets, framing, k + n, h, w2, calls.drop_first());
            },
            ReaderCall::Next => {
                law_single_session_next(packets, framing, k, h, w);
                if h < packets.len() && frames_of(packets.take(h + 1), framing).len() <= k {
                    lemma_single_run_answers(packets, framing, k, h + 1, asked(w).0, calls.drop_first());
                } else {
                    lemma_single_run_answers(packets, framing, k, h, asked(w).0, calls.drop_first());
                }
            },
        }
    }
}

/// The same in single packet mode: a fresh reader in single packet mode
/// that receives the frames of `packets` in pieces the window takes, and is
/// asked for packets any number of times between them, answers each request
/// with the first packet not yet handed out when all the bytes of its frame
/// have arrived, and with `Ok(None)` otherwise.
pub proof fn law_single_packets_interleaved(
    packets: Seq<(Seq<u8>, nat)>,
    framing: Framing,
    calls: Seq<ReaderCall>,
)
    requires
        readable_frames(packets, framing),
        single_calls_fit(packets, framing, 0, 0, calls),
    ensures
        run_answers(fresh_reader(framing.compression(), true), frames_of(packets, framing), 0, calls)
            == owed_answers(packets, framing, 0, 0, calls),
{
    law_single_session_start(packets, framing);
    lemma_single_run_answers(packets, framing, 0, 0, fresh_reader(framing.compression(), true), calls);
}

/// The packets `ds` one after the other, each after its length as the
/// shortest variable-length integer.
pub open spec fn plain_frames(ds: Seq<Seq<u8>>) -> Seq<u8>
    decreases ds.len(),
{
    if ds.len() == 0 {
        Seq::empty()
    } else {
        plain_frames(ds.drop_last()) + varint_wire(ds.last().len()) + ds.last()
    }
}

/// The packets `ds`, each with an estimate nothing looks at.
pub open spec fn unestimated(ds: Seq<Seq<u8>>) -> Seq<(Seq<u8>, nat)> {
    ds.map_values(|d: Seq<u8>| (d, 0nat))
}

proof fn lemma_plain_frames(ds: Seq<Seq<u8>>)
    ensures
        plain_frames(ds) == frames_of(unestimated(ds), Framing::Plain),
    decreases ds.len(),
{
    if ds.len() > 0 {
        lemma_plain_frames(ds.drop_last());
        assert(unestimated(ds).drop_last() =~= unestimated(ds.drop_last()));
        assert(unestimated(ds).last() == (ds.last(), 0nat));
        assert(plain_frames(ds.drop_last()) + varint_wire(ds.last().len()) + ds.last()
            =~= plain_frames(ds.drop_last()) + (varint_wire(ds.last().len()) + ds.last()));
    }
}

/// Packets framed plainly, each after its length as the shortest
/// variable-length integer, come out of a fresh plain reader outside single
/// packet mode in order, however the stream is cut into the pieces it
/// receives: each request for a packet made between the pieces is answered
/// with the first packet not yet handed out when all the bytes of its frame
/// have arrived, and with `Ok(None)` otherwise; none is lost, none comes
/// twice, and no request fails. This is for packets that are not empty and
/// whose length fits a frame header.
pub proof fn law_plain_packets_interleaved(ds: Seq<Seq<u8>>, calls: Seq<ReaderCall>)
    requires
        forall|i: int| 0 <= i < ds.len() ==> 0 < #[trigger] ds[i].len() <= MAX_PACKET_LEN,
        puts_within(plain_frames(ds), 0, calls),
    ensures
        plain_frames(ds) == frames_of(unestimated(ds), Framing::Plain),
        run_answers(fresh_reader(false, false), plain_frames(ds), 0, calls) == owed_answers(
            unestimated(ds),
            Framing::Plain,
            0,
            0,
            calls,
        ),
{
    lemma_plain_frames(ds);
    let packets = unestimated(ds);
    assert forall|i: int| 0 <= i < packets.len() implies #[trigger] frame_ok(Framing::Plain, packets[i]) by {
        assert(packets[i].0 == ds[i]);
    }
    law_packets_interleaved(packets, Framing::Plain, calls);
}

} // verus!
