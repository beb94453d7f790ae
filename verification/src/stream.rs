//! The reader's framing does not depend on how the received stream is cut
//! into pieces.

use vstd::prelude::*;

use crate::error::{NetworkError, ReadError};
use crate::reader::{
    data_step, drain, flushed, frame_header, header_step, lemma_decode_bounds,
    lemma_frame_header_bounds, receive, FrameHeader, ReaderView, Received, BUF_LEN,
};
use crate::varint::varint_decode;

verus! {

/// The view once the bytes `b` arrived after `v`, before any framing: they
/// join the input, and framing may resume.
pub open spec fn appended(v: ReaderView, b: Seq<u8>) -> ReaderView {
    if b.len() == 0 {
        v
    } else {
        ReaderView { input: v.input + b, needs_input: false, ..v }
    }
}

/// Bytes that arrive in two goes join the input as if they came at once.
pub proof fn lemma_appended_twice(v: ReaderView, a: Seq<u8>, b: Seq<u8>)
    requires
        b.len() > 0,
    ensures
        appended(appended(v, a), b) == appended(v, a + b),
{
    if a.len() == 0 {
        assert(a + b =~= b);
    } else {
        assert(v.input + a + b =~= v.input + (a + b));
    }
}

/// A number whose encoding is complete (or too long) at the front of `a`
/// decodes the same whatever follows `a`.
proof fn lemma_varint_extend(a: Seq<u8>, b: Seq<u8>, budget: nat)
    requires
        varint_decode(a, budget) != Err::<(nat, nat), ReadError>(ReadError::NoMoreBytes),
    ensures
        varint_decode(a + b, budget) == varint_decode(a, budget),
    decreases budget,
{
    if budget > 0 && a.len() > 0 && a[0] >= 128 {
        lemma_varint_extend(a.drop_first(), b, (budget - 1) as nat);
        assert((a + b).drop_first() =~= a.drop_first() + b);
    }
}

/// A frame header that can be read (or is invalid) at the front of `a` reads
/// the same whatever follows `a`, outside single packet mode.
pub proof fn lemma_frame_header_extend(a: Seq<u8>, b: Seq<u8>, compression: bool)
    requires
        frame_header(a, compression, false) != FrameHeader::NeedMore,
    ensures
        frame_header(a + b, compression, false) == frame_header(a, compression, false),
{
    lemma_decode_bounds(a, 5);
    lemma_varint_extend(a, b, 5);
    if let Ok((v, n1)) = varint_decode(a, 5) {
        assert((a + b).skip(n1 as int) =~= a.skip(n1 as int) + b);
        if compression {
            if varint_decode(a.skip(n1 as int), 5) != Err::<(nat, nat), ReadError>(
                ReadError::NoMoreBytes,
            ) {
                lemma_varint_extend(a.skip(n1 as int), b, 5);
            }
        }
    }
}

/// Framing keeps the reader's settings, its stored error and its
/// decryption position.
pub proof fn lemma_drain_keeps(v: ReaderView)
    ensures
        drain(v) matches Ok(w) ==> {
            &&& w.decrypted == v.decrypted
            &&& w.compression == v.compression
            &&& w.single_packet == v.single_packet
            &&& w.encrypted == v.encrypted
            &&& w.key == v.key
            &&& w.register == v.register
            &&& w.corrupted == v.corrupted
        },
    decreases v.input.len(),
{
    if v.input.len() == 0 || v.needs_input {
    } else if v.expected > 0 {
        if let Ok(v1) = data_step(v) {
            if !v.single_packet {
                lemma_drain_keeps(v1);
            }
        }
    } else {
        lemma_frame_header_bounds(v.input, v.compression, v.single_packet);
        if let Ok(v1) = header_step(v) {
            if !v1.needs_input {
                lemma_drain_keeps(v1);
            }
        }
    }
}

/// An incomplete frame header takes up fewer than ten bytes: two numbers of
/// at most five bytes.
proof fn lemma_needmore_short(a: Seq<u8>, compression: bool)
    requires
        frame_header(a, compression, false) == FrameHeader::NeedMore,
    ensures
        a.len() < 10,
{
    lemma_decode_bounds(a, 5);
    if let Ok((v, n1)) = varint_decode(a, 5) {
        lemma_decode_bounds(a.skip(n1 as int), 5);
        lemma_short_when_no_more(a.skip(n1 as int), 5);
    } else {
        lemma_short_when_no_more(a, 5);
    }
}

proof fn lemma_short_when_no_more(a: Seq<u8>, budget: nat)
    requires
        varint_decode(a, budget) == Err::<(nat, nat), ReadError>(ReadError::NoMoreBytes),
    ensures
        a.len() < budget,
    decreases budget,
{
    if budget > 0 && a.len() > 0 {
        lemma_short_when_no_more(a.drop_first(), (budget - 1) as nat);
    }
}

/// Outside single packet mode, framing stops with all the input taken, or
/// with an incomplete frame header left (fewer than ten bytes).
pub proof fn lemma_drain_leaves(v: ReaderView)
    requires
        !v.single_packet,
        !v.needs_input || v.input.len() == 0,
    ensures
        drain(v) matches Ok(w) ==> w.input.len() == 0 || (w.expected == 0 && frame_header(
            w.input,
            w.compression,
            false,
        ) == FrameHeader::NeedMore && w.input.len() < 10),
    decreases v.input.len(),
{
    if v.input.len() == 0 || v.needs_input {
    } else if v.expected > 0 {
        if let Ok(v1) = data_step(v) {
            lemma_drain_leaves(v1);
        }
    } else {
        lemma_frame_header_bounds(v.input, v.compression, v.single_packet);
        match frame_header(v.input, v.compression, v.single_packet) {
            FrameHeader::NeedMore => {
                lemma_needmore_short(v.input, v.compression);
            },
            _ => {
                if let Ok(v1) = header_step(v) {
                    lemma_drain_leaves(v1);
                }
            },
        }
    }
}

/// Framing a view once more changes nothing outside single packet mode.
proof fn lemma_drain_fixpoint(v: ReaderView)
    requires
        !v.single_packet,
    ensures
        drain(v) matches Ok(w) ==> drain(w) == Ok::<ReaderView, NetworkError>(w),
    decreases v.input.len(),
{
    if v.input.len() == 0 || v.needs_input {
    } else if v.expected > 0 {
        if let Ok(v1) = data_step(v) {
            lemma_drain_fixpoint(v1);
        }
    } else {
        lemma_frame_header_bounds(v.input, v.compression, v.single_packet);
        if let Ok(v1) = header_step(v) {
            if !v1.needs_input {
                lemma_drain_fixpoint(v1);
            }
        }
    }
}

/// Taking packet bytes from input that ends before the packet does, then
/// from the bytes that arrive next, takes the same bytes as taking them from
/// both at once.
proof fn lemma_data_step_partial(v: ReaderView, b: Seq<u8>)
    requires
        v.expected > 0,
        !v.needs_input,
        v.input.len() < v.expected,
        b.len() > 0,
    ensures
        data_step(v) matches Ok(v1) && data_step(appended(v1, b)) == data_step(appended(v, b)),
{
    let k = v.input.len();
    let v1 = ReaderView {
        input: v.input.skip(k as int),
        expected: (v.expected - k) as nat,
        pending: if v.compressed {
            v.pending + v.input.take(k as int)
        } else {
            v.pending
        },
        processed: if v.compressed {
            v.processed
        } else {
            v.processed + v.input.take(k as int)
        },
        ..v
    };
    assert(data_step(v) == Ok::<ReaderView, NetworkError>(v1));
    let x = appended(v, b);
    let y = appended(v1, b);
    let i = v.input + b;
    let k2: int = if i.len() < v.expected {
        i.len() as int
    } else {
        v.expected as int
    };
    let kb: int = k2 - k;
    assert(y.input =~= b);
    assert(i.take(k2) =~= v.input + b.take(kb));
    assert(i.skip(k2) =~= b.skip(kb));
    assert(v.input.take(k as int) =~= v.input);
    assert(v.pending + v.input + b.take(kb) =~= v.pending + (v.input + b.take(kb)));
    assert(v.processed + v.input + b.take(kb) =~= v.processed + (v.input + b.take(kb)));
}

/// When the packet's last bytes are already in the input, the bytes that
/// arrive next are left over as they were.
proof fn lemma_data_step_full(v: ReaderView, b: Seq<u8>)
    requires
        v.expected > 0,
        !v.needs_input,
        v.expected <= v.input.len(),
        b.len() > 0,
    ensures
        data_step(appended(v, b)) == (match data_step(v) {
            Ok(v2) => Ok(appended(v2, b)),
            Err(e) => Err(e),
        }),
        data_step(v) matches Ok(v2) ==> !v2.needs_input && v2.input.len() < v.input.len(),
{
    let k = v.expected;
    let i = v.input + b;
    assert(i.take(k as int) =~= v.input.take(k as int));
    assert(i.skip(k as int) =~= v.input.skip(k as int) + b);
}

/// Framing `v`, then the bytes `b` that arrive next, frames the same as
/// framing both at once: the same state, or the same error.
pub open spec fn append_agrees(v: ReaderView, b: Seq<u8>) -> bool {
    match drain(v) {
        Ok(w) => drain(appended(w, b)) == drain(appended(v, b)),
        Err(e) => drain(appended(v, b)) == Err::<ReaderView, NetworkError>(e),
    }
}

proof fn lemma_append_partial(v: ReaderView, b: Seq<u8>)
    requires
        !v.single_packet,
        v.expected > 0,
        !v.needs_input,
        0 < v.input.len() < v.expected,
        b.len() > 0,
    ensures
        append_agrees(v, b),
{
    lemma_data_step_partial(v, b);
    let v1 = data_step(v)->Ok_0;
    assert(drain(v1) == Ok::<ReaderView, NetworkError>(v1));
    assert(drain(v) == Ok::<ReaderView, NetworkError>(v1));
    assert(drain(appended(v1, b)) == (match data_step(appended(v1, b)) {
        Err(e) => Err(e),
        Ok(x) => drain(x),
    }));
}

proof fn lemma_append_full(v: ReaderView, b: Seq<u8>)
    requires
        !v.single_packet,
        v.expected > 0,
        !v.needs_input,
        0 < v.expected <= v.input.len(),
        b.len() > 0,
        data_step(v) matches Ok(v2) ==> append_agrees(v2, b),
    ensures
        append_agrees(v, b),
{
    lemma_data_step_full(v, b);
    assert(drain(appended(v, b)) == (match data_step(appended(v, b)) {
        Err(e) => Err(e),
        Ok(x) => drain(x),
    }));
    if let Ok(v2) = data_step(v) {
        assert(drain(v) == drain(v2));
    }
}

proof fn lemma_append_header(v: ReaderView, b: Seq<u8>)
    requires
        !v.single_packet,
        v.expected == 0,
        !v.needs_input,
        v.input.len() > 0,
        b.len() > 0,
        header_step(v) matches Ok(v1) ==> (v1.needs_input || append_agrees(v1, b)),
    ensures
        append_agrees(v, b),
{
    lemma_frame_header_bounds(v.input, v.compression, v.single_packet);
    let x = appended(v, b);
    match frame_header(v.input, v.compression, v.single_packet) {
        FrameHeader::NeedMore => {
            assert(appended(ReaderView { needs_input: true, ..v }, b) == x);
        },
        FrameHeader::Invalid => {
            lemma_frame_header_extend(v.input, b, v.compression);
        },
        FrameHeader::Start { consumed, .. } => {
            lemma_frame_header_extend(v.input, b, v.compression);
            let v1 = header_step(v)->Ok_0;
            assert(x.input.skip(consumed as int) =~= v1.input + b);
            assert(header_step(x) == Ok::<ReaderView, NetworkError>(appended(v1, b)));
            assert(drain(v) == drain(v1));
            assert(drain(x) == drain(appended(v1, b)));
        },
    }
}

/// Framing the input, then the bytes that arrive next, frames the same as
/// framing both at once: the same state, or the same error (outside single
/// packet mode).
pub proof fn lemma_drain_append(v: ReaderView, b: Seq<u8>)
    requires
        !v.single_packet,
    ensures
        append_agrees(v, b),
    decreases v.input.len(),
{
    lemma_drain_fixpoint(v);
    if b.len() == 0 {
    } else if v.input.len() == 0 || v.needs_input {
    } else if v.expected > 0 {
        if v.input.len() < v.expected {
            lemma_append_partial(v, b);
        } else {
            lemma_data_step_full(v, b);
            if let Ok(v2) = data_step(v) {
                lemma_drain_append(v2, b);
            }
            lemma_append_full(v, b);
        }
    } else {
        lemma_frame_header_bounds(v.input, v.compression, v.single_packet);
        if let Ok(v1) = header_step(v) {
            if !v1.needs_input {
                lemma_drain_append(v1, b);
            }
        }
        lemma_append_header(v, b);
    }
}

/// `w` is what a reader that started at `z` holds after receiving `total`:
/// the first `k` bytes were framed (giving `u`), the rest wait in the window.
pub open spec fn received_split(
    z: ReaderView,
    total: Seq<u8>,
    k: int,
    u: ReaderView,
    w: ReaderView,
) -> bool {
    &&& 0 <= k <= total.len()
    &&& drain(appended(z, total.take(k))) == Ok::<ReaderView, NetworkError>(u)
    &&& w == appended(u, total.skip(k))
    &&& w.input.len() < BUF_LEN
}

/// A reader state that framing starts from: plain, outside single packet
/// mode, without a stored error and with nothing received.
pub open spec fn plain_start(z: ReaderView) -> bool {
    &&& !z.single_packet
    &&& !z.encrypted
    &&& z.decrypted == 0
    &&& z.corrupted is None
    &&& z.input.len() == 0
}

/// On a plain stream with nothing decrypted, framing for a packet is just
/// framing.
pub proof fn lemma_flushed_plain(v: ReaderView)
    requires
        !v.encrypted,
        v.decrypted == 0,
    ensures
        flushed(v) == drain(v),
{
    lemma_drain_keeps(v);
    if let Ok(w) = drain(v) {
        assert((ReaderView { decrypted: 0, ..w }) == w);
    }
}

/// Receiving `src` after `total` keeps the reader's state split as
/// [`received_split`] describes, or corrupts it with the error that framing
/// everything at once meets.
pub proof fn lemma_receive_framing(z: ReaderView, total: Seq<u8>, k: int, u: ReaderView, src: Seq<u8>)
    requires
        plain_start(z),
        received_split(z, total, k, u, appended(u, total.skip(k))),
    ensures
        match receive(appended(u, total.skip(k)), src) {
            Received::Ready(w) => exists|k2: int, u2: ReaderView|
                k <= k2 && #[trigger] received_split(z, total + src, k2, u2, w),
            Received::Corrupted(e) => drain(appended(z, total + src)) == Err::<
                ReaderView,
                NetworkError,
            >(e),
        },
    decreases src.len(),
{
    let w0 = appended(u, total.skip(k));
    let x = appended(z, total.take(k));
    lemma_drain_keeps(x);
    if src.len() == 0 {
        assert(total + src =~= total);
        assert(received_split(z, total + src, k, u, w0));
    } else {
        let room = BUF_LEN - w0.input.len();
        let cnt: int = if src.len() < room {
            src.len() as int
        } else {
            room
        };
        let piece = src.take(cnt);
        let rest = src.skip(cnt);
        let v1 = ReaderView { input: w0.input + piece, needs_input: false, ..w0 };
        assert(v1 == appended(w0, piece));
        lemma_appended_twice(u, total.skip(k), piece);
        let b = total.skip(k) + piece;
        let t2 = (total + src).take(total.len() + cnt);
        assert(total.take(k) + b =~= t2);
        lemma_appended_twice(z, total.take(k), b);
        lemma_drain_append(x, b);
        assert(drain(v1) == drain(appended(z, t2)));
        assert(w0.corrupted is None);
        if v1.input.len() >= BUF_LEN && !v1.single_packet {
            lemma_flushed_plain(v1);
            assert(receive(w0, src) == (match flushed(v1) {
                Err(e) => Received::Corrupted(e),
                Ok(w) => receive(w, rest),
            }));
            assert(t2 + rest =~= total + src);
            match drain(appended(z, t2)) {
                Err(e) => {
                    lemma_drain_append(appended(z, t2), rest);
                    if rest.len() > 0 {
                        lemma_appended_twice(z, t2, rest);
                    }
                },
                Ok(w1) => {
                    lemma_drain_leaves(appended(z, t2));
                    lemma_drain_keeps(appended(z, t2));
                    assert(t2.skip(t2.len() as int).len() == 0);
                    assert(t2.take(t2.len() as int) =~= t2);
                    assert(received_split(z, t2, t2.len() as int, w1, appended(w1, t2.skip(t2.len() as int))));
                    lemma_receive_framing(z, t2, t2.len() as int, w1, rest);
                },
            }
        } else {
            assert(rest.len() == 0);
            assert(receive(w0, src) == receive(v1, rest));
            assert(receive(v1, rest) == Received::Ready(v1));
            assert((total + src).take(k) =~= total.take(k));
            assert((total + src).skip(k) =~= b);
            assert(received_split(z, total + src, k, u, v1));
        }
    }
}

/// Receiving `pieces` one after the other, as successive calls of
/// [`put_slice`](crate::reader::McReader::put_slice) do; a reader corrupted
/// on the way stays so.
pub open spec fn receive_all(v: ReaderView, pieces: Seq<Seq<u8>>) -> Received
    decreases pieces.len(),
{
    if pieces.len() == 0 {
        Received::Ready(v)
    } else {
        match receive_all(v, pieces.drop_last()) {
            Received::Ready(w) => receive(w, pieces.last()),
            Received::Corrupted(e) => Received::Corrupted(e),
        }
    }
}

/// What a reader holds after receiving `pieces`: the stream split as
/// [`received_split`] describes, or an error that framing the whole stream
/// meets.
pub proof fn lemma_receive_all(z: ReaderView, pieces: Seq<Seq<u8>>)
    requires
        plain_start(z),
    ensures
        match receive_all(z, pieces) {
            Received::Ready(w) => exists|k: int, u: ReaderView|
                received_split(z, pieces.flatten_alt(), k, u, w),
            Received::Corrupted(e) => drain(appended(z, pieces.flatten_alt())) == Err::<
                ReaderView,
                NetworkError,
            >(e),
        },
    decreases pieces.len(),
{
    let t = pieces.flatten_alt();
    if pieces.len() == 0 {
        assert(t.take(0) =~= Seq::<u8>::empty());
        assert(t.skip(0).len() == 0);
        assert(received_split(z, t, 0, z, z));
    } else {
        let init = pieces.drop_last();
        lemma_receive_all(z, init);
        let t0 = init.flatten_alt();
        assert(t == t0 + pieces.last());
        match receive_all(z, init) {
            Received::Ready(w) => {
                let (k, u) = choose|k: int, u: ReaderView| received_split(z, t0, k, u, w);
                lemma_receive_framing(z, t0, k, u, pieces.last());
            },
            Received::Corrupted(e) => {
                lemma_drain_append(appended(z, t0), pieces.last());
                if pieces.last().len() > 0 {
                    lemma_appended_twice(z, t0, pieces.last());
                } else {
                    assert(t =~= t0);
                }
            },
        }
    }
}

/// However a stream is cut into the pieces a fresh reader receives (plain,
/// outside single packet mode), asking it for packets frames the stream as
/// receiving it whole would: after the pieces, the framed state the reader
/// reaches is that of framing the whole stream at once, or the reader is
/// corrupted with the error that framing the whole stream meets.
pub proof fn law_framing_ignores_cuts(compression: bool, pieces: Seq<Seq<u8>>)
    ensures
        match receive_all(crate::reader::fresh_reader(compression, false), pieces) {
            Received::Ready(w) => w.corrupted is None && drain(w) == drain(
                appended(crate::reader::fresh_reader(compression, false), pieces.flatten_alt()),
            ),
            Received::Corrupted(e) => drain(
                appended(crate::reader::fresh_reader(compression, false), pieces.flatten_alt()),
            ) == Err::<ReaderView, NetworkError>(e),
        },
{
    let z = crate::reader::fresh_reader(compression, false);
    let t = pieces.flatten_alt();
    lemma_receive_all(z, pieces);
    if let Received::Ready(w) = receive_all(z, pieces) {
        let (k, u) = choose|k: int, u: ReaderView| received_split(z, t, k, u, w);
        let x = appended(z, t.take(k));
        lemma_drain_keeps(x);
        lemma_drain_append(x, t.skip(k));
        if t.skip(k).len() > 0 {
            lemma_appended_twice(z, t.take(k), t.skip(k));
        }
        assert(t.take(k) + t.skip(k) =~= t);
        if t.skip(k).len() == 0 {
            assert(t.take(k) =~= t);
            lemma_drain_fixpoint(x);
        }
    }
}

/// `frame` is one whole frame: its header reads, and the packet's bytes
/// take up the rest of it.
pub open spec fn single_frame(frame: Seq<u8>, compression: bool) -> bool {
    frame_header(frame, compression, false) matches FrameHeader::Start { consumed, expected, .. }
        && consumed + expected == frame.len() && expected > 0
}

/// Framing the first bytes of one frame, short of all of it, after a reader
/// state between frames completes no packet and meets no error: what was
/// ready stays so, and the bytes framed before stay in front.
pub proof fn lemma_frame_prefix(y: ReaderView, frame: Seq<u8>, k: int)
    requires
        single_frame(frame, y.compression),
        0 <= k < frame.len(),
        y.input.len() == 0,
        y.expected == 0,
        !y.single_packet,
        y.ready <= y.processed.len(),
    ensures
        drain(appended(y, frame.take(k))) matches Ok(u) && u.ready == y.ready && y.processed.len()
            <= u.processed.len() && u.processed.take(y.processed.len() as int) == y.processed,
{
    let p = frame.take(k);
    let compression = y.compression;
    if k == 0 {
        assert(p.len() == 0);
        assert(drain(y) == Ok::<ReaderView, NetworkError>(y));
        assert(y.processed.take(y.processed.len() as int) =~= y.processed);
    } else {
        let v = appended(y, p);
        assert(v.input =~= p);
        if frame_header(p, compression, false) != FrameHeader::NeedMore {
            lemma_frame_header_extend(p, frame.skip(k), compression);
            assert(p + frame.skip(k) =~= frame);
            lemma_frame_header_bounds(p, compression, false);
            let v1 = header_step(v)->Ok_0;
            assert(v1.ready == y.ready);
            assert(v1.input.len() < v1.expected);
            assert(drain(v) == drain(v1));
            if v1.input.len() > 0 {
                let v2 = data_step(v1)->Ok_0;
                assert(v2.input.len() == 0);
                assert(drain(v2) == Ok::<ReaderView, NetworkError>(v2));
                assert(drain(v1) == drain(v2));
                assert(v2.processed.take(y.processed.len() as int) =~= y.processed);
            } else {
                assert(drain(v1) == Ok::<ReaderView, NetworkError>(v1));
                assert(v1.processed.take(y.processed.len() as int) =~= y.processed);
            }
        } else {
            assert(drain(v) == Ok::<ReaderView, NetworkError>(ReaderView { needs_input: true, ..v }));
            assert(y.processed.take(y.processed.len() as int) =~= y.processed);
        }
    }
}

} // verus!
