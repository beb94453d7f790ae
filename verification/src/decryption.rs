//! An encrypted stream is framed as its decryption is, however it is cut
//! into the pieces the reader receives.

use vstd::prelude::*;

use crate::error::NetworkError;
use crate::ext::{cfb8_decrypted, cfb8_register};
use crate::reader::{
    data_step, decrypt_with, decrypted_rest, drain, flushed, fresh_reader, header_step,
    lemma_cfb8_decrypted_len, lemma_cfb8_split, lemma_frame_header_bounds, receive, ReaderView,
    Received, BUF_LEN,
};
use crate::stream::{
    appended, law_framing_ignores_cuts, lemma_drain_keeps, lemma_drain_leaves, receive_all,
};

verus! {

/// `v` with the given decryption position, switch, key and shift register.
pub open spec fn relabeled(
    v: ReaderView,
    decrypted: nat,
    encrypted: bool,
    key: Seq<u8>,
    register: Seq<u8>,
) -> ReaderView {
    ReaderView { decrypted, encrypted, key, register, ..v }
}

/// Framing does not look at the decryption's state, and leaves it as it is.
pub proof fn lemma_drain_relabeled(
    v: ReaderView,
    decrypted: nat,
    encrypted: bool,
    key: Seq<u8>,
    register: Seq<u8>,
)
    ensures
        drain(relabeled(v, decrypted, encrypted, key, register)) == match drain(v) {
            Ok(w) => Ok::<ReaderView, NetworkError>(
                relabeled(w, decrypted, encrypted, key, register),
            ),
            Err(e) => Err(e),
        },
    decreases v.input.len(),
{
    let r = relabeled(v, decrypted, encrypted, key, register);
    if v.input.len() == 0 || v.needs_input {
    } else if v.expected > 0 {
        assert(data_step(r) == match data_step(v) {
            Ok(w) => Ok::<ReaderView, NetworkError>(
                relabeled(w, decrypted, encrypted, key, register),
            ),
            Err(e) => Err(e),
        });
        if let Ok(v1) = data_step(v) {
            if !v.single_packet {
                lemma_drain_relabeled(v1, decrypted, encrypted, key, register);
            }
        }
    } else {
        lemma_frame_header_bounds(v.input, v.compression, v.single_packet);
        assert(header_step(r) == match header_step(v) {
            Ok(w) => Ok::<ReaderView, NetworkError>(
                relabeled(w, decrypted, encrypted, key, register),
            ),
            Err(e) => Err(e),
        });
        if let Ok(v1) = header_step(v) {
            if !v1.needs_input {
                lemma_drain_relabeled(v1, decrypted, encrypted, key, register);
            }
        }
    }
}

/// What a reader that decrypts holds, as a reader of the plain stream would
/// hold it: the input that waits for decryption is decrypted.
pub open spec fn as_plain(w: ReaderView) -> ReaderView {
    ReaderView {
        input: w.input.take(w.decrypted as int) + decrypted_rest(w),
        decrypted: 0,
        encrypted: false,
        key: Seq::empty(),
        register: Seq::empty(),
        ..w
    }
}

/// The shift register once the input that waits for decryption went
/// through it.
pub open spec fn pending_register(w: ReaderView) -> Seq<u8> {
    cfb8_register(w.register, w.input.skip(w.decrypted as int))
}

/// A reader that decrypts, outside single packet mode, that can take more
/// bytes.
pub open spec fn receiving_encrypted(w: ReaderView) -> bool {
    &&& w.encrypted
    &&& w.decrypted <= w.input.len()
    &&& !w.single_packet
    &&& w.corrupted is None
    &&& w.input.len() < BUF_LEN
}

proof fn lemma_as_plain_len(w: ReaderView)
    requires
        w.decrypted <= w.input.len(),
        w.encrypted,
    ensures
        as_plain(w).input.len() == w.input.len(),
{
    lemma_cfb8_decrypted_len(w.key, w.register, w.input.skip(w.decrypted as int));
}

/// Receiving `src` on a reader that decrypts does what receiving its
/// decryption does on the plain reader it stands for.
proof fn lemma_receive_decrypts(w: ReaderView, src: Seq<u8>)
    requires
        receiving_encrypted(w),
    ensures
        match receive(w, src) {
            Received::Ready(a) => {
                &&& receiving_encrypted(a)
                &&& a.key == w.key
                &&& receive(
                    as_plain(w),
                    cfb8_decrypted(w.key, pending_register(w), src),
                ) == Received::Ready(as_plain(a))
                &&& pending_register(a) == cfb8_register(pending_register(w), src)
            },
            Received::Corrupted(e) => receive(
                as_plain(w),
                cfb8_decrypted(w.key, pending_register(w), src),
            ) == Received::Corrupted(e),
        },
    decreases src.len(),
{
    let key = w.key;
    let d = w.decrypted as int;
    let rw = pending_register(w);
    let ds = cfb8_decrypted(key, rw, src);
    let p = as_plain(w);
    lemma_cfb8_decrypted_len(key, rw, src);
    lemma_as_plain_len(w);
    if src.len() == 0 {
        assert(ds.len() == 0);
        assert(cfb8_register(rw, src) == rw);
        assert(receive(w, src) == Received::Ready(w));
        assert(receive(p, ds) == Received::Ready(p));
    } else {
        let room = BUF_LEN - w.input.len();
        let cnt: int = if src.len() < room {
            src.len() as int
        } else {
            room
        };
        let piece = src.take(cnt);
        let rest = src.skip(cnt);
        assert(piece + rest =~= src);
        lemma_cfb8_split(key, rw, piece, rest);
        lemma_cfb8_decrypted_len(key, rw, piece);
        let r1 = cfb8_register(rw, piece);
        let dp = cfb8_decrypted(key, rw, piece);
        assert(ds.take(cnt) =~= dp);
        assert(ds.skip(cnt) =~= cfb8_decrypted(key, r1, rest));
        let v1 = ReaderView { input: w.input + piece, needs_input: false, ..w };
        let p1 = ReaderView { input: p.input + ds.take(cnt), needs_input: false, ..p };
        let old_rest = w.input.skip(d);
        assert(v1.input.skip(d) =~= old_rest + piece);
        assert(v1.input.take(d) =~= w.input.take(d));
        lemma_cfb8_split(key, w.register, old_rest, piece);
        assert(pending_register(v1) == r1);
        assert(as_plain(v1).input =~= p1.input);
        assert(as_plain(v1) == p1);
        if v1.input.len() >= BUF_LEN && !v1.single_packet {
            let enc = decrypt_with(v1, decrypted_rest(v1));
            assert(enc == relabeled(p1, 0, true, key, r1));
            lemma_drain_relabeled(p1, 0, true, key, r1);
            lemma_drain_keeps(p1);
            lemma_drain_leaves(p1);
            assert(decrypt_with(p1, decrypted_rest(p1)) == p1);
            match drain(p1) {
                Err(e) => {
                    assert(receive(w, src) == Received::Corrupted(e));
                    assert(receive(p, ds) == Received::Corrupted(e));
                },
                Ok(b1) => {
                    assert(flushed(p1) == Ok::<ReaderView, NetworkError>(b1));
                    let a1 = relabeled(b1, b1.input.len(), true, key, r1);
                    assert(flushed(enc) == Ok::<ReaderView, NetworkError>(a1));
                    assert(a1.input.skip(a1.decrypted as int) =~= Seq::<u8>::empty());
                    assert(cfb8_decrypted(key, r1, Seq::<u8>::empty()) =~= Seq::<u8>::empty());
                    assert(a1.input.take(a1.decrypted as int) =~= a1.input);
                    assert(as_plain(a1).input =~= b1.input);
                    assert(as_plain(a1) == b1);
                    assert(pending_register(a1) == r1);
                    lemma_receive_decrypts(a1, rest);
                    assert(receive(w, src) == receive(a1, rest));
                    assert(receive(p, ds) == receive(b1, ds.skip(cnt)));
                },
            }
        } else {
            assert(rest.len() == 0);
            assert(ds.skip(cnt).len() == 0);
            assert(cfb8_register(r1, rest) == r1);
            assert(receive(w, src) == receive(v1, rest));
            assert(receive(v1, rest) == Received::Ready(v1));
            assert(receive(p, ds) == receive(p1, ds.skip(cnt)));
            assert(receive(p1, ds.skip(cnt)) == Received::Ready(p1));
        }
    }
}

/// The pieces of a stream cut as `pieces`, each decrypted from where the
/// pieces before it left the shift register.
pub open spec fn decrypted_pieces(key: Seq<u8>, register: Seq<u8>, pieces: Seq<Seq<u8>>) -> Seq<
    Seq<u8>,
>
    decreases pieces.len(),
{
    if pieces.len() == 0 {
        Seq::empty()
    } else {
        let init = pieces.drop_last();
        decrypted_pieces(key, register, init).push(
            cfb8_decrypted(key, cfb8_register(register, init.flatten_alt()), pieces.last()),
        )
    }
}

/// The pieces decrypted one by one make up the decryption of the whole
/// stream.
proof fn lemma_decrypted_pieces(key: Seq<u8>, register: Seq<u8>, pieces: Seq<Seq<u8>>)
    ensures
        decrypted_pieces(key, register, pieces).flatten_alt() == cfb8_decrypted(
            key,
            register,
            pieces.flatten_alt(),
        ),
    decreases pieces.len(),
{
    if pieces.len() == 0 {
        assert(cfb8_decrypted(key, register, Seq::<u8>::empty()) =~= Seq::<u8>::empty());
    } else {
        let init = pieces.drop_last();
        let dp = decrypted_pieces(key, register, pieces);
        lemma_decrypted_pieces(key, register, init);
        assert(dp.drop_last() =~= decrypted_pieces(key, register, init));
        lemma_cfb8_split(key, register, init.flatten_alt(), pieces.last());
    }
}

/// Receiving pieces on a reader that decrypts does what receiving them
/// decrypted does on the plain reader it stands for.
proof fn lemma_receive_all_decrypts(z: ReaderView, pieces: Seq<Seq<u8>>)
    requires
        receiving_encrypted(z),
    ensures
        match receive_all(z, pieces) {
            Received::Ready(a) => {
                &&& receiving_encrypted(a)
                &&& a.key == z.key
                &&& receive_all(
                    as_plain(z),
                    decrypted_pieces(z.key, pending_register(z), pieces),
                ) == Received::Ready(as_plain(a))
                &&& pending_register(a) == cfb8_register(
                    pending_register(z),
                    pieces.flatten_alt(),
                )
            },
            Received::Corrupted(e) => receive_all(
                as_plain(z),
                decrypted_pieces(z.key, pending_register(z), pieces),
            ) == Received::Corrupted(e),
        },
    decreases pieces.len(),
{
    let rz = pending_register(z);
    if pieces.len() == 0 {
        assert(cfb8_register(rz, Seq::<u8>::empty()) == rz);
    } else {
        let init = pieces.drop_last();
        let dp = decrypted_pieces(z.key, rz, pieces);
        lemma_receive_all_decrypts(z, init);
        assert(dp.drop_last() =~= decrypted_pieces(z.key, rz, init));
        if let Received::Ready(w) = receive_all(z, init) {
            lemma_receive_decrypts(w, pieces.last());
            lemma_cfb8_split(z.key, rz, init.flatten_alt(), pieces.last());
        }
    }
}

/// The view of a fresh reader, outside single packet mode, once encryption
/// was enabled with `key` before anything arrived.
pub open spec fn encrypted_reader(compression: bool, key: Seq<u8>) -> ReaderView {
    ReaderView { encrypted: true, key, register: key, ..fresh_reader(compression, false) }
}

/// However an encrypted stream is cut into the pieces a reader receives
/// (fresh, outside single packet mode, with encryption enabled with `key`
/// before anything arrived), it is framed as its decryption, received whole
/// by a reader of the plain stream, would be: after the pieces, framing what
/// the reader holds, once decrypted, reaches the state that framing the whole
/// decrypted stream at once reaches, or the reader is corrupted with the
/// error that framing the whole decrypted stream meets. The same holds of
/// the reader itself asking for a packet: it decrypts what waits and frames
/// it, and reaches that state with the decryption's state kept. The stream
/// is decrypted with AES-128 in CFB-8 mode, the key also being the
/// initialisation vector.
pub proof fn law_decryption_ignores_cuts(compression: bool, key: Seq<u8>, pieces: Seq<Seq<u8>>)
    ensures
        match receive_all(encrypted_reader(compression, key), pieces) {
            Received::Ready(w) => {
                &&& w.corrupted is None
                &&& drain(as_plain(w)) == drain(
                    appended(
                        fresh_reader(compression, false),
                        cfb8_decrypted(key, key, pieces.flatten_alt()),
                    ),
                )
                &&& drain(decrypt_with(w, decrypted_rest(w))) == match drain(
                    appended(
                        fresh_reader(compression, false),
                        cfb8_decrypted(key, key, pieces.flatten_alt()),
                    ),
                ) {
                    Ok(u) => Ok::<ReaderView, NetworkError>(
                        relabeled(u, 0, true, key, cfb8_register(key, pieces.flatten_alt())),
                    ),
                    Err(e) => Err(e),
                }
            },
            Received::Corrupted(e) => drain(
                appended(
                    fresh_reader(compression, false),
                    cfb8_decrypted(key, key, pieces.flatten_alt()),
                ),
            ) == Err::<ReaderView, NetworkError>(e),
        },
{
    let z = encrypted_reader(compression, key);
    let fresh = fresh_reader(compression, false);
    assert(z.input.skip(0) =~= Seq::<u8>::empty());
    assert(cfb8_register(key, Seq::<u8>::empty()) == key);
    assert(cfb8_decrypted(key, key, Seq::<u8>::empty()) =~= Seq::<u8>::empty());
    assert(as_plain(z).input =~= Seq::<u8>::empty());
    assert(as_plain(z) == fresh);
    let dp = decrypted_pieces(key, key, pieces);
    lemma_receive_all_decrypts(z, pieces);
    lemma_decrypted_pieces(key, key, pieces);
    law_framing_ignores_cuts(compression, dp);
    if let Received::Ready(w) = receive_all(z, pieces) {
        let r = pending_register(w);
        assert(decrypt_with(w, decrypted_rest(w)) == relabeled(as_plain(w), 0, true, key, r));
        lemma_drain_relabeled(as_plain(w), 0, true, key, r);
    }
}

} // verus!
