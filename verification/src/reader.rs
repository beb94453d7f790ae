//! Cutting the packets out of the byte stream a connection receives.
//!
//! On the wire every packet is framed by its length as a variable-length
//! integer. With compression enabled the frame also holds the length of the
//! packet once decompressed, which is zero for packets sent as they are.
//! A [`McReader`] takes the raw stream in pieces of any size, decrypts it
//! when encryption is enabled, and hands out the packets one by one.

use vstd::prelude::*;

use bytes::Bytes;

use crate::buf::ReadBuf;
use crate::error::{NetworkError, ReadError};
use crate::ext::{
    aes128_enciphered, bytes_view, cfb8_decrypt_from, cfb8_decrypted, cfb8_register, cfb8_shift,
    zlib_decompress, zlib_decompressed,
};
use crate::num::{be_bytes, be_value};
use crate::util::{drop_front, extend_bytes};
use crate::varint::{read_varint, varint_decode};

verus! {

/// Size of the window in which received bytes wait to be framed: 4 KiB.
pub const BUF_LEN: usize = 4096;

/// The largest packet length: the largest number a three-byte
/// variable-length integer can hold.
pub const MAX_PACKET_LEN: usize = 2097151;

/// What the front of the received stream says about the next packet.
#[derive(Debug, Clone, Copy, PartialEq, Eq)]
pub enum FrameHeader {
    /// The frame header is not complete yet (or, in single packet mode, the
    /// packet itself is not).
    NeedMore,
    /// The header is malformed or announces a length out of range.
    Invalid,
    /// A packet starts: the header takes up `consumed` bytes and `expected`
    /// more bytes belong to the packet. `prefix` is the length the packet
    /// will have once received (decompressed where `compressed`).
    Start { consumed: usize, expected: usize, prefix: u32, compressed: bool },
}

/// Reading the frame header at the front of `input`.
///
/// The first variable-length integer is the length of the rest of the frame.
/// With compression the second one is the decompressed length, or zero for a
/// packet that was not compressed; it counts towards the frame length.
pub open spec fn frame_header(input: Seq<u8>, compression: bool, single_packet: bool) -> FrameHeader {
    match varint_decode(input, 5) {
        Err(ReadError::NoMoreBytes) => FrameHeader::NeedMore,
        Err(_) => FrameHeader::Invalid,
        Ok((v, n1)) => {
            let len = v % 0x1_0000_0000;
            if len > MAX_PACKET_LEN {
                FrameHeader::Invalid
            } else if single_packet && input.len() - n1 < len {
                FrameHeader::NeedMore
            } else if !compression {
                FrameHeader::Start {
                    consumed: n1 as usize,
                    expected: len as usize,
                    prefix: len as u32,
                    compressed: false,
                }
            } else {
                match varint_decode(input.skip(n1 as int), 5) {
                    Err(ReadError::NoMoreBytes) => FrameHeader::NeedMore,
                    Err(_) => FrameHeader::Invalid,
                    Ok((w, n2)) => {
                        let data_len = w % 0x1_0000_0000;
                        if data_len > MAX_PACKET_LEN || len < n2 {
                            FrameHeader::Invalid
                        } else if data_len != 0 {
                            FrameHeader::Start {
                                consumed: (n1 + n2) as usize,
                                expected: (len - n2) as usize,
                                prefix: data_len as u32,
                                compressed: true,
                            }
                        } else {
                            FrameHeader::Start {
                                consumed: (n1 + n2) as usize,
                                expected: (len - n2) as usize,
                                prefix: (len - 1) as u32,
                                compressed: false,
                            }
                        }
                    },
                }
            }
        },
    }
}

/// A decoded number takes between one and `budget` bytes of the input;
/// decoding fails only for running out of input or of budget.
pub proof fn lemma_decode_bounds(input: Seq<u8>, budget: nat)
    ensures
        varint_decode(input, budget) matches Ok((v, n)) ==> 1 <= n <= budget && n <= input.len(),
        varint_decode(input, budget) matches Err(e) ==> (e == ReadError::NoMoreBytes || e
            == ReadError::VarTooLong),
    decreases budget,
{
    if budget > 0 && input.len() > 0 && input[0] >= 128 {
        lemma_decode_bounds(input.drop_first(), (budget - 1) as nat);
    }
}

/// A packet that starts takes up at least one byte of the input and at most
/// all of it.
pub proof fn lemma_frame_header_bounds(input: Seq<u8>, compression: bool, single_packet: bool)
    ensures
        frame_header(input, compression, single_packet) matches FrameHeader::Start {
            consumed,
            expected,
            ..
        } ==> 1 <= consumed <= input.len() && expected <= MAX_PACKET_LEN,
{
    lemma_decode_bounds(input, 5);
    if let Ok((v, n1)) = varint_decode(input, 5) {
        lemma_decode_bounds(input.skip(n1 as int), 5);
    }
}

/// Reads the frame header at the front of `input`.
pub fn parse_frame_header(input: &[u8], compression: bool, single_packet: bool) -> (h: FrameHeader)
    ensures
        h == frame_header(input@, compression, single_packet),
{
    proof {
        lemma_decode_bounds(input@, 5);
    }
    let mut buf = ReadBuf::from_slice(input);
    let total = buf.remaining();
    let v = match read_varint(&mut buf, 5) {
        Ok(v) => v,
        Err(ReadError::NoMoreBytes) => return FrameHeader::NeedMore,
        Err(_) => return FrameHeader::Invalid,
    };
    let n1 = total - buf.remaining();
    let len = v % 0x1_0000_0000;
    if len > MAX_PACKET_LEN as u128 {
        return FrameHeader::Invalid;
    }
    let len = len as usize;
    if single_packet && buf.remaining() < len {
        return FrameHeader::NeedMore;
    }
    if !compression {
        return FrameHeader::Start { consumed: n1, expected: len, prefix: len as u32, compressed: false };
    }
    let rest = buf.remaining();
    proof {
        lemma_decode_bounds(input@.skip(n1 as int), 5);
    }
    let w = match read_varint(&mut buf, 5) {
        Ok(w) => w,
        Err(ReadError::NoMoreBytes) => return FrameHeader::NeedMore,
        Err(_) => return FrameHeader::Invalid,
    };
    let n2 = rest - buf.remaining();
    let data_len = w % 0x1_0000_0000;
    if data_len > MAX_PACKET_LEN as u128 || len < n2 {
        FrameHeader::Invalid
    } else if data_len != 0 {
        FrameHeader::Start {
            consumed: n1 + n2,
            expected: len - n2,
            prefix: data_len as u32,
            compressed: true,
        }
    } else {
        FrameHeader::Start {
            consumed: n1 + n2,
            expected: len - n2,
            prefix: (len - 1) as u32,
            compressed: false,
        }
    }
}

/// The state of a [`McReader`], as contracts speak of it.
pub ghost struct ReaderView {
    /// Received bytes not yet taken into a packet.
    pub input: Seq<u8>,
    /// How many bytes at the front of `input` are already decrypted.
    pub decrypted: nat,
    /// How many more bytes belong to the packet being received.
    pub expected: nat,
    /// Set when the front of `input` cannot be framed before more bytes
    /// arrive.
    pub needs_input: bool,
    /// The compressed bytes of the packet being received.
    pub pending: Seq<u8>,
    /// Whether the packet being received is compressed.
    pub compressed: bool,
    /// The received packets, each as its length in four big-endian bytes
    /// followed by its bytes; the last may still be incomplete.
    pub processed: Seq<u8>,
    /// How many bytes at the front of `processed` make up complete packets.
    pub ready: nat,
    /// Whether frames carry a decompressed length.
    pub compression: bool,
    /// Whether at most one packet is framed at a time.
    pub single_packet: bool,
    /// Whether the stream is decrypted.
    pub encrypted: bool,
    /// The AES-128 key of the decryption.
    pub key: Seq<u8>,
    /// The CFB-8 shift register once the bytes decrypted so far went
    /// through it.
    pub register: Seq<u8>,
    /// An error met while framing on receipt, to be reported by the next
    /// call for a packet.
    pub corrupted: Option<NetworkError>,
}

/// The result of framing one header: the packet's bytes follow.
pub open spec fn header_step(v: ReaderView) -> Result<ReaderView, NetworkError> {
    match frame_header(v.input, v.compression, v.single_packet) {
        FrameHeader::NeedMore => Ok(ReaderView { needs_input: true, ..v }),
        FrameHeader::Invalid => Err(NetworkError::InvalidData),
        FrameHeader::Start { consumed, expected, prefix, compressed } => Ok(
            ReaderView {
                input: v.input.skip(consumed as int),
                expected: expected as nat,
                compressed: v.compressed || compressed,
                processed: v.processed + be_bytes(prefix as nat, 4),
                ..v
            },
        ),
    }
}

/// Completing the packet being received: a compressed one is inflated, and
/// everything received so far is ready.
pub open spec fn finish_step(v: ReaderView) -> Result<ReaderView, NetworkError> {
    if v.compressed {
        match zlib_decompressed(v.pending) {
            None => Err(NetworkError::InvalidInput),
            Some(d) => Ok(
                ReaderView {
                    pending: Seq::empty(),
                    compressed: false,
                    processed: v.processed + d,
                    ready: (v.processed + d).len(),
                    ..v
                },
            ),
        }
    } else {
        Ok(ReaderView { ready: v.processed.len(), ..v })
    }
}

/// The packet being received once it took as many received bytes as belong
/// to it, before it is completed.
pub open spec fn take_data(v: ReaderView) -> ReaderView {
    let k = if v.input.len() < v.expected {
        v.input.len()
    } else {
        v.expected
    };
    let chunk = v.input.take(k as int);
    ReaderView {
        input: v.input.skip(k as int),
        expected: (v.expected - k) as nat,
        pending: if v.compressed {
            v.pending + chunk
        } else {
            v.pending
        },
        processed: if v.compressed {
            v.processed
        } else {
            v.processed + chunk
        },
        ..v
    }
}

/// Taking as many received bytes into the packet being received as belong
/// to it, and completing the packet when they are all there.
pub open spec fn data_step(v: ReaderView) -> Result<ReaderView, NetworkError> {
    let v1 = take_data(v);
    if v1.expected > 0 {
        Ok(v1)
    } else {
        finish_step(v1)
    }
}

/// Framing the received bytes: headers and packet bytes in turn, until the
/// input runs out or cannot be framed yet. In single packet mode it stops
/// once a packet's bytes were taken.
pub open spec fn drain(v: ReaderView) -> Result<ReaderView, NetworkError>
    decreases v.input.len(),
{
    if v.input.len() == 0 || v.needs_input {
        Ok(v)
    } else if v.expected > 0 {
        match data_step(v) {
            Err(e) => Err(e),
            Ok(v1) => if v.single_packet {
                Ok(v1)
            } else {
                drain(v1)
            },
        }
    } else {
        proof {
            lemma_frame_header_bounds(v.input, v.compression, v.single_packet);
        }
        match header_step(v) {
            Err(e) => Err(e),
            Ok(v1) => if v1.needs_input {
                Ok(v1)
            } else {
                drain(v1)
            },
        }
    }
}

/// Where framing stops: the state [`drain`] reaches, or the state in which it
/// met an error. A malformed frame header leaves the state as it was before
/// that header; a packet that does not inflate leaves its bytes taken.
pub open spec fn drain_stop(v: ReaderView) -> ReaderView
    decreases v.input.len(),
{
    if v.input.len() == 0 || v.needs_input {
        v
    } else if v.expected > 0 {
        match data_step(v) {
            Err(_) => take_data(v),
            Ok(v1) => if v.single_packet {
                v1
            } else {
                drain_stop(v1)
            },
        }
    } else {
        proof {
            lemma_frame_header_bounds(v.input, v.compression, v.single_packet);
        }
        match header_step(v) {
            Err(_) => v,
            Ok(v1) => if v1.needs_input {
                v1
            } else {
                drain_stop(v1)
            },
        }
    }
}

/// `plain` is what the not yet decrypted part of the input decrypts to: its
/// CFB-8 decryption on an encrypted stream, and the input itself otherwise.
pub open spec fn valid_plain(v: ReaderView, plain: Seq<u8>) -> bool {
    &&& v.decrypted <= v.input.len()
    &&& plain.len() == v.input.len() - v.decrypted
    &&& !v.encrypted ==> plain == v.input.skip(v.decrypted as int)
    &&& v.encrypted ==> plain == cfb8_decrypted(v.key, v.register, v.input.skip(v.decrypted as int))
}

/// What the not yet decrypted part of the input decrypts to.
pub open spec fn decrypted_rest(v: ReaderView) -> Seq<u8> {
    if v.encrypted {
        cfb8_decrypted(v.key, v.register, v.input.skip(v.decrypted as int))
    } else {
        v.input.skip(v.decrypted as int)
    }
}

/// The state once the not yet decrypted input reads `plain`; the ciphertext
/// went through the shift register.
pub open spec fn decrypt_with(v: ReaderView, plain: Seq<u8>) -> ReaderView {
    if v.encrypted {
        ReaderView {
            input: v.input.take(v.decrypted as int) + plain,
            decrypted: 0,
            register: cfb8_register(v.register, v.input.skip(v.decrypted as int)),
            ..v
        }
    } else {
        v
    }
}

/// Framing the received (and decrypted) bytes; what is left over counts as
/// decrypted.
pub open spec fn flushed(v: ReaderView) -> Result<ReaderView, NetworkError> {
    match drain(v) {
        Ok(w) => Ok(
            ReaderView {
                decrypted: if w.encrypted {
                    w.input.len()
                } else {
                    0
                },
                ..w
            },
        ),
        Err(e) => Err(e),
    }
}

/// Taking the first complete packet out of `processed`.
pub open spec fn extract(v: ReaderView) -> (ReaderView, Result<Option<Seq<u8>>, NetworkError>) {
    if v.ready < 4 {
        (v, Err(NetworkError::InvalidData))
    } else {
        let len = be_value(v.processed.take(4));
        if v.ready < 4 + len {
            (v, Err(NetworkError::InvalidData))
        } else {
            (
                ReaderView {
                    processed: v.processed.skip((4 + len) as int),
                    ready: (v.ready - 4 - len) as nat,
                    ..v
                },
                Ok(Some(v.processed.subrange(4, (4 + len) as int))),
            )
        }
    }
}

/// `r` is the outcome `s`, with a packet as its bytes.
pub open spec fn packet_matches(
    r: Result<Option<Bytes>, NetworkError>,
    s: Result<Option<Seq<u8>>, NetworkError>,
) -> bool {
    match (r, s) {
        (Ok(Some(b)), Ok(Some(p))) => bytes_view(b) == p,
        (Ok(None), Ok(None)) => true,
        (Err(a), Err(b)) => a == b,
        _ => false,
    }
}

/// What asking for the next packet does: a stored error is reported (once);
/// a ready packet is handed out; otherwise the received bytes are framed
/// first, with `plain` as the newly decrypted bytes, and an error there is
/// returned with the reader where framing stopped.
pub open spec fn next_outcome(
    old: ReaderView,
    plain: Seq<u8>,
    new: ReaderView,
    r: Result<Option<Bytes>, NetworkError>,
) -> bool {
    match old.corrupted {
        Some(e) => r == Err::<Option<Bytes>, NetworkError>(e) && new == ReaderView {
            corrupted: None,
            ..old
        },
        None => if old.ready > 0 {
            new == extract(old).0 && packet_matches(r, extract(old).1)
        } else {
            match flushed(decrypt_with(old, plain)) {
                Err(e) => r == Err::<Option<Bytes>, NetworkError>(e) && new == drain_stop(
                    decrypt_with(old, plain),
                ),
                Ok(w) => if w.ready > 0 {
                    new == extract(w).0 && packet_matches(r, extract(w).1)
                } else {
                    new == w && r == Ok::<Option<Bytes>, NetworkError>(None)
                },
            }
        },
    }
}

/// Asking the reader `v` for the next packet: the state it is left in, and
/// the outcome, with a packet as its bytes (see [`next_outcome`]).
pub open spec fn asked(v: ReaderView) -> (ReaderView, Result<Option<Seq<u8>>, NetworkError>) {
    match v.corrupted {
        Some(e) => (ReaderView { corrupted: None, ..v }, Err(e)),
        None => if v.ready > 0 {
            extract(v)
        } else {
            let x = decrypt_with(v, decrypted_rest(v));
            match flushed(x) {
                Err(e) => (drain_stop(x), Err(e)),
                Ok(w) => if w.ready > 0 {
                    extract(w)
                } else {
                    (w, Ok(None))
                },
            }
        },
    }
}

/// The outcome of asking for a packet is the one [`asked`] gives.
pub proof fn lemma_next_outcome_asked(
    v: ReaderView,
    new: ReaderView,
    r: Result<Option<Bytes>, NetworkError>,
)
    requires
        next_outcome(v, decrypted_rest(v), new, r),
    ensures
        new == asked(v).0,
        packet_matches(r, asked(v).1),
{
}

/// How many more bytes the reader takes: none once corrupted, what is left
/// of the window in single packet mode, and otherwise as many as a `usize`
/// can count.
pub open spec fn room(v: ReaderView) -> int {
    if v.corrupted is Some {
        0
    } else if v.single_packet {
        BUF_LEN - v.input.len()
    } else {
        usize::MAX - v.input.len()
    }
}

/// The state after receiving some bytes: either framed as far as possible,
/// or corrupted by the error framing met.
pub ghost enum Received {
    Ready(ReaderView),
    Corrupted(NetworkError),
}

/// Receiving `src`: the bytes go into the window; outside single packet
/// mode a full window is decrypted and framed at once, and an error there
/// corrupts the reader.
pub open spec fn receive(v: ReaderView, src: Seq<u8>) -> Received
    decreases src.len(),
{
    if src.len() == 0 || v.corrupted is Some || v.input.len() >= BUF_LEN {
        Received::Ready(v)
    } else {
        let room = BUF_LEN - v.input.len();
        let cnt: int = if src.len() < room {
            src.len() as int
        } else {
            room
        };
        let v1 = ReaderView { input: v.input + src.take(cnt as int), needs_input: false, ..v };
        if v1.input.len() >= BUF_LEN && !v1.single_packet {
            match flushed(decrypt_with(v1, decrypted_rest(v1))) {
                Err(e) => Received::Corrupted(e),
                Ok(w) => receive(w, src.skip(cnt as int)),
            }
        } else {
            receive(v1, src.skip(cnt as int))
        }
    }
}

/// The state after receiving `src`, as [`receive`] describes it; when
/// framing meets an error, the reader where framing stopped, with the error
/// stored.
pub open spec fn receive_state(v: ReaderView, src: Seq<u8>) -> ReaderView
    decreases src.len(),
{
    if src.len() == 0 || v.corrupted is Some || v.input.len() >= BUF_LEN {
        v
    } else {
        let room = BUF_LEN - v.input.len();
        let cnt: int = if src.len() < room {
            src.len() as int
        } else {
            room
        };
        let v1 = ReaderView { input: v.input + src.take(cnt as int), needs_input: false, ..v };
        if v1.input.len() >= BUF_LEN && !v1.single_packet {
            let x = decrypt_with(v1, decrypted_rest(v1));
            match flushed(x) {
                Err(e) => ReaderView { corrupted: Some(e), ..drain_stop(x) },
                Ok(w) => receive_state(w, src.skip(cnt as int)),
            }
        } else {
            receive_state(v1, src.skip(cnt as int))
        }
    }
}

/// The state of the decryption: the key, and the CFB-8 shift register once
/// the bytes decrypted so far went through it.
struct CipherState {
    key: [u8; 16],
    register: Vec<u8>,
}

/// Passing the 16-byte `register` through `ciphertext` leaves the last 16
/// bytes of the two together.
proof fn lemma_cfb8_register(register: Seq<u8>, ciphertext: Seq<u8>)
    requires
        register.len() == 16,
    ensures
        cfb8_register(register, ciphertext) == (register + ciphertext).subrange(
            ciphertext.len() as int,
            ciphertext.len() as int + 16,
        ),
    decreases ciphertext.len(),
{
    if ciphertext.len() > 0 {
        let shifted = cfb8_shift(register, ciphertext[0]);
        lemma_cfb8_register(shifted, ciphertext.drop_first());
        assert(shifted + ciphertext.drop_first() =~= (register + ciphertext).skip(1));
        assert((shifted + ciphertext.drop_first()).subrange(
            ciphertext.len() - 1,
            ciphertext.len() as int + 15,
        ) =~= (register + ciphertext).subrange(ciphertext.len() as int, ciphertext.len() as int + 16));
    } else {
        assert((register + ciphertext).subrange(0, 16) =~= register);
    }
}

/// CFB-8 decryption gives as many bytes as it is given.
pub proof fn lemma_cfb8_decrypted_len(key: Seq<u8>, register: Seq<u8>, ciphertext: Seq<u8>)
    ensures
        cfb8_decrypted(key, register, ciphertext).len() == ciphertext.len(),
    decreases ciphertext.len(),
{
    if ciphertext.len() > 0 {
        lemma_cfb8_decrypted_len(key, cfb8_shift(register, ciphertext[0]), ciphertext.drop_first());
    }
}

/// Decrypting `a` and then `b` from where `a` left the shift register is
/// decrypting the two together.
pub proof fn lemma_cfb8_split(key: Seq<u8>, register: Seq<u8>, a: Seq<u8>, b: Seq<u8>)
    ensures
        cfb8_decrypted(key, register, a + b) == cfb8_decrypted(key, register, a)
            + cfb8_decrypted(key, cfb8_register(register, a), b),
        cfb8_register(register, a + b) == cfb8_register(cfb8_register(register, a), b),
    decreases a.len(),
{
    if a.len() == 0 {
        assert(a + b =~= b);
        assert(cfb8_decrypted(key, register, a) =~= Seq::<u8>::empty());
        assert(Seq::<u8>::empty() + cfb8_decrypted(key, register, b) =~= cfb8_decrypted(
            key,
            register,
            b,
        ));
    } else {
        let shifted = cfb8_shift(register, a[0]);
        lemma_cfb8_split(key, shifted, a.drop_first(), b);
        assert((a + b).drop_first() =~= a.drop_first() + b);
        assert((a + b)[0] == a[0]);
        let head = seq![a[0] ^ aes128_enciphered(key, register)[0]];
        assert(head + (cfb8_decrypted(key, shifted, a.drop_first()) + cfb8_decrypted(
            key,
            cfb8_register(shifted, a.drop_first()),
            b,
        )) =~= (head + cfb8_decrypted(key, shifted, a.drop_first())) + cfb8_decrypted(
            key,
            cfb8_register(shifted, a.drop_first()),
            b,
        ));
    }
}

/// The shift register once `buf[start..]` went through `register`.
fn next_register(register: &Vec<u8>, buf: &Vec<u8>, start: usize) -> (r: Vec<u8>)
    requires
        register@.len() == 16,
        start <= buf@.len(),
    ensures
        r@ == cfb8_register(register@, buf@.skip(start as int)),
        r@.len() == 16,
{
    let n = buf.len() - start;
    let ghost whole = register@ + buf@.skip(start as int);
    let mut r: Vec<u8> = Vec::new();
    for i in 0..16
        invariant
            n == buf@.len() - start,
            buf@.len() <= usize::MAX,
            register@.len() == 16,
            start <= buf@.len(),
            whole == register@ + buf@.skip(start as int),
            r@ == whole.subrange(n as int, n + i),
    {
        if n < 16 && i < 16 - n {
            r.push(register[n + i]);
        } else if n >= 16 {
            r.push(buf[buf.len() - 16 + i]);
        } else {
            let k = i - (16 - n);
            assert(start + k < buf@.len());
            r.push(buf[start + k]);
        }
        proof {
            assert(r@ =~= whole.subrange(n as int, n + i + 1));
        }
    }
    proof {
        lemma_cfb8_register(register@, buf@.skip(start as int));
    }
    r
}

/// A minecraft protocol packet reader.
///
/// Received bytes are written into it with [`put_slice`](McReader::put_slice)
/// and complete packets come out of [`next_packet`](McReader::next_packet).
/// It deals with compression and encryption when enabled.
///
/// # Single Packet Mode
/// When the state of the reader changes (compression, encryption), packets
/// already framed would not see the change. In single packet mode at most
/// one packet is framed at a time, and only when it is asked for; the reader
/// then holds no more than 4 KiB of input.
pub struct McReader {
    input: Vec<u8>,
    decryptor_pos: usize,
    next_expected: usize,
    needs_input: bool,
    pending: Vec<u8>,
    compressed: bool,
    processed: Vec<u8>,
    processed_pos: usize,
    compression: bool,
    cipher: Option<CipherState>,
    is_single_packet: bool,
    is_corrupted: Option<NetworkError>,
}

impl View for McReader {
    type V = ReaderView;

    closed spec fn view(&self) -> ReaderView {
        ReaderView {
            input: self.input@,
            decrypted: self.decryptor_pos as nat,
            expected: self.next_expected as nat,
            needs_input: self.needs_input,
            pending: self.pending@,
            compressed: self.compressed,
            processed: self.processed@,
            ready: self.processed_pos as nat,
            compression: self.compression,
            single_packet: self.is_single_packet,
            encrypted: self.cipher is Some,
            key: match self.cipher {
                Some(c) => c.key@,
                None => Seq::empty(),
            },
            register: match self.cipher {
                Some(c) => c.register@,
                None => Seq::empty(),
            },
            corrupted: self.is_corrupted,
        }
    }
}

/// The state of a reader that has received nothing.
pub open spec fn fresh_reader(compression: bool, single_packet: bool) -> ReaderView {
    ReaderView {
        input: Seq::empty(),
        decrypted: 0,
        expected: 0,
        needs_input: true,
        pending: Seq::empty(),
        compressed: false,
        processed: Seq::empty(),
        ready: 0,
        compression,
        single_packet,
        encrypted: false,
        key: Seq::empty(),
        register: Seq::empty(),
        corrupted: None,
    }
}

/// The settings of two reader states agree.
pub open spec fn same_modes(a: ReaderView, b: ReaderView) -> bool {
    &&& a.compression == b.compression
    &&& a.single_packet == b.single_packet
    &&& a.encrypted == b.encrypted
}

/// Appends `v` as four big-endian bytes.
fn push_u32_be(dst: &mut Vec<u8>, v: u32)
    ensures
        final(dst)@ == old(dst)@ + be_bytes(v as nat, 4),
{
    dst.push((v / 0x100_0000) as u8);
    dst.push(((v / 0x1_0000) % 0x100) as u8);
    dst.push(((v / 0x100) % 0x100) as u8);
    dst.push((v % 0x100) as u8);
    proof {
        reveal_with_fuel(be_bytes, 5);
        assert(dst@ =~= old(dst)@ + be_bytes(v as nat, 4));
    }
}

/// Reads the first four bytes of `s` as a big-endian number.
fn read_u32_be(s: &[u8]) -> (r: u32)
    requires
        s@.len() >= 4,
    ensures
        r == be_value(s@.take(4)),
{
    proof {
        reveal_with_fuel(be_value, 5);
        let t = s@.take(4);
        assert(t.drop_last().drop_last().drop_last().drop_last() =~= Seq::<u8>::empty());
        assert(t.drop_last().drop_last().drop_last() =~= seq![s@[0]]);
        assert(t.drop_last().drop_last() =~= seq![s@[0], s@[1]]);
        assert(t.drop_last() =~= seq![s@[0], s@[1], s@[2]]);
    }
    (s[0] as u32) * 0x100_0000 + (s[1] as u32) * 0x1_0000 + (s[2] as u32) * 0x100 + (s[3] as u32)
}

impl McReader {
    /// The reader's internal bookkeeping is consistent.
    pub closed spec fn wf(&self) -> bool {
        &&& self.input@.len() <= BUF_LEN
        &&& self.decryptor_pos <= self.input@.len()
        &&& self.cipher is None ==> self.decryptor_pos == 0
        &&& self.cipher matches Some(c) ==> c.register@.len() == 16
        &&& self.processed_pos <= self.processed@.len()
        &&& self.next_expected <= MAX_PACKET_LEN
    }

    /// Creates a reader that has received nothing, with compression enabled
    /// or not, in single packet mode or not.
    pub fn new(compression: bool, is_single_packet: bool) -> (r: Self)
        ensures
            r.wf(),
            r@ == fresh_reader(compression, is_single_packet),
    {
        McReader {
            input: Vec::new(),
            decryptor_pos: 0,
            next_expected: 0,
            needs_input: true,
            pending: Vec::new(),
            compressed: false,
            processed: Vec::new(),
            processed_pos: 0,
            compression,
            cipher: None,
            is_single_packet,
            is_corrupted: None,
        }
    }

    /// Enables or disables compression. This changes how the frames still
    /// to come are read.
    pub fn compression(&mut self, enabled: bool)
        requires
            old(self).wf(),
        ensures
            final(self).wf(),
            final(self)@ == (ReaderView { compression: enabled, ..old(self)@ }),
    {
        self.compression = enabled;
    }

    /// Enables encryption with the shared secret `key`, used as key and as
    /// initialisation vector of AES-128 in CFB-8 mode. Every byte not yet
    /// decrypted is decrypted from now on; this cannot be undone.
    pub fn encryption(&mut self, key: [u8; 16])
        requires
            old(self).wf(),
        ensures
            final(self).wf(),
            final(self)@ == (ReaderView {
                encrypted: true,
                key: key@,
                register: key@,
                ..old(self)@
            }),
    {
        let mut register: Vec<u8> = Vec::new();
        for i in 0..16
            invariant
                register@ == key@.take(i as int),
        {
            register.push(key[i]);
            proof {
                assert(register@ =~= key@.take(i + 1));
            }
        }
        proof {
            assert(register@ =~= key@);
        }
        self.cipher = Some(CipherState { key, register });
    }

    /// Enables or disables single packet mode.
    pub fn single_packet(&mut self, is_single_packet: bool)
        requires
            old(self).wf(),
        ensures
            final(self).wf(),
            final(self)@ == (ReaderView { single_packet: is_single_packet, ..old(self)@ }),
    {
        self.is_single_packet = is_single_packet;
    }

    /// Whether no received bytes wait to be framed.
    pub fn input_is_empty(&self) -> (r: bool)
        ensures
            r == (self@.input.len() == 0),
    {
        self.input.len() == 0
    }

    /// How many more bytes can be written into the reader.
    pub fn remaining_mut(&self) -> (n: usize)
        requires
            self.wf(),
        ensures
            n == room(self@),
    {
        if self.is_corrupted.is_some() {
            0
        } else if self.is_single_packet {
            BUF_LEN - self.input.len()
        } else {
            usize::MAX - self.input.len()
        }
    }

    /// Decrypts the input not yet decrypted.
    fn decrypt_input(&mut self)
        requires
            old(self).wf(),
        ensures
            final(self).wf(),
            valid_plain(old(self)@, final(self)@.input.skip(old(self)@.decrypted as int)),
            final(self)@ == decrypt_with(
                old(self)@,
                final(self)@.input.skip(old(self)@.decrypted as int),
            ),
    {
        let mut cipher: Option<CipherState> = None;
        std::mem::swap(&mut cipher, &mut self.cipher);
        match cipher {
            Some(c) => {
                let pos = self.decryptor_pos;
                let next = next_register(&c.register, &self.input, pos);
                cfb8_decrypt_from(&c.key, &c.register, &mut self.input, pos);
                self.cipher = Some(CipherState { key: c.key, register: next });
                self.decryptor_pos = 0;
                proof {
                    let ct = old(self)@.input.skip(pos as int);
                    let plain = self@.input.skip(pos as int);
                    lemma_cfb8_decrypted_len(c.key@, c.register@, ct);
                    assert(plain =~= cfb8_decrypted(c.key@, c.register@, ct));
                    assert(self@.input =~= old(self)@.input.take(pos as int) + plain);
                }
            },
            None => {
                proof {
                    assert(old(self)@.input.skip(0) =~= old(self)@.input);
                }
            },
        }
    }

    /// Completes the packet being received.
    fn finish_current(&mut self) -> (r: Result<(), NetworkError>)
        requires
            old(self).wf(),
        ensures
            final(self).wf(),
            same_modes(final(self)@, old(self)@),
            final(self)@.corrupted == old(self)@.corrupted,
            final(self)@.decrypted == old(self)@.decrypted,
            match finish_step(old(self)@) {
                Ok(w) => r is Ok && final(self)@ == w,
                Err(e) => r == Err::<(), NetworkError>(e) && final(self)@ == old(self)@,
            },
    {
        if self.compressed {
            match zlib_decompress(self.pending.as_slice()) {
                None => return Err(NetworkError::InvalidInput),
                Some(d) => {
                    extend_bytes(&mut self.processed, d.as_slice());
                    self.pending = Vec::new();
                    self.compressed = false;
                },
            }
        }
        self.processed_pos = self.processed.len();
        Ok(())
    }

    /// Takes as many received bytes as belong to the packet being received.
    fn continue_read(&mut self) -> (r: Result<(), NetworkError>)
        requires
            old(self).wf(),
            old(self)@.decrypted == 0,
            old(self)@.expected > 0,
        ensures
            final(self).wf(),
            same_modes(final(self)@, old(self)@),
            final(self)@.corrupted == old(self)@.corrupted,
            final(self)@.decrypted == 0,
            match data_step(old(self)@) {
                Ok(w) => r is Ok && final(self)@ == w,
                Err(e) => r == Err::<(), NetworkError>(e) && final(self)@ == take_data(old(self)@),
            },
    {
        let k = if self.input.len() < self.next_expected {
            self.input.len()
        } else {
            self.next_expected
        };
        let tail = self.input.split_off(k);
        let mut head = tail;
        std::mem::swap(&mut head, &mut self.input);
        proof {
            assert(head@ =~= old(self)@.input.take(k as int));
            assert(self.input@ =~= old(self)@.input.skip(k as int));
        }
        if self.compressed {
            extend_bytes(&mut self.pending, head.as_slice());
        } else {
            extend_bytes(&mut self.processed, head.as_slice());
        }
        self.next_expected = self.next_expected - k;
        if self.next_expected == 0 {
            return self.finish_current();
        }
        Ok(())
    }

    /// Frames the header at the front of the input.
    fn start_new_packet(&mut self) -> (r: Result<(), NetworkError>)
        requires
            old(self).wf(),
            old(self)@.decrypted == 0,
        ensures
            final(self).wf(),
            same_modes(final(self)@, old(self)@),
            final(self)@.corrupted == old(self)@.corrupted,
            final(self)@.decrypted == 0,
            match header_step(old(self)@) {
                Ok(w) => r is Ok && final(self)@ == w,
                Err(e) => r == Err::<(), NetworkError>(e) && final(self)@ == old(self)@,
            },
    {
        proof {
            lemma_frame_header_bounds(self@.input, self.compression, self.is_single_packet);
        }
        match parse_frame_header(self.input.as_slice(), self.compression, self.is_single_packet) {
            FrameHeader::NeedMore => {
                self.needs_input = true;
                Ok(())
            },
            FrameHeader::Invalid => Err(NetworkError::InvalidData),
            FrameHeader::Start { consumed, expected, prefix, compressed } => {
                drop_front(&mut self.input, consumed);
                push_u32_be(&mut self.processed, prefix);
                if compressed {
                    self.compressed = true;
                }
                self.next_expected = expected;
                Ok(())
            },
        }
    }

    /// Frames the received bytes as far as they go.
    fn drain_input(&mut self) -> (r: Result<(), NetworkError>)
        requires
            old(self).wf(),
            old(self)@.decrypted == 0,
        ensures
            final(self).wf(),
            same_modes(final(self)@, old(self)@),
            final(self)@.corrupted == old(self)@.corrupted,
            final(self)@.decrypted == 0,
            match drain(old(self)@) {
                Ok(w) => r is Ok && final(self)@ == w,
                Err(e) => r == Err::<(), NetworkError>(e),
            },
            final(self)@ == drain_stop(old(self)@),
    {
        loop
            invariant
                self.wf(),
                self@.decrypted == 0,
                same_modes(self@, old(self)@),
                self@.corrupted == old(self)@.corrupted,
                drain(self@) == drain(old(self)@),
                drain_stop(self@) == drain_stop(old(self)@),
            decreases self@.input.len(),
        {
            if self.input.len() == 0 || self.needs_input {
                return Ok(());
            }
            let ghost before = self@;
            if self.next_expected > 0 {
                let single = self.is_single_packet;
                match self.continue_read() {
                    Err(e) => return Err(e),
                    Ok(()) => {},
                }
                if single {
                    return Ok(());
                }
                proof {
                    assert(self@.input.len() < before.input.len());
                }
            } else {
                proof {
                    lemma_frame_header_bounds(before.input, before.compression, before.single_packet);
                }
                match self.start_new_packet() {
                    Err(e) => return Err(e),
                    Ok(()) => {},
                }
                if self.needs_input {
                    return Ok(());
                }
                proof {
                    assert(self@.input.len() < before.input.len());
                }
            }
        }
    }

    /// Decrypts and frames the received bytes.
    fn flush(&mut self) -> (r: Result<(), NetworkError>)
        requires
            old(self).wf(),
            old(self)@.corrupted is None,
        ensures
            final(self).wf(),
            same_modes(final(self)@, old(self)@),
            final(self)@.corrupted is None,
            match flushed(decrypt_with(old(self)@, decrypted_rest(old(self)@))) {
                Ok(w) => r is Ok && final(self)@ == w,
                Err(e) => r == Err::<(), NetworkError>(e) && final(self)@ == drain_stop(
                    decrypt_with(old(self)@, decrypted_rest(old(self)@)),
                ),
            },
    {
        self.decrypt_input();
        let ghost plain = self@.input.skip(old(self)@.decrypted as int);
        let ghost start = self@;
        let r = self.drain_input();
        if r.is_ok() && self.cipher.is_some() {
            self.decryptor_pos = self.input.len();
        }
        proof {
            assert(start == decrypt_with(old(self)@, plain));
            assert(valid_plain(old(self)@, plain));
        }
        r
    }

    /// Takes the first complete packet out of the processed bytes.
    fn extract_packet(&mut self) -> (r: Result<Option<Bytes>, NetworkError>)
        requires
            old(self).wf(),
        ensures
            final(self).wf(),
            final(self)@ == extract(old(self)@).0,
            packet_matches(r, extract(old(self)@).1),
    {
        if self.processed_pos < 4 {
            return Err(NetworkError::InvalidData);
        }
        let len = read_u32_be(self.processed.as_slice()) as usize;
        if self.processed_pos - 4 < len {
            return Err(NetworkError::InvalidData);
        }
        let tail = self.processed.split_off(4 + len);
        let mut packet = tail;
        std::mem::swap(&mut packet, &mut self.processed);
        drop_front(&mut packet, 4);
        self.processed_pos = self.processed_pos - 4 - len;
        proof {
            assert(packet@ =~= old(self)@.processed.subrange(4, 4 + len));
            assert(self.processed@ =~= old(self)@.processed.skip(4 + len));
        }
        Ok(Some(Bytes::from(packet)))
    }

    /// Returns the next received packet, framing the received bytes first
    /// when no packet is ready; `None` when no packet is complete yet.
    ///
    /// An error met while receiving bytes is returned (once) before
    /// anything else. A malformed or out-of-range frame header gives
    /// [`InvalidData`](NetworkError::InvalidData), a compressed packet that
    /// does not inflate gives [`InvalidInput`](NetworkError::InvalidInput).
    pub fn next_packet(&mut self) -> (r: Result<Option<Bytes>, NetworkError>)
        requires
            old(self).wf(),
        ensures
            final(self).wf(),
            same_modes(final(self)@, old(self)@),
            next_outcome(old(self)@, decrypted_rest(old(self)@), final(self)@, r),
            final(self)@ == asked(old(self)@).0,
            packet_matches(r, asked(old(self)@).1),
    {
        proof {
            assert forall|new: ReaderView, r: Result<Option<Bytes>, NetworkError>|
                next_outcome(old(self)@, decrypted_rest(old(self)@), new, r) implies new == asked(
                    old(self)@,
                ).0 && packet_matches(r, asked(old(self)@).1) by {
                lemma_next_outcome_asked(old(self)@, new, r);
            }
        }
        if let Some(e) = self.is_corrupted {
            self.is_corrupted = None;
            proof {
                assert(next_outcome(old(self)@, decrypted_rest(old(self)@), self@, Err(e)));
            }
            return Err(e);
        }
        if self.processed_pos > 0 {
            let r = self.extract_packet();
            proof {
                assert(next_outcome(old(self)@, decrypted_rest(old(self)@), self@, r));
            }
            return r;
        }
        let f = self.flush();
        let ghost plain = decrypted_rest(old(self)@);
        match f {
            Err(e) => {
                proof {
                    assert(next_outcome(old(self)@, plain, self@, Err(e)));
                }
                return Err(e);
            },
            Ok(()) => {},
        }
        if self.processed_pos > 0 {
            let r = self.extract_packet();
            proof {
                assert(next_outcome(old(self)@, plain, self@, r));
            }
            r
        } else {
            proof {
                assert(next_outcome(old(self)@, plain, self@, Ok(None)));
            }
            Ok(None)
        }
    }

    /// Writes received bytes into the reader. Outside single packet mode a
    /// full window is framed at once; an error met there corrupts the reader
    /// until the next call for a packet reports it.
    #[verifier::rlimit(40)]
    pub fn put_slice(&mut self, src: &[u8])
        requires
            old(self).wf(),
            src@.len() <= room(old(self)@),
        ensures
            final(self).wf(),
            same_modes(final(self)@, old(self)@),
            match receive(old(self)@, src@) {
                Received::Ready(w) => final(self)@ == w,
                Received::Corrupted(e) => final(self)@.corrupted == Some(e),
            },
            final(self)@ == receive_state(old(self)@, src@),
    {
        let mut i: usize = 0;
        proof {
            assert(src@.skip(0) =~= src@);
        }
        while i < src.len()
            invariant
                self.wf(),
                same_modes(self@, old(self)@),
                i <= src@.len(),
                receive(old(self)@, src@) == receive(self@, src@.skip(i as int)),
                receive_state(old(self)@, src@) == receive_state(self@, src@.skip(i as int)),
            decreases src@.len() - i,
        {
            if self.is_corrupted.is_some() || self.input.len() >= BUF_LEN {
                return;
            }
            let room = BUF_LEN - self.input.len();
            let cnt = if src.len() - i < room {
                src.len() - i
            } else {
                room
            };
            let piece = vstd::slice::slice_subrange(src, i, i + cnt);
            extend_bytes(&mut self.input, piece);
            self.needs_input = false;
            proof {
                assert(piece@ =~= src@.skip(i as int).take(cnt as int));
                assert(src@.skip(i as int).skip(cnt as int) =~= src@.skip(i + cnt));
            }
            if self.input.len() >= BUF_LEN && !self.is_single_packet {
                let r = self.flush();
                match r {
                    Err(e) => {
                        self.is_corrupted = Some(e);
                        return;
                    },
                    Ok(()) => {},
                }
            }
            i = i + cnt;
        }
    }

    /// Writes one received byte into the reader.
    pub fn put_u8(&mut self, b: u8)
        requires
            old(self).wf(),
            1 <= room(old(self)@),
        ensures
            final(self).wf(),
            same_modes(final(self)@, old(self)@),
            match receive(old(self)@, seq![b]) {
                Received::Ready(w) => final(self)@ == w,
                Received::Corrupted(e) => final(self)@.corrupted == Some(e),
            },
            final(self)@ == receive_state(old(self)@, seq![b]),
    {
        let src = [b];
        proof {
            assert(src@ =~= seq![b]);
        }
        self.put_slice(&src);
    }
}

} // verus!
