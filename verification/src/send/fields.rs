//! Writing the fields of an outgoing packet one after the other.

use vstd::prelude::*;
use vstd::utf8::encode_utf8;

use crate::buf::WriteBuf;
use crate::error::WriteError;
use crate::collections::{concat_wires, write_slice};
use crate::traits::{lemma_write_fail_first, lemma_write_then, write_outcome, PacketWrite};
use crate::util::{str_wire, write_bytes, write_str};

verus! {

/// Nothing was written to the buffer.
pub open spec fn unchanged(before: WriteBuf, after: WriteBuf) -> bool {
    after@ == before@ && after.limit() == before.limit() && after.spec_remaining() == before.spec_remaining()
}

/// What writing a packet with one length-checked string field did: when the
/// string fits, the whole encoding `wire` was written as a plain write of it
/// would; otherwise the string's error came back, or the buffer ran out
/// before it.
pub open spec fn checked_outcome(
    before: WriteBuf,
    after: WriteBuf,
    fits: bool,
    wire: Seq<u8>,
    r: Result<(), WriteError>,
    too_long: WriteError,
) -> bool {
    &&& fits ==> write_outcome(before, after, wire, r)
    &&& !fits ==> (r == Err::<(), WriteError>(too_long) || r == Err::<(), WriteError>(
        WriteError::EndOfBuffer,
    ))
}

/// Continues a sequence of writes that started from `start` and has so far
/// written `done` with result `prev`: when `prev` succeeded, `v` is written
/// next; otherwise nothing more happens.
pub fn write_next<T: PacketWrite>(
    prev: Result<(), WriteError>,
    v: &T,
    buffer: &mut WriteBuf,
    Ghost(start): Ghost<WriteBuf>,
    Ghost(done): Ghost<Seq<u8>>,
) -> (r: Result<(), WriteError>)
    ensures
        prev is Err ==> r == prev && unchanged(*old(buffer), *final(buffer)),
        write_outcome(start, *old(buffer), done, prev) ==> write_outcome(
            start,
            *final(buffer),
            done + v.wire(),
            r,
        ),
{
    if prev.is_err() {
        proof {
            if write_outcome(start, *buffer, done, prev) {
                lemma_write_fail_first(start, *buffer, done, v.wire(), prev);
            }
        }
        return prev;
    }
    let r = v.write(buffer);
    proof {
        if write_outcome(start, *old(buffer), done, prev) {
            lemma_write_then(start, *old(buffer), *buffer, done, v.wire(), r);
        }
    }
    r
}

/// Continues a sequence of writes with the items of `items`, one after the
/// other.
pub fn write_slice_next<T: PacketWrite>(
    prev: Result<(), WriteError>,
    items: &[T],
    buffer: &mut WriteBuf,
    Ghost(start): Ghost<WriteBuf>,
    Ghost(done): Ghost<Seq<u8>>,
) -> (r: Result<(), WriteError>)
    ensures
        prev is Err ==> r == prev && unchanged(*old(buffer), *final(buffer)),
        write_outcome(start, *old(buffer), done, prev) ==> write_outcome(
            start,
            *final(buffer),
            done + concat_wires(items@),
            r,
        ),
{
    if prev.is_err() {
        proof {
            if write_outcome(start, *buffer, done, prev) {
                lemma_write_fail_first(start, *buffer, done, concat_wires(items@), prev);
            }
        }
        return prev;
    }
    let r = write_slice(items, buffer);
    proof {
        if write_outcome(start, *old(buffer), done, prev) {
            lemma_write_then(start, *old(buffer), *buffer, done, concat_wires(items@), r);
        }
    }
    r
}

/// Continues a sequence of writes with the raw bytes `bytes`.
pub fn write_bytes_next(
    prev: Result<(), WriteError>,
    bytes: &[u8],
    buffer: &mut WriteBuf,
    Ghost(start): Ghost<WriteBuf>,
    Ghost(done): Ghost<Seq<u8>>,
) -> (r: Result<(), WriteError>)
    ensures
        prev is Err ==> r == prev && unchanged(*old(buffer), *final(buffer)),
        write_outcome(start, *old(buffer), done, prev) ==> write_outcome(
            start,
            *final(buffer),
            done + bytes@,
            r,
        ),
{
    if prev.is_err() {
        proof {
            if write_outcome(start, *buffer, done, prev) {
                lemma_write_fail_first(start, *buffer, done, bytes@, prev);
            }
        }
        return prev;
    }
    let r = write_bytes(buffer, bytes);
    proof {
        if write_outcome(start, *old(buffer), done, prev) {
            lemma_write_then(start, *old(buffer), *buffer, done, bytes@, r);
        }
    }
    r
}

/// `n` bytes of value `v`.
pub fn filled(v: u8, n: usize) -> (r: Vec<u8>)
    ensures
        r@ == Seq::new(n as nat, |i: int| v),
{
    let mut out: Vec<u8> = Vec::new();
    let mut i: usize = 0;
    while i < n
        invariant
            i <= n,
            out@ == Seq::new(i as nat, |k: int| v),
        decreases n - i,
    {
        out.push(v);
        i = i + 1;
        proof {
            assert(out@ =~= Seq::new(i as nat, |k: int| v));
        }
    }
    out
}

/// Continues a sequence of writes with a string of at most `max`
/// characters: its byte length, then its UTF-8 bytes. A longer string gives
/// [`StringTooLong`](WriteError::StringTooLong) and writes nothing.
pub fn write_next_str(
    prev: Result<(), WriteError>,
    max: usize,
    s: &String,
    buffer: &mut WriteBuf,
    Ghost(start): Ghost<WriteBuf>,
    Ghost(done): Ghost<Seq<u8>>,
) -> (r: Result<(), WriteError>)
    ensures
        prev is Err ==> r == prev && unchanged(*old(buffer), *final(buffer)),
        prev is Ok && s@.len() > max ==> r == Err::<(), WriteError>(
            WriteError::StringTooLong(max, s@.len() as usize),
        ) && unchanged(*old(buffer), *final(buffer)),
        s@.len() <= max && write_outcome(start, *old(buffer), done, prev) ==> write_outcome(
            start,
            *final(buffer),
            done + str_wire(encode_utf8(s@)),
            r,
        ),
{
    let ghost w = str_wire(encode_utf8(s@));
    if prev.is_err() {
        proof {
            if write_outcome(start, *buffer, done, prev) {
                lemma_write_fail_first(start, *buffer, done, w, prev);
            }
        }
        return prev;
    }
    let ghost before = *buffer;
    let r = write_str(buffer, max, s.as_str());
    proof {
        if s@.len() <= max && write_outcome(start, before, done, prev) {
            lemma_write_then(start, before, *buffer, done, w, r);
        }
    }
    r
}

} // verus!
