use vstd::prelude::*;

use crate::buf::{ReadBuf, WriteBuf};
use crate::error::{ReadError, WriteError};

verus! {

/// What a write of the bytes `wire` did to a buffer that went from `before`
/// to `after`, given its result `r`.
///
/// The write succeeds exactly when the whole of `wire` fits in the room left;
/// then `wire` was appended. Otherwise the error is
/// [`EndOfBuffer`](WriteError::EndOfBuffer) and only a strict prefix of
/// `wire` (possibly none of it) was appended.
pub open spec fn write_outcome(
    before: WriteBuf,
    after: WriteBuf,
    wire: Seq<u8>,
    r: Result<(), WriteError>,
) -> bool {
    &&& after.limit() == before.limit()
    &&& after@.len() >= before@.len()
    &&& after.spec_remaining() == before.spec_remaining() - (after@.len() - before@.len())
    &&& (r is Ok <==> wire.len() <= before.spec_remaining())
    &&& r is Ok ==> after@ == before@ + wire
    &&& r is Err ==> {
        &&& r == Err::<(), WriteError>(WriteError::EndOfBuffer)
        &&& before@.len() <= after@.len() < before@.len() + wire.len()
        &&& after@ == before@ + wire.take(after@.len() - before@.len())
    }
}

/// `after` is what remains of `before` once some prefix of it is removed.
pub open spec fn is_suffix(after: Seq<u8>, before: Seq<u8>) -> bool {
    &&& after.len() <= before.len()
    &&& forall|i: int|
        0 <= i < after.len() ==> #[trigger] after[i] == before[before.len() - after.len() + i]
}

/// What a read did to a buffer whose unread bytes went from `before` to
/// `after`, given the expected outcome `p` (the value and the number of bytes
/// it takes up, or an error) and the actual result `r`.
///
/// On success exactly the bytes of the value were consumed. On failure some
/// prefix of the input was consumed and the buffer is to be considered
/// corrupt.
pub open spec fn read_outcome<T>(
    before: Seq<u8>,
    after: Seq<u8>,
    p: Result<(T, nat), ReadError>,
    r: Result<T, ReadError>,
) -> bool {
    match p {
        Ok((v, n)) => r == Ok::<T, ReadError>(v) && n <= before.len() && after == before.skip(n as int),
        Err(e) => r == Err::<T, ReadError>(e) && is_suffix(after, before),
    }
}

/// A value whose network encoding has a known, exactly computable size.
pub trait PacketSize {
    /// The bytes this value is written as on the network.
    spec fn wire(&self) -> Seq<u8>;

    /// The exact number of bytes this value takes up on the network.
    fn size(&self) -> (n: usize)
        requires
            self.wire().len() <= usize::MAX,
        ensures
            n == self.wire().len(),
    ;
}

/// A value that can be written to a network buffer.
pub trait PacketWrite: PacketSize {
    /// Appends the encoding of this value to `buffer`.
    fn write(&self, buffer: &mut WriteBuf) -> (r: Result<(), WriteError>)
        ensures
            write_outcome(*old(buffer), *final(buffer), self.wire(), r),
    ;
}

/// A value that can be read from a network buffer.
pub trait PacketRead: Sized {
    /// How the value is decoded from the front of `input`: the value and the
    /// number of bytes it takes up, or the error reading it gives.
    spec fn parse(input: Seq<u8>) -> Result<(Self, nat), ReadError>;

    /// Reads one value from the front of `buffer`.
    fn read(buffer: &mut ReadBuf) -> (r: Result<Self, ReadError>)
        ensures
            read_outcome(old(buffer)@, final(buffer)@, Self::parse(old(buffer)@), r),
    ;
}

/// Something that reads a value of type `T` from a network buffer using
/// extra information held by `self` (such as a length or a maximum length).
pub trait PacketReadSeed<T>: Sized {
    /// How many bytes a read from the front of `input` consumes, or the error
    /// it gives.
    spec fn parse_with(&self, input: Seq<u8>) -> Result<nat, ReadError>;

    /// Whether `value` is what a successful read from the front of `input`
    /// gives.
    spec fn reads_as(&self, input: Seq<u8>, value: T) -> bool;

    /// Reads one value from the front of `buffer`.
    fn read(self, buffer: &mut ReadBuf) -> (r: Result<T, ReadError>)
        ensures
            match self.parse_with(old(buffer)@) {
                Ok(n) => r is Ok && self.reads_as(old(buffer)@, r->Ok_0) && n <= old(buffer)@.len()
                    && final(buffer)@ == old(buffer)@.skip(n as int),
                Err(e) => r == Err::<T, ReadError>(e) && is_suffix(final(buffer)@, old(buffer)@),
            },
    ;
}

/// Something that writes a value of type `T` to a network buffer using
/// extra information held by `self` (such as a maximum length).
pub trait PacketWriteSeed<T: ?Sized>: Sized {
    /// The bytes `value` is written as, or the error that rejects it before
    /// anything is written.
    spec fn wire_with(&self, value: &T) -> Result<Seq<u8>, WriteError>;

    /// What `value` must satisfy for it to be written with this seed.
    spec fn write_requires(&self, value: &T) -> bool;

    /// Appends the encoding of `value` to `buffer`.
    fn write(self, value: &T, buffer: &mut WriteBuf) -> (r: Result<(), WriteError>)
        requires
            self.write_requires(value),
        ensures
            match self.wire_with(value) {
                Ok(w) => write_outcome(*old(buffer), *final(buffer), w, r),
                Err(e) => r == Err::<(), WriteError>(e) && final(buffer)@ == old(buffer)@
                    && final(buffer).limit() == old(buffer).limit()
                    && final(buffer).spec_remaining() == old(buffer).spec_remaining(),
            },
    ;
}

/// Two writes one after the other act as one write of both encodings: when
/// the first succeeds, the outcome of the second is that of the whole.
pub proof fn lemma_write_then(
    b0: WriteBuf,
    b1: WriteBuf,
    b2: WriteBuf,
    w1: Seq<u8>,
    w2: Seq<u8>,
    r2: Result<(), WriteError>,
)
    requires
        write_outcome(b0, b1, w1, Ok(())),
        write_outcome(b1, b2, w2, r2),
    ensures
        write_outcome(b0, b2, w1 + w2, r2),
{
    if r2 is Err {
        let k = (b2@.len() - b1@.len()) as int;
        assert(b2@ =~= b0@ + (w1 + w2).take(w1.len() + k));
    } else {
        assert(b2@ =~= b0@ + (w1 + w2));
    }
}

/// When the first of two writes succeeded but both encodings together do
/// not fit, stopping there is a failed write of both.
pub proof fn lemma_write_stop(b0: WriteBuf, b1: WriteBuf, w1: Seq<u8>, w2: Seq<u8>)
    requires
        write_outcome(b0, b1, w1, Ok(())),
        w1.len() + w2.len() > b0.spec_remaining(),
    ensures
        write_outcome(b0, b1, w1 + w2, Err(WriteError::EndOfBuffer)),
{
    assert((w1 + w2).take(w1.len() as int) =~= w1);
}

/// When the first of two writes fails, the outcome is that of a failed write
/// of both encodings.
pub proof fn lemma_write_fail_first(
    b0: WriteBuf,
    b1: WriteBuf,
    w1: Seq<u8>,
    w2: Seq<u8>,
    r1: Result<(), WriteError>,
)
    requires
        write_outcome(b0, b1, w1, r1),
        r1 is Err,
    ensures
        write_outcome(b0, b1, w1 + w2, r1),
{
    let k = (b1@.len() - b0@.len()) as int;
    assert((w1 + w2).take(k) =~= w1.take(k));
}

} // verus!
