use vstd::prelude::*;

use bytes::{Bytes, BytesMut};

use crate::buf::{ReadBuf, WriteBuf};
use crate::error::{ReadError, WriteError};
use crate::ext::{bytes_mut_view, bytes_view};
use crate::traits::{PacketReadSeed, PacketSize, PacketWrite};
use crate::util::write_bytes;

verus! {

/// A byte buffer for the protocol that either owns a `Vec<u8>` (usually when
/// writing) or shares a [`Bytes`] (usually when reading, to avoid copies).
///
/// It is written as its bytes, without a length prefix; reading one takes the
/// number of bytes to read (see [`PacketReadSeed`]).
#[derive(Debug, Clone, PartialEq, Eq, PartialOrd, Ord, Hash)]
pub enum PacketBytes {
    /// An owned buffer.
    Vec(Vec<u8>),
    /// A shared buffer.
    Slice(Bytes),
}

impl View for PacketBytes {
    type V = Seq<u8>;

    open spec fn view(&self) -> Seq<u8> {
        match self {
            PacketBytes::Vec(v) => v@,
            PacketBytes::Slice(b) => bytes_view(*b),
        }
    }
}

impl PacketBytes {
    /// An empty buffer.
    pub fn new() -> (r: PacketBytes)
        ensures
            r@ == Seq::<u8>::empty(),
            r is Slice,
    {
        PacketBytes::Slice(Bytes::new())
    }

    /// A buffer sharing the given static bytes.
    pub fn from_static(bytes: &'static [u8]) -> (r: PacketBytes)
        ensures
            r@ == bytes@,
            r is Slice,
    {
        PacketBytes::Slice(Bytes::from_static(bytes))
    }

    /// A shared buffer holding a copy of the given bytes.
    pub fn from_slice(value: &[u8]) -> (r: PacketBytes)
        ensures
            r@ == value@,
            r is Slice,
    {
        PacketBytes::Slice(Bytes::copy_from_slice(value))
    }

    /// A shared buffer holding the given bytes.
    pub fn from_bytes(value: Bytes) -> (r: PacketBytes)
        ensures
            r@ == bytes_view(value),
            r is Slice,
    {
        PacketBytes::Slice(value)
    }

    /// A shared buffer holding a copy of the given bytes.
    pub fn from_bytes_mut(value: BytesMut) -> (r: PacketBytes)
        ensures
            r@ == bytes_mut_view(value),
            r is Slice,
    {
        PacketBytes::Slice(Bytes::copy_from_slice(&value))
    }

    /// An owned buffer holding the given bytes.
    pub fn from_vec(value: Vec<u8>) -> (r: PacketBytes)
        ensures
            r@ == value@,
            r is Vec,
    {
        PacketBytes::Vec(value)
    }

    /// The bytes held.
    pub fn as_ref(&self) -> (r: &[u8])
        ensures
            r@ == self@,
    {
        match self {
            PacketBytes::Vec(v) => v.as_slice(),
            PacketBytes::Slice(v) => v,
        }
    }

    /// Number of bytes held.
    pub fn len(&self) -> (n: usize)
        ensures
            n == self@.len(),
    {
        match self {
            PacketBytes::Vec(v) => v.len(),
            PacketBytes::Slice(v) => v.len(),
        }
    }

    /// Whether no byte is held.
    pub fn is_empty(&self) -> (b: bool)
        ensures
            b == (self@.len() == 0),
    {
        self.len() == 0
    }

    /// The bytes held, as a `Vec<u8>`.
    pub fn into_vec(self) -> (r: Vec<u8>)
        ensures
            r@ == self@,
    {
        match self {
            PacketBytes::Vec(v) => v,
            PacketBytes::Slice(v) => Vec::<u8>::from(v),
        }
    }

    /// The bytes held, as a [`Bytes`].
    pub fn into_bytes(self) -> (r: Bytes)
        ensures
            bytes_view(r) == self@,
    {
        match self {
            PacketBytes::Vec(v) => Bytes::from(v),
            PacketBytes::Slice(v) => v,
        }
    }

    /// An iterator over the bytes held that takes ownership of them.
    pub fn into_iter(self) -> (r: IntoIter)
        ensures
            r@ == self@,
    {
        IntoIter { data: self.into_vec(), pos: 0 }
    }
}

impl Default for PacketBytes {
    fn default() -> (r: PacketBytes)
        ensures
            r@ == Seq::<u8>::empty(),
    {
        PacketBytes::new()
    }
}

impl From<Vec<u8>> for PacketBytes {
    fn from(value: Vec<u8>) -> (r: PacketBytes)
        ensures
            r@ == value@,
            r is Vec,
    {
        PacketBytes::Vec(value)
    }
}

impl vstd::std_specs::convert::FromSpecImpl<Vec<u8>> for PacketBytes {
    open spec fn obeys_from_spec() -> bool {
        true
    }

    open spec fn from_spec(value: Vec<u8>) -> PacketBytes {
        PacketBytes::Vec(value)
    }
}

impl From<Bytes> for PacketBytes {
    fn from(value: Bytes) -> (r: PacketBytes)
        ensures
            r@ == bytes_view(value),
            r is Slice,
    {
        PacketBytes::Slice(value)
    }
}

impl vstd::std_specs::convert::FromSpecImpl<Bytes> for PacketBytes {
    open spec fn obeys_from_spec() -> bool {
        true
    }

    open spec fn from_spec(value: Bytes) -> PacketBytes {
        PacketBytes::Slice(value)
    }
}

/// Iterator over the bytes of a [`PacketBytes`] that owns them.
///
/// Its view is the sequence of bytes not yet returned.
pub struct IntoIter {
    data: Vec<u8>,
    pos: usize,
}

impl View for IntoIter {
    type V = Seq<u8>;

    closed spec fn view(&self) -> Seq<u8> {
        self.data@.skip(self.pos as int)
    }
}

impl IntoIter {
    #[verifier::type_invariant]
    closed spec fn inv(&self) -> bool {
        self.pos <= self.data.len()
    }

    /// The next byte, if any is left.
    pub fn next(&mut self) -> (r: Option<u8>)
        ensures
            old(self)@.len() == 0 ==> r is None && final(self)@ == old(self)@,
            old(self)@.len() > 0 ==> r == Some(old(self)@[0]) && final(self)@ == old(self)@.drop_first(),
    {
        proof {
            use_type_invariant(&*self);
        }
        if self.pos < self.data.len() {
            let b = self.data[self.pos];
            self.pos = self.pos + 1;
            proof {
                assert(self@ =~= old(self)@.drop_first());
            }
            Some(b)
        } else {
            None
        }
    }

    /// Lower and upper bound on the number of bytes left: both exact.
    pub fn size_hint(&self) -> (r: (usize, Option<usize>))
        ensures
            r.0 == self@.len(),
            r.1 == Some(self@.len() as usize),
    {
        proof {
            use_type_invariant(self);
        }
        let n = self.data.len() - self.pos;
        (n, Some(n))
    }

    /// Number of bytes left, consuming the iterator.
    pub fn count(self) -> (n: usize)
        ensures
            n == self@.len(),
    {
        proof {
            use_type_invariant(&self);
        }
        self.data.len() - self.pos
    }
}

impl PacketSize for PacketBytes {
    open spec fn wire(&self) -> Seq<u8> {
        self@
    }

    fn size(&self) -> (n: usize) {
        self.len()
    }
}

impl PacketWrite for PacketBytes {
    /// Nothing is written when the bytes do not all fit.
    fn write(&self, buffer: &mut WriteBuf) -> (r: Result<(), WriteError>)
        ensures
            r is Err ==> final(buffer)@ == old(buffer)@,
    {
        write_bytes(buffer, self.as_ref())
    }
}

impl PacketSize for Bytes {
    open spec fn wire(&self) -> Seq<u8> {
        bytes_view(*self)
    }

    fn size(&self) -> (n: usize) {
        self.len()
    }
}

impl PacketWrite for Bytes {
    /// Nothing is written when the bytes do not all fit.
    fn write(&self, buffer: &mut WriteBuf) -> (r: Result<(), WriteError>)
        ensures
            r is Err ==> final(buffer)@ == old(buffer)@,
    {
        write_bytes(buffer, self)
    }
}

impl PacketSize for BytesMut {
    open spec fn wire(&self) -> Seq<u8> {
        bytes_mut_view(*self)
    }

    fn size(&self) -> (n: usize) {
        self.len()
    }
}

impl PacketWrite for BytesMut {
    /// Nothing is written when the bytes do not all fit.
    fn write(&self, buffer: &mut WriteBuf) -> (r: Result<(), WriteError>)
        ensures
            r is Err ==> final(buffer)@ == old(buffer)@,
    {
        write_bytes(buffer, self)
    }
}

/// How many bytes a read of exactly `n` bytes from `input` consumes.
pub open spec fn parse_exact(n: nat, input: Seq<u8>) -> Result<nat, ReadError> {
    if input.len() < n {
        Err(ReadError::NoMoreBytes)
    } else {
        Ok(n)
    }
}

/// Reads exactly `self` bytes.
impl PacketReadSeed<Bytes> for usize {
    open spec fn parse_with(&self, input: Seq<u8>) -> Result<nat, ReadError> {
        parse_exact(*self as nat, input)
    }

    open spec fn reads_as(&self, input: Seq<u8>, value: Bytes) -> bool {
        bytes_view(value) == input.take(*self as int)
    }

    fn read(self, buffer: &mut ReadBuf) -> (r: Result<Bytes, ReadError>) {
        if buffer.remaining() < self {
            return Err(ReadError::NoMoreBytes);
        }
        Ok(Bytes::from(buffer.take_bytes(self)))
    }
}

/// Reads exactly `self` bytes.
impl PacketReadSeed<BytesMut> for usize {
    open spec fn parse_with(&self, input: Seq<u8>) -> Result<nat, ReadError> {
        parse_exact(*self as nat, input)
    }

    open spec fn reads_as(&self, input: Seq<u8>, value: BytesMut) -> bool {
        bytes_mut_view(value) == input.take(*self as int)
    }

    fn read(self, buffer: &mut ReadBuf) -> (r: Result<BytesMut, ReadError>) {
        let read: Bytes = PacketReadSeed::<Bytes>::read(self, buffer)?;
        let mut bytes = BytesMut::new();
        bytes.extend_from_slice(&read);
        Ok(bytes)
    }
}

/// Reads exactly `self` bytes.
impl PacketReadSeed<PacketBytes> for usize {
    open spec fn parse_with(&self, input: Seq<u8>) -> Result<nat, ReadError> {
        parse_exact(*self as nat, input)
    }

    open spec fn reads_as(&self, input: Seq<u8>, value: PacketBytes) -> bool {
        value@ == input.take(*self as int)
    }

    fn read(self, buffer: &mut ReadBuf) -> (r: Result<PacketBytes, ReadError>) {
        if buffer.remaining() < self {
            return Err(ReadError::NoMoreBytes);
        }
        Ok(PacketBytes::Slice(Bytes::from(buffer.take_bytes(self))))
    }
}

/// Reads every byte left in the buffer.
impl PacketReadSeed<PacketBytes> for () {
    open spec fn parse_with(&self, input: Seq<u8>) -> Result<nat, ReadError> {
        Ok(input.len())
    }

    open spec fn reads_as(&self, input: Seq<u8>, value: PacketBytes) -> bool {
        value@ == input
    }

    fn read(self, buffer: &mut ReadBuf) -> (r: Result<PacketBytes, ReadError>) {
        let n = buffer.remaining();
        proof {
            assert(buffer@.take(n as int) =~= buffer@);
        }
        PacketReadSeed::<PacketBytes>::read(n, buffer)
    }
}

/// Reads every byte left in the buffer.
impl PacketReadSeed<Bytes> for () {
    open spec fn parse_with(&self, input: Seq<u8>) -> Result<nat, ReadError> {
        Ok(input.len())
    }

    open spec fn reads_as(&self, input: Seq<u8>, value: Bytes) -> bool {
        bytes_view(value) == input
    }

    fn read(self, buffer: &mut ReadBuf) -> (r: Result<Bytes, ReadError>) {
        let n = buffer.remaining();
        proof {
            assert(buffer@.take(n as int) =~= buffer@);
        }
        PacketReadSeed::<Bytes>::read(n, buffer)
    }
}

/// Reads every byte left in the buffer.
impl PacketReadSeed<BytesMut> for () {
    open spec fn parse_with(&self, input: Seq<u8>) -> Result<nat, ReadError> {
        Ok(input.len())
    }

    open spec fn reads_as(&self, input: Seq<u8>, value: BytesMut) -> bool {
        bytes_mut_view(value) == input
    }

    fn read(self, buffer: &mut ReadBuf) -> (r: Result<BytesMut, ReadError>) {
        let n = buffer.remaining();
        proof {
            assert(buffer@.take(n as int) =~= buffer@);
        }
        PacketReadSeed::<BytesMut>::read(n, buffer)
    }
}

} // verus!
