use vstd::prelude::*;

verus! {

/// Reasons why writing a value to a [`WriteBuf`](crate::buf::WriteBuf) failed.
#[derive(Debug, Clone, Copy, PartialEq, Eq)]
pub enum WriteError {
    /// A string was longer than the protocol allows: the first number is the
    /// maximum allowed length, the second the actual length (in characters).
    StringTooLong(usize, usize),
    /// A value could not be serialised as NBT.
    FastNbtError,
    /// The buffer ran out of space.
    EndOfBuffer,
}

/// Reasons why reading a value from a [`ReadBuf`](crate::buf::ReadBuf) failed.
#[derive(Debug, Clone, Copy, PartialEq, Eq)]
pub enum ReadError {
    /// The bytes of a string were not valid UTF-8.
    FromUTF8Error,
    /// A hyphenated uuid string could not be parsed.
    UuidError,
    /// A value could not be deserialised from NBT.
    FastNbtError,
    /// A string was longer than allowed: the first number is the maximum
    /// allowed length, the second the actual length.
    StringTooLong(usize, usize),
    /// A variable-length integer used more bytes than its width allows.
    VarTooLong,
    /// The buffer has no more bytes to read.
    NoMoreBytes,
}

/// Reasons why framing packets on a connection failed.
#[derive(Debug, Clone, Copy, PartialEq, Eq)]
pub enum NetworkError {
    /// The stream does not follow the packet framing: a length is malformed,
    /// out of range, or disagrees with the data that follows.
    InvalidData,
    /// A compressed packet could not be decompressed, or a packet to be sent
    /// is longer than the protocol allows.
    InvalidInput,
}

} // verus!
