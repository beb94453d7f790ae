use vstd::prelude::*;
use vstd::string::StringSliceAdditionalSpecFns;
use vstd::utf8::{decode_utf8, encode_utf8, valid_utf8};

use bytes::Bytes;

use crate::buf::{ReadBuf, WriteBuf};
use crate::error::{ReadError, WriteError};
use crate::ext::{bytes_view, str_from_utf8};
use crate::traits::{is_suffix, PacketRead, PacketReadSeed, PacketSize, PacketWrite, PacketWriteSeed};
use crate::util::{str_wire, write_str};
use crate::varint::VarI32;

verus! {

broadcast use {vstd::utf8::encode_utf8_valid_utf8, vstd::utf8::encode_utf8_decode_utf8};

/// A string for the protocol that either owns a `String` (usually when
/// writing) or shares a [`Bytes`] holding UTF-8 (usually when reading, to
/// avoid copies).
///
/// Its view is its UTF-8 bytes. The bytes of the `Slice` variant must be
/// valid UTF-8 ([`wf`](PacketString::wf)); functions that need the text
/// require it.
#[derive(Debug, Clone, PartialEq, Eq, PartialOrd, Ord, Hash)]
pub enum PacketString {
    /// An owned string.
    Owned(String),
    /// Shared bytes that must be valid UTF-8.
    Slice(Bytes),
}

impl View for PacketString {
    type V = Seq<u8>;

    open spec fn view(&self) -> Seq<u8> {
        match self {
            PacketString::Owned(s) => encode_utf8(s@),
            PacketString::Slice(b) => bytes_view(*b),
        }
    }
}

/// How a string of at most `max` characters is read from the front of
/// `input`: its byte length as a [`VarI32`], at most `4 * max`, then that many
/// bytes of valid UTF-8 holding at most `max` characters. Gives the position
/// and length of the bytes of the string, or the error.
pub open spec fn parse_string(max: nat, input: Seq<u8>) -> Result<(nat, nat), ReadError> {
    match <VarI32 as PacketRead>::parse(input) {
        Err(e) => Err(e),
        Ok((l, k)) => {
            let len = l.val as usize;
            if len > max * 4 {
                Err(ReadError::StringTooLong((max * 4) as usize, len))
            } else if input.len() - k < len {
                Err(ReadError::NoMoreBytes)
            } else if !valid_utf8(input.subrange(k as int, k + len as int)) {
                Err(ReadError::FromUTF8Error)
            } else if decode_utf8(input.subrange(k as int, k + len as int)).len() > max {
                Err(
                    ReadError::StringTooLong(
                        max as usize,
                        decode_utf8(input.subrange(k as int, k + len as int)).len() as usize,
                    ),
                )
            } else {
                Ok((k, len as nat))
            }
        },
    }
}

impl PacketString {
    /// Whether the bytes are valid UTF-8.
    pub open spec fn wf(&self) -> bool {
        valid_utf8(self@)
    }

    /// The characters of the string.
    pub open spec fn chars(&self) -> Seq<char> {
        decode_utf8(self@)
    }

    /// An empty string.
    pub fn new() -> (r: PacketString)
        ensures
            r@ == Seq::<u8>::empty(),
            r is Slice,
    {
        PacketString::Slice(Bytes::new())
    }

    /// A string sharing the bytes of the given static string.
    pub fn from_static(str: &'static str) -> (r: PacketString)
        ensures
            r@ == str.spec_bytes(),
            r.wf(),
            r is Slice,
    {
        PacketString::Slice(Bytes::from_static(str.as_bytes()))
    }

    /// A shared string holding a copy of the given string.
    pub fn from_str(value: &str) -> (r: PacketString)
        ensures
            r@ == value.spec_bytes(),
            r.wf(),
            r is Slice,
    {
        PacketString::Slice(Bytes::copy_from_slice(value.as_bytes()))
    }

    /// An owned string.
    pub fn from_string(value: String) -> (r: PacketString)
        ensures
            r@ == encode_utf8(value@),
            r.wf(),
            r is Owned,
    {
        PacketString::Owned(value)
    }

    /// The UTF-8 bytes of the string.
    pub fn as_bytes(&self) -> (r: &[u8])
        ensures
            r@ == self@,
    {
        match self {
            PacketString::Owned(v) => v.as_str().as_bytes(),
            PacketString::Slice(v) => v,
        }
    }

    /// Length of the string in bytes.
    pub fn len(&self) -> (n: usize)
        ensures
            n == self@.len(),
    {
        self.as_bytes().len()
    }

    /// Whether the string is empty.
    #[must_use]
    pub fn is_empty(&self) -> (b: bool)
        ensures
            b == (self@.len() == 0),
    {
        self.len() == 0
    }

    /// The string as a string slice.
    pub fn as_str(&self) -> (r: &str)
        requires
            self.wf(),
        ensures
            r.spec_bytes() == self@,
            r@ == self.chars(),
    {
        match self {
            PacketString::Owned(v) => v.as_str(),
            PacketString::Slice(v) => str_from_utf8(v).unwrap(),
        }
    }

    /// The string as an owned `String`.
    pub fn into_string(self) -> (r: String)
        requires
            self.wf(),
        ensures
            r@ == self.chars(),
    {
        match self {
            PacketString::Owned(v) => v,
            PacketString::Slice(v) => str_from_utf8(&v).unwrap().to_owned(),
        }
    }
}

impl Default for PacketString {
    fn default() -> (r: PacketString)
        ensures
            r@ == Seq::<u8>::empty(),
    {
        PacketString::new()
    }
}

impl From<String> for PacketString {
    fn from(value: String) -> (r: PacketString)
        ensures
            r@ == encode_utf8(value@),
            r.chars() == value@,
            r is Owned,
    {
        PacketString::Owned(value)
    }
}

impl vstd::std_specs::convert::FromSpecImpl<String> for PacketString {
    open spec fn obeys_from_spec() -> bool {
        true
    }

    open spec fn from_spec(value: String) -> PacketString {
        PacketString::Owned(value)
    }
}

impl<'a> From<&'a str> for PacketString {
    /// A shared string holding a copy of the given string.
    fn from(value: &'a str) -> (r: PacketString)
        ensures
            r@ == value.spec_bytes(),
            r.wf(),
            r is Slice,
    {
        PacketString::from_str(value)
    }
}

/// The shared bytes are a fresh copy, so no single value is named as the
/// result; what holds of it is stated on `from` itself.
impl<'a> vstd::std_specs::convert::FromSpecImpl<&'a str> for PacketString {
    open spec fn obeys_from_spec() -> bool {
        false
    }

    open spec fn from_spec(value: &'a str) -> PacketString {
        choose|r: PacketString| r is Slice && r@ == value.spec_bytes()
    }
}

impl PacketSize for PacketString {
    open spec fn wire(&self) -> Seq<u8> {
        str_wire(self@)
    }

    fn size(&self) -> (n: usize) {
        let len = self.len();
        VarI32::from(len).size() + len
    }
}

/// `self` is the maximum number of characters.
impl PacketWriteSeed<str> for usize {
    open spec fn wire_with(&self, value: &str) -> Result<Seq<u8>, WriteError> {
        if value@.len() > *self {
            Err(WriteError::StringTooLong(*self, value@.len() as usize))
        } else {
            Ok(str_wire(value.spec_bytes()))
        }
    }

    open spec fn write_requires(&self, value: &str) -> bool {
        true
    }

    fn write(self, value: &str, buffer: &mut WriteBuf) -> (r: Result<(), WriteError>) {
        write_str(buffer, self, value)
    }
}

/// `self` is the maximum number of characters.
impl PacketWriteSeed<PacketString> for usize {
    open spec fn wire_with(&self, value: &PacketString) -> Result<Seq<u8>, WriteError> {
        if value.chars().len() > *self {
            Err(WriteError::StringTooLong(*self, value.chars().len() as usize))
        } else {
            Ok(str_wire(value@))
        }
    }

    open spec fn write_requires(&self, value: &PacketString) -> bool {
        value.wf()
    }

    fn write(self, value: &PacketString, buffer: &mut WriteBuf) -> (r: Result<(), WriteError>) {
        write_str(buffer, self, value.as_str())
    }
}

/// `self` is the maximum number of characters. The bytes of the string are
/// shared, not copied, into the result.
impl PacketReadSeed<PacketString> for usize {
    open spec fn parse_with(&self, input: Seq<u8>) -> Result<nat, ReadError> {
        match parse_string(*self as nat, input) {
            Ok((k, len)) => Ok(k + len),
            Err(e) => Err(e),
        }
    }

    open spec fn reads_as(&self, input: Seq<u8>, value: PacketString) -> bool {
        match parse_string(*self as nat, input) {
            Ok((k, len)) => value is Slice && value@ == input.subrange(k as int, (k + len) as int),
            Err(_) => false,
        }
    }

    fn read(self, buffer: &mut ReadBuf) -> (r: Result<PacketString, ReadError>) {
        let ghost input = buffer@;
        let len = VarI32::read(buffer)?.as_usize();
        let ghost k = (input.len() - buffer@.len()) as nat;
        if self <= usize::MAX / 4 && len > self * 4 {
            return Err(ReadError::StringTooLong(self * 4, len));
        }
        let bytes: Bytes = PacketReadSeed::<Bytes>::read(len, buffer)?;
        proof {
            assert(bytes_view(bytes) =~= input.subrange(k as int, k + len as int));
            assert(is_suffix(buffer@, input));
        }
        let str = match str_from_utf8(&bytes) {
            Some(s) => s,
            None => return Err(ReadError::FromUTF8Error),
        };
        let count = str.unicode_len();
        if count > self {
            Err(ReadError::StringTooLong(self, count))
        } else {
            proof {
                assert(buffer@ =~= input.skip(k + len as int));
            }
            Ok(PacketString::Slice(bytes))
        }
    }
}

/// No character takes more than four bytes in UTF-8.
pub proof fn lemma_utf8_len_bound(chars: Seq<char>)
    ensures
        encode_utf8(chars).len() <= 4 * chars.len(),
    decreases chars.len(),
{
    if chars.len() > 0 {
        lemma_utf8_len_bound(chars.drop_first());
    }
}

/// Reading back the encoding of a string whose bytes are `bytes` (valid
/// UTF-8 of at most `max` characters) finds those bytes right after their
/// length, whatever follows them.
pub proof fn lemma_parse_string_wire(max: nat, bytes: Seq<u8>, rest: Seq<u8>)
    requires
        valid_utf8(bytes),
        decode_utf8(bytes).len() <= max,
        bytes.len() <= i32::MAX,
    ensures
        parse_string(max, str_wire(bytes) + rest) == Ok::<(nat, nat), ReadError>(
            (VarI32 { val: bytes.len() as i32 }.wire().len(), bytes.len()),
        ),
        (str_wire(bytes) + rest).subrange(
            VarI32 { val: bytes.len() as i32 }.wire().len() as int,
            str_wire(bytes).len() as int,
        ) == bytes,
{
    let x = VarI32 { val: bytes.len() as i32 };
    let input = str_wire(bytes) + rest;
    crate::varint::law_vari32_roundtrip(x, bytes + rest);
    assert(input =~= x.wire() + (bytes + rest));
    vstd::utf8::decode_utf8_encode_utf8(bytes);
    lemma_utf8_len_bound(decode_utf8(bytes));
    let k = x.wire().len();
    assert(input.subrange(k as int, k + bytes.len() as int) =~= bytes);
}

/// Reading a string back with the maximum it was written with gives its
/// bytes back, whatever follows them: a string of at most `max` characters
/// is written as its byte length and its UTF-8 bytes, and the read takes up
/// exactly those bytes and shares them. (Strings of more than `i32::MAX`
/// bytes are left out: their length does not survive the 32-bit length
/// prefix.)
pub proof fn law_string_roundtrip(max: usize, value: &str, rest: Seq<u8>)
    requires
        value@.len() <= max,
        value.spec_bytes().len() <= i32::MAX,
    ensures
        <usize as PacketWriteSeed<str>>::wire_with(&max, value) == Ok::<Seq<u8>, WriteError>(
            str_wire(value.spec_bytes()),
        ),
        <usize as PacketReadSeed<PacketString>>::parse_with(
            &max,
            str_wire(value.spec_bytes()) + rest,
        ) == Ok::<nat, ReadError>(str_wire(value.spec_bytes()).len()),
        forall|v: PacketString|
            <usize as PacketReadSeed<PacketString>>::reads_as(
                &max,
                str_wire(value.spec_bytes()) + rest,
                v,
            ) <==> (v is Slice && v@ == value.spec_bytes()),
{
    lemma_parse_string_wire(max as nat, value.spec_bytes(), rest);
}

} // verus!
