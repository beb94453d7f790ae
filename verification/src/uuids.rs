use vstd::prelude::*;
use vstd::utf8::{decode_utf8, encode_utf8, is_ascii_chars, valid_utf8};

use crate::buf::{ReadBuf, WriteBuf};
use crate::error::{ReadError, WriteError};
use crate::ext::{uuid_encode_lower, uuid_parse_str, uuid_parsed};
use crate::num::{be_bytes, get_be, lemma_be_bytes_len, lemma_be_roundtrip, parse_fixed, pow256, put_be};
use crate::string::{parse_string, PacketString};
use crate::traits::{PacketRead, PacketReadSeed, PacketSize, PacketWrite};
use crate::util::{str_wire, write_prefixed_bytes};
use crate::varint::{bits32, varint_wire};

verus! {

/// The ASCII character of a hexadecimal digit (`0`-`9`, `a`-`f`).
pub open spec fn hex_digit(n: nat) -> u8 {
    if n < 10 {
        (48 + n) as u8
    } else {
        (87 + n) as u8
    }
}

/// Each byte of `s` as two lowercase hexadecimal digits, high digit first.
pub open spec fn hex_bytes(s: Seq<u8>) -> Seq<u8>
    decreases s.len(),
{
    if s.len() == 0 {
        Seq::empty()
    } else {
        seq![hex_digit(s[0] as nat / 16), hex_digit(s[0] as nat % 16)] + hex_bytes(s.drop_first())
    }
}

/// The hyphenated lowercase text of the 16 uuid bytes `b`:
/// `xxxxxxxx-xxxx-xxxx-xxxx-xxxxxxxxxxxx`.
pub open spec fn hyphenated_lower(b: Seq<u8>) -> Seq<u8> {
    hex_bytes(b.subrange(0, 4)) + seq![45u8] + hex_bytes(b.subrange(4, 6)) + seq![45u8]
        + hex_bytes(b.subrange(6, 8)) + seq![45u8] + hex_bytes(b.subrange(8, 10)) + seq![45u8]
        + hex_bytes(b.subrange(10, 16))
}

/// The characters of the ASCII bytes `s`.
pub open spec fn ascii_chars(s: Seq<u8>) -> Seq<char> {
    s.map_values(|b: u8| b as char)
}

proof fn lemma_ascii_utf8(s: Seq<u8>)
    requires
        forall|i: int| 0 <= i < s.len() ==> #[trigger] s[i] < 128,
    ensures
        valid_utf8(s),
        decode_utf8(s) == ascii_chars(s),
{
    let c = ascii_chars(s);
    assert(is_ascii_chars(c));
    vstd::utf8::is_ascii_chars_encode_utf8(c);
    assert(encode_utf8(c) =~= s);
    vstd::utf8::encode_utf8_valid_utf8(c);
    vstd::utf8::encode_utf8_decode_utf8(c);
}

proof fn lemma_hex_bytes(s: Seq<u8>)
    ensures
        hex_bytes(s).len() == 2 * s.len(),
        forall|i: int| 0 <= i < hex_bytes(s).len() ==> #[trigger] hex_bytes(s)[i] < 128,
    decreases s.len(),
{
    if s.len() > 0 {
        lemma_hex_bytes(s.drop_first());
    }
}

proof fn lemma_hyphenated(b: Seq<u8>)
    requires
        b.len() == 16,
    ensures
        hyphenated_lower(b).len() == 36,
        forall|i: int| 0 <= i < 36 ==> #[trigger] hyphenated_lower(b)[i] < 128,
{
    lemma_hex_bytes(b.subrange(0, 4));
    lemma_hex_bytes(b.subrange(4, 6));
    lemma_hex_bytes(b.subrange(6, 8));
    lemma_hex_bytes(b.subrange(8, 10));
    lemma_hex_bytes(b.subrange(10, 16));
}

/// A universally unique identifier, held as its 128-bit value (its 16 bytes
/// read big-endian).
#[derive(Debug, Clone, Copy, PartialEq, Eq, PartialOrd, Ord, Hash, Default)]
pub struct Uuid {
    pub value: u128,
}

impl Uuid {
    /// The uuid with the given 128-bit value.
    pub fn from_u128(value: u128) -> (r: Uuid)
        ensures
            r.value == value,
    {
        Uuid { value }
    }

    /// The 128-bit value of the uuid.
    pub fn as_u128(&self) -> (r: u128)
        ensures
            r == self.value,
    {
        self.value
    }

    /// Parses a uuid from its text (hyphenated, simple, braced or urn form),
    /// as the `uuid` crate does.
    pub fn parse_str(s: &str) -> (r: Result<Uuid, ReadError>)
        ensures
            match uuid_parsed(s@) {
                Some(v) => r == Ok::<Uuid, ReadError>(Uuid { value: v }),
                None => r == Err::<Uuid, ReadError>(ReadError::UuidError),
            },
    {
        match uuid_parse_str(s) {
            Some(value) => Ok(Uuid { value }),
            None => Err(ReadError::UuidError),
        }
    }

    /// The hyphenated lowercase text of the uuid, as ASCII bytes; parsing it
    /// gives back the uuid.
    pub fn hyphenated_lower(&self) -> (r: [u8; 36])
        ensures
            r@ == hyphenated_lower(be_bytes(self.value as nat, 16)),
            uuid_parsed(ascii_chars(r@)) == Some(self.value),
    {
        uuid_encode_lower(self.value)
    }
}

impl PacketSize for Uuid {
    open spec fn wire(&self) -> Seq<u8> {
        be_bytes(self.value as nat, 16)
    }

    fn size(&self) -> (n: usize) {
        proof {
            lemma_be_bytes_len(self.value as nat, 16);
        }
        16
    }
}

impl PacketWrite for Uuid {
    /// Writes the 16 bytes of the uuid, or nothing when they do not fit.
    fn write(&self, buffer: &mut WriteBuf) -> (r: Result<(), WriteError>) {
        proof {
            lemma_be_bytes_len(self.value as nat, 16);
        }
        if buffer.remaining_mut() < 16 {
            return Err(WriteError::EndOfBuffer);
        }
        put_be(buffer, self.value, 16);
        Ok(())
    }
}

impl PacketRead for Uuid {
    open spec fn parse(input: Seq<u8>) -> Result<(Uuid, nat), ReadError> {
        match parse_fixed(input, 16) {
            Ok((v, n)) => Ok((Uuid { value: v as u128 }, n)),
            Err(e) => Err(e),
        }
    }

    fn read(buffer: &mut ReadBuf) -> (r: Result<Uuid, ReadError>) {
        if buffer.remaining() < 16 {
            return Err(ReadError::NoMoreBytes);
        }
        let value = get_be(buffer, 16);
        Ok(Uuid { value })
    }
}

/// Reading back what a [`Uuid`] is written as gives the same uuid.
pub proof fn law_uuid_roundtrip(x: Uuid, rest: Seq<u8>)
    ensures
        <Uuid as PacketRead>::parse(x.wire() + rest) == Ok::<(Uuid, nat), ReadError>((x, 16nat)),
{
    reveal_with_fuel(pow256, 17);
    let b = be_bytes(x.value as nat, 16);
    lemma_be_roundtrip(x.value as nat, 16);
    assert((b + rest).take(16) =~= b);
}

/// A uuid that the protocol writes as its hyphenated text (a string of 36
/// characters).
#[derive(Debug, Clone, Copy, PartialEq, Eq, PartialOrd, Ord, Hash, Default)]
pub struct StringUuid {
    pub inner: Uuid,
}

impl core::ops::Deref for StringUuid {
    type Target = Uuid;

    /// The uuid held.
    fn deref(&self) -> (r: &Uuid)
        ensures
            *r == self.inner,
    {
        &self.inner
    }
}

impl StringUuid {
    /// The nil uuid.
    pub fn new() -> (r: StringUuid)
        ensures
            r.inner.value == 0,
    {
        StringUuid { inner: Uuid { value: 0 } }
    }

    /// The uuid held.
    pub fn into_inner(self) -> (r: Uuid)
        ensures
            r == self.inner,
    {
        self.inner
    }
}

impl From<Uuid> for StringUuid {
    fn from(uuid: Uuid) -> (r: StringUuid)
        ensures
            r.inner == uuid,
    {
        StringUuid { inner: uuid }
    }
}

impl vstd::std_specs::convert::FromSpecImpl<Uuid> for StringUuid {
    open spec fn obeys_from_spec() -> bool {
        true
    }

    open spec fn from_spec(uuid: Uuid) -> StringUuid {
        StringUuid { inner: uuid }
    }
}

impl From<StringUuid> for Uuid {
    fn from(uuid: StringUuid) -> (r: Uuid)
        ensures
            r == uuid.inner,
    {
        uuid.inner
    }
}

impl vstd::std_specs::convert::FromSpecImpl<StringUuid> for Uuid {
    open spec fn obeys_from_spec() -> bool {
        true
    }

    open spec fn from_spec(uuid: StringUuid) -> Uuid {
        uuid.inner
    }
}

impl PacketSize for StringUuid {
    open spec fn wire(&self) -> Seq<u8> {
        str_wire(hyphenated_lower(be_bytes(self.inner.value as nat, 16)))
    }

    fn size(&self) -> (n: usize) {
        proof {
            lemma_be_bytes_len(self.inner.value as nat, 16);
            lemma_hyphenated(be_bytes(self.inner.value as nat, 16));
            assert(varint_wire(bits32(36)) == seq![36u8]);
        }
        37
    }
}

impl PacketWrite for StringUuid {
    /// Writes the hyphenated lowercase text of the uuid as a string; reading
    /// back what was written gives the same uuid.
    fn write(&self, buffer: &mut WriteBuf) -> (r: Result<(), WriteError>)
        ensures
            forall|rest: Seq<u8>|
                <StringUuid as PacketRead>::parse(#[trigger] (self.wire() + rest))
                    == Ok::<(StringUuid, nat), ReadError>((*self, 37nat)),
    {
        let text = self.inner.hyphenated_lower();
        proof {
            let b = be_bytes(self.inner.value as nat, 16);
            lemma_be_bytes_len(self.inner.value as nat, 16);
            lemma_hyphenated(b);
            lemma_ascii_utf8(text@);
            assert(varint_wire(bits32(36)) == seq![36u8]);
            assert forall|rest: Seq<u8>|
                <StringUuid as PacketRead>::parse(#[trigger] (self.wire() + rest))
                    == Ok::<(StringUuid, nat), ReadError>((*self, 37nat)) by {
                let input = self.wire() + rest;
                assert(input[0] == 36u8);
                assert(input.subrange(1, 37) =~= text@);
                lemma_parse_prefix_36(input);
                assert(decode_utf8(input.subrange(1, 37)) == ascii_chars(text@));
                assert(parse_string(36, input) == Ok::<(nat, nat), ReadError>((1nat, 36nat)));
            }
        }
        write_prefixed_bytes(buffer, &text)
    }
}

proof fn lemma_parse_prefix_36(input: Seq<u8>)
    requires
        input.len() >= 1,
        input[0] == 36u8,
    ensures
        <crate::varint::VarI32 as PacketRead>::parse(input) == Ok::<(crate::varint::VarI32, nat), ReadError>(
            (crate::varint::VarI32 { val: 36 }, 1nat),
        ),
{
}

impl PacketRead for StringUuid {
    /// A string of at most 36 characters, parsed as a uuid by the `uuid`
    /// crate.
    open spec fn parse(input: Seq<u8>) -> Result<(StringUuid, nat), ReadError> {
        match parse_string(36, input) {
            Err(e) => Err(e),
            Ok((k, len)) => match uuid_parsed(decode_utf8(input.subrange(k as int, k + len as int))) {
                Some(v) => Ok((StringUuid { inner: Uuid { value: v } }, k + len)),
                None => Err(ReadError::UuidError),
            },
        }
    }

    fn read(buffer: &mut ReadBuf) -> (r: Result<StringUuid, ReadError>) {
        let s: PacketString = PacketReadSeed::<PacketString>::read(36usize, buffer)?;
        let uuid = Uuid::parse_str(s.as_str())?;
        Ok(StringUuid { inner: uuid })
    }
}

} // verus!
