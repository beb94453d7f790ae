//! Declarations of the outside items the library calls, with the contracts
//! that are believed of them.

use vstd::prelude::*;
use vstd::string::StringSliceAdditionalSpecFns;
use vstd::utf8::valid_utf8;

use std::io::Write;

use aes::cipher::inout::InOutBuf;
use aes::cipher::{BlockDecryptMut, KeyIvInit};
use aes::Aes128;
use bytes::{Bytes, BytesMut};
use cfb8::Decryptor;

use crate::num::be_bytes;
use crate::uuids::{ascii_chars, hyphenated_lower};

verus! {

/// `bytes::Bytes`: an immutable, cheaply clonable byte buffer.
#[verifier::external_type_specification]
#[verifier::external_body]
pub struct ExBytes(Bytes);

/// `bytes::BytesMut`: a growable byte buffer.
#[verifier::external_type_specification]
#[verifier::external_body]
pub struct ExBytesMut(BytesMut);

/// The bytes a `Bytes` holds.
pub uninterp spec fn bytes_view(b: Bytes) -> Seq<u8>;

/// The bytes a `BytesMut` holds.
pub uninterp spec fn bytes_mut_view(b: BytesMut) -> Seq<u8>;

/// `Bytes::new` gives an empty buffer.
pub assume_specification[ Bytes::new ]() -> (r: Bytes)
    ensures
        bytes_view(r) == Seq::<u8>::empty(),
;

/// `Bytes::from_static` gives a buffer holding exactly the given bytes.
pub assume_specification[ Bytes::from_static ](bytes: &'static [u8]) -> (r: Bytes)
    ensures
        bytes_view(r) == bytes@,
;

/// `Bytes::copy_from_slice` gives a buffer holding a copy of the given bytes.
pub assume_specification[ Bytes::copy_from_slice ](data: &[u8]) -> (r: Bytes)
    ensures
        bytes_view(r) == data@,
;

/// `Bytes::len` is the number of bytes held.
pub assume_specification[ Bytes::len ](b: &Bytes) -> (r: usize)
    ensures
        r == bytes_view(*b).len(),
;

/// Dereferencing a `Bytes` gives the bytes it holds.
pub assume_specification[ <Bytes as core::ops::Deref>::deref ](b: &Bytes) -> (r: &[u8])
    ensures
        r@ == bytes_view(*b),
;

/// A clone of a `Bytes` holds the same bytes.
pub assume_specification[ <Bytes as Clone>::clone ](b: &Bytes) -> (r: Bytes)
    ensures
        bytes_view(r) == bytes_view(*b),
;

/// Turning a `Vec<u8>` into a `Bytes` keeps its bytes.
pub assume_specification[ <Bytes as From<std::vec::Vec<u8>>>::from ](v: std::vec::Vec<u8>) -> (r: Bytes)
    ensures
        bytes_view(r) == v@,
;

/// Turning a `Bytes` into a `Vec<u8>` keeps its bytes.
pub assume_specification[ <std::vec::Vec<u8> as From<Bytes>>::from ](b: Bytes) -> (r: std::vec::Vec<u8>)
    ensures
        r@ == bytes_view(b),
;

/// `BytesMut::new` gives an empty buffer.
pub assume_specification[ BytesMut::new ]() -> (r: BytesMut)
    ensures
        bytes_mut_view(r) == Seq::<u8>::empty(),
;

/// `BytesMut::extend_from_slice` appends the given bytes.
pub assume_specification[ BytesMut::extend_from_slice ](b: &mut BytesMut, extend: &[u8])
    ensures
        bytes_mut_view(*final(b)) == bytes_mut_view(*old(b)) + extend@,
;

/// `BytesMut::len` is the number of bytes held.
pub assume_specification[ BytesMut::len ](b: &BytesMut) -> (r: usize)
    ensures
        r == bytes_mut_view(*b).len(),
;

/// Dereferencing a `BytesMut` gives the bytes it holds.
pub assume_specification[ <BytesMut as core::ops::Deref>::deref ](b: &BytesMut) -> (r: &[u8])
    ensures
        r@ == bytes_mut_view(*b),
;

/// `core::str::from_utf8`: the bytes as a string slice when they are valid
/// UTF-8 (the error is dropped). The string's UTF-8 encoding is the input.
#[verifier::external_body]
pub(crate) fn str_from_utf8(v: &[u8]) -> (r: Option<&str>)
    ensures
        r is Some <==> valid_utf8(v@),
        r matches Some(s) ==> s.spec_bytes() == v@,
{
    core::str::from_utf8(v).ok()
}

/// `<[u8; N] as TryFrom<&[u8]>>::try_from` on a slice of length `N`: the array
/// holding the same bytes.
#[verifier::external_body]
pub(crate) fn slice_to_array<const N: usize>(s: &[u8]) -> (r: [u8; N])
    requires
        s@.len() == N,
    ensures
        r@ == s@,
{
    <[u8; N]>::try_from(s).unwrap()
}

/// `<[T; N] as TryFrom<Vec<T>>>::try_from` on a vector of length `N`: the
/// array holding the same items.
#[verifier::external_body]
pub(crate) fn vec_to_array<T, const N: usize>(v: Vec<T>) -> (r: [T; N])
    requires
        v@.len() == N,
    ensures
        r@ == v@,
{
    <[T; N]>::try_from(v).ok().unwrap()
}

/// What `uuid::Uuid::parse_str` gives for a string: the 128-bit value of the
/// uuid it denotes, or nothing when it rejects the string.
pub uninterp spec fn uuid_parsed(s: Seq<char>) -> Option<u128>;

/// `uuid::Uuid::parse_str`, with the uuid given as its 128-bit (big-endian)
/// value and the error dropped.
#[verifier::external_body]
pub(crate) fn uuid_parse_str(s: &str) -> (r: Option<u128>)
    ensures
        r == uuid_parsed(s@),
{
    match uuid::Uuid::parse_str(s) {
        Ok(u) => Some(u.as_u128()),
        Err(_) => None,
    }
}

/// `uuid::fmt::Hyphenated::encode_lower` for the uuid of the given 128-bit
/// value: its 16 bytes as lowercase hexadecimal digits in groups of 8, 4, 4,
/// 4 and 12, separated by hyphens. `uuid::Uuid::parse_str` reads this text
/// back as the same uuid (it accepts every format the crate produces).
#[verifier::external_body]
pub(crate) fn uuid_encode_lower(v: u128) -> (r: [u8; 36])
    ensures
        r@ == hyphenated_lower(be_bytes(v as nat, 16)),
        uuid_parsed(ascii_chars(r@)) == Some(v),
{
    let mut buf = [0u8; 36];
    uuid::Uuid::from_u128(v).hyphenated().encode_lower(&mut buf);
    buf
}

/// What `flate2::write::ZlibEncoder` at compression level `level` produces
/// when `pieces` are written to it one after the other and it is then
/// finished: a complete zlib stream. (How the input is cut into pieces can
/// change the stream, not what it inflates to.)
pub uninterp spec fn zlib_compressed(level: u32, pieces: Seq<Seq<u8>>) -> Seq<u8>;

/// What `flate2::write::ZlibDecoder` produces for `data` written to it and
/// then finished: the inflated bytes, or nothing when it rejects the stream.
pub uninterp spec fn zlib_decompressed(data: Seq<u8>) -> Option<Seq<u8>>;

/// A zlib compressor writing its stream into a `Vec`
/// (`flate2::write::ZlibEncoder<Vec<u8>>`). Verus refuses a declaration of
/// `flate2::write::ZlibEncoder` itself (its parameter is bounded by
/// `std::io::Write`), so it is held here, out of Verus's sight.
#[verifier::external_body]
pub struct ZlibStream {
    inner: flate2::write::ZlibEncoder<Vec<u8>>,
}

/// The pieces written to a zlib compressor so far, in order.
pub uninterp spec fn zlib_stream_pieces(e: ZlibStream) -> Seq<Seq<u8>>;

/// The compression level a zlib compressor was made with.
pub uninterp spec fn zlib_stream_level(e: ZlibStream) -> u32;

/// `flate2::write::ZlibEncoder::new` with `flate2::Compression::new(level)`
/// (levels run from 0 to 9), writing into an empty `Vec`: nothing was
/// written to it yet.
#[verifier::external_body]
pub(crate) fn zlib_stream_new(level: u32) -> (r: ZlibStream)
    requires
        level <= 9,
    ensures
        zlib_stream_pieces(r) == Seq::<Seq<u8>>::empty(),
        zlib_stream_level(r) == level,
{
    ZlibStream { inner: flate2::write::ZlibEncoder::new(Vec::new(), flate2::Compression::new(level)) }
}

/// `Write::write_all` on the compressor: the piece is taken in whole
/// (writing into a `Vec` cannot fail).
#[verifier::external_body]
pub(crate) fn zlib_stream_write(e: &mut ZlibStream, piece: &[u8])
    ensures
        zlib_stream_pieces(*final(e)) == zlib_stream_pieces(*old(e)).push(piece@),
        zlib_stream_level(*final(e)) == zlib_stream_level(*old(e)),
{
    e.inner.write_all(piece).unwrap()
}

/// `flate2::write::ZlibEncoder::finish` on the compressor: the complete zlib
/// stream of the pieces written to it (writing into a `Vec` cannot fail).
/// The stream is not empty (a zlib stream holds at least its two header
/// bytes and its four-byte checksum), and inflating it gives the bytes of
/// all the pieces back, as it does for every stream a zlib encoder produces.
#[verifier::external_body]
pub(crate) fn zlib_stream_finish(e: ZlibStream) -> (r: Vec<u8>)
    ensures
        r@ == zlib_compressed(zlib_stream_level(e), zlib_stream_pieces(e)),
        r@.len() > 0,
        zlib_decompressed(r@) == Some(zlib_stream_pieces(e).flatten_alt()),
{
    e.inner.finish().unwrap()
}

/// Inflates the zlib stream `data` with `flate2::write::ZlibDecoder`: the
/// decompressed bytes, or `None` when the decoder reports an error.
#[verifier::external_body]
pub(crate) fn zlib_decompress(data: &[u8]) -> (r: Option<Vec<u8>>)
    ensures
        match r {
            Some(v) => zlib_decompressed(data@) == Some(v@),
            None => zlib_decompressed(data@) is None,
        },
{
    let mut decoder = flate2::write::ZlibDecoder::new(Vec::new());
    match decoder.write_all(data) {
        Ok(()) => decoder.finish().ok(),
        Err(_) => None,
    }
}

/// What AES-128 enciphers the 16-byte `block` to under the 16-byte `key`:
/// the block cipher (`aes::Aes128`) that CFB-8 decryption runs on its shift
/// register.
pub uninterp spec fn aes128_enciphered(key: Seq<u8>, block: Seq<u8>) -> Seq<u8>;

/// The CFB-8 shift register once the ciphertext byte `c` went through it:
/// its oldest byte leaves and `c` enters.
pub open spec fn cfb8_shift(register: Seq<u8>, c: u8) -> Seq<u8> {
    register.drop_first().push(c)
}

/// The CFB-8 shift register once all of `ciphertext` went through it.
pub open spec fn cfb8_register(register: Seq<u8>, ciphertext: Seq<u8>) -> Seq<u8>
    decreases ciphertext.len(),
{
    if ciphertext.len() == 0 {
        register
    } else {
        cfb8_register(cfb8_shift(register, ciphertext[0]), ciphertext.drop_first())
    }
}

/// CFB-8 decryption of `ciphertext` under `key`, starting from the shift
/// register `register`: each byte is XORed with the first byte of the
/// enciphered register, and then enters the register.
pub open spec fn cfb8_decrypted(key: Seq<u8>, register: Seq<u8>, ciphertext: Seq<u8>) -> Seq<u8>
    decreases ciphertext.len(),
{
    if ciphertext.len() == 0 {
        Seq::empty()
    } else {
        seq![ciphertext[0] ^ aes128_enciphered(key, register)[0]] + cfb8_decrypted(
            key,
            cfb8_shift(register, ciphertext[0]),
            ciphertext.drop_first(),
        )
    }
}

/// `cfb8::Decryptor::<Aes128>` set up with `key` and with `register` as its
/// initialisation vector (`new_from_slices`, which takes 16 bytes for each),
/// then decrypting `buf[start..]` in place with `decrypt_blocks_inout_mut`,
/// one byte per block. The decryptor's `proc_block` enciphers its register,
/// XORs the byte with the first byte of the result, and shifts the
/// ciphertext byte into the register; the bytes before `start` are left as
/// they were.
#[verifier::external_body]
pub(crate) fn cfb8_decrypt_from(key: &[u8; 16], register: &Vec<u8>, buf: &mut Vec<u8>, start: usize)
    requires
        register@.len() == 16,
        start <= old(buf)@.len(),
    ensures
        final(buf)@ == old(buf)@.take(start as int) + cfb8_decrypted(
            key@,
            register@,
            old(buf)@.skip(start as int),
        ),
        start < old(buf)@.len() ==> final(buf)@[start as int] == old(buf)@[start as int]
            ^ aes128_enciphered(key@, register@)[0],
{
    let mut decryptor = Decryptor::<Aes128>::new_from_slices(&key[..], register.as_slice()).unwrap();
    let (blocks, _) = InOutBuf::from(&mut buf[start..]).into_chunks();
    decryptor.decrypt_blocks_inout_mut(blocks);
}

} // verus!
