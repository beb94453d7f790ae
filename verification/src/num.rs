use vstd::prelude::*;

use crate::buf::{ReadBuf, WriteBuf};
use crate::error::{ReadError, WriteError};
use crate::traits::{PacketRead, PacketSize, PacketWrite};

verus! {

/// `256` to the power `n`.
pub open spec fn pow256(n: nat) -> nat
    decreases n,
{
    if n == 0 {
        1
    } else {
        256 * pow256((n - 1) as nat)
    }
}

/// The `n` low bytes of `v`, most significant first (big-endian).
pub open spec fn be_bytes(v: nat, n: nat) -> Seq<u8>
    decreases n,
{
    if n == 0 {
        Seq::empty()
    } else {
        be_bytes(v / 256, (n - 1) as nat).push((v % 256) as u8)
    }
}

/// The number that the bytes `s` denote, most significant first.
pub open spec fn be_value(s: Seq<u8>) -> nat
    decreases s.len(),
{
    if s.len() == 0 {
        0
    } else {
        be_value(s.drop_last()) * 256 + (s.last() as nat)
    }
}

/// The two's complement bit pattern, as a number below `modulus`, of the
/// signed integer `v` (whose type has `modulus` distinct values).
pub open spec fn unsigned_of(v: int, modulus: nat) -> nat {
    if v >= 0 {
        v as nat
    } else {
        (v + modulus) as nat
    }
}

/// The signed integer (of a type with `modulus` distinct values) whose two's
/// complement bit pattern is `u`.
pub open spec fn signed_of(u: nat, modulus: nat) -> int {
    if u < modulus / 2 {
        u as int
    } else {
        u - modulus
    }
}

/// The bytes a number of width `n` bytes is encoded as, if it is at least
/// `n` bytes long: its value, read big-endian, and `n`.
pub open spec fn parse_fixed(input: Seq<u8>, n: nat) -> Result<(nat, nat), ReadError> {
    if input.len() < n {
        Err(ReadError::NoMoreBytes)
    } else {
        Ok((be_value(input.take(n as int)), n))
    }
}

pub proof fn lemma_be_bytes_len(v: nat, n: nat)
    ensures
        be_bytes(v, n).len() == n,
    decreases n,
{
    if n > 0 {
        lemma_be_bytes_len(v / 256, (n - 1) as nat);
    }
}

/// The big-endian encoding in `n` bytes has `n` bytes.
pub broadcast proof fn lemma_be_bytes_len_auto(v: nat, n: nat)
    ensures
        #[trigger] be_bytes(v, n).len() == n,
{
    lemma_be_bytes_len(v, n);
}

pub proof fn lemma_pow256_positive(n: nat)
    ensures
        pow256(n) >= 1,
    decreases n,
{
    if n > 0 {
        lemma_pow256_positive((n - 1) as nat);
    }
}

/// Reading back the `n` big-endian bytes of `v` gives `v` modulo `256^n`.
pub proof fn lemma_be_value_of_bytes(v: nat, n: nat)
    ensures
        be_value(be_bytes(v, n)) == v % pow256(n),
    decreases n,
{
    if n == 0 {
    } else {
        let m = (n - 1) as nat;
        lemma_be_value_of_bytes(v / 256, m);
        let s = be_bytes(v, n);
        assert(s.drop_last() =~= be_bytes(v / 256, m));
        lemma_pow256_positive(m);
        vstd::arithmetic::div_mod::lemma_mod_breakdown(v as int, 256, pow256(m) as int);
        assert(pow256(n) == 256 * pow256(m));
        assert(v % pow256(n) == 256 * ((v / 256) % pow256(m)) + v % 256);
    }
}

/// A number below `256^n` is exactly what its `n` big-endian bytes denote.
pub proof fn lemma_be_roundtrip(v: nat, n: nat)
    requires
        v < pow256(n),
    ensures
        be_value(be_bytes(v, n)) == v,
        be_bytes(v, n).len() == n,
{
    lemma_be_value_of_bytes(v, n);
    lemma_be_bytes_len(v, n);
    vstd::arithmetic::div_mod::lemma_small_mod(v, pow256(n));
}

proof fn lemma_be_value_bound(s: Seq<u8>)
    ensures
        be_value(s) < pow256(s.len()),
    decreases s.len(),
{
    if s.len() > 0 {
        lemma_be_value_bound(s.drop_last());
        let a = be_value(s.drop_last());
        let p = pow256((s.len() - 1) as nat);
        assert(a * 256 + s.last() < p * 256) by (nonlinear_arith)
            requires
                a < p,
                s.last() < 256,
        ;
    }
}

/// Appends the `n` low bytes of `v`, most significant first.
pub fn put_be(buffer: &mut WriteBuf, v: u128, n: usize)
    requires
        old(buffer).spec_remaining() >= n,
        n <= 16,
    ensures
        final(buffer)@ == old(buffer)@ + be_bytes(v as nat, n as nat),
        final(buffer).limit() == old(buffer).limit(),
        final(buffer).spec_remaining() == old(buffer).spec_remaining() - n,
    decreases n,
{
    if n > 0 {
        put_be(buffer, v / 256, n - 1);
        proof {
            lemma_be_bytes_len((v / 256) as nat, (n - 1) as nat);
        }
        buffer.put_u8((v % 256) as u8);
        proof {
            assert(buffer@ =~= old(buffer)@ + be_bytes(v as nat, n as nat));
        }
    } else {
        proof {
            assert(buffer@ =~= old(buffer)@ + be_bytes(v as nat, n as nat));
        }
    }
}

/// Takes the next `n` bytes and gives the number they denote, most
/// significant first.
pub fn get_be(buffer: &mut ReadBuf, n: usize) -> (r: u128)
    requires
        old(buffer)@.len() >= n,
        n <= 16,
    ensures
        r == be_value(old(buffer)@.take(n as int)),
        final(buffer)@ == old(buffer)@.skip(n as int),
{
    let ghost input = buffer@;
    let mut acc: u128 = 0;
    let mut i: usize = 0;
    while i < n
        invariant
            i <= n <= 16,
            input.len() >= n,
            buffer@ == input.skip(i as int),
            acc == be_value(input.take(i as int)),
            acc < pow256(i as nat),
        decreases n - i,
    {
        proof {
            assert(input.take(i + 1).drop_last() =~= input.take(i as int));
            lemma_be_value_bound(input.take(i + 1));
            lemma_pow256_16();
            lemma_pow256_monotonic((i + 1) as nat, 16);
        }
        let b = buffer.get_u8();
        acc = acc * 256 + b as u128;
        i = i + 1;
        proof {
            assert(buffer@ =~= input.skip(i as int));
        }
    }
    acc
}

proof fn lemma_pow256_16()
    ensures
        pow256(16) == 0x1_0000_0000_0000_0000_0000_0000_0000_0000nat,
{
    reveal_with_fuel(pow256, 17);
}

proof fn lemma_pow256_monotonic(a: nat, b: nat)
    requires
        a <= b,
    ensures
        pow256(a) <= pow256(b),
    decreases b,
{
    if a < b {
        lemma_pow256_monotonic(a, (b - 1) as nat);
        lemma_pow256_positive((b - 1) as nat);
    }
}

impl PacketSize for u8 {
    open spec fn wire(&self) -> Seq<u8> {
        seq![*self]
    }

    fn size(&self) -> (n: usize) {
        1
    }
}

impl PacketWrite for u8 {
    fn write(&self, buffer: &mut WriteBuf) -> (r: Result<(), WriteError>) {
        if buffer.remaining_mut() < 1 {
            return Err(WriteError::EndOfBuffer);
        }
        buffer.put_u8(*self);
        proof {
            assert(buffer@ =~= old(buffer)@ + self.wire());
        }
        Ok(())
    }
}

impl PacketRead for u8 {
    open spec fn parse(input: Seq<u8>) -> Result<(u8, nat), ReadError> {
        if input.len() < 1 {
            Err(ReadError::NoMoreBytes)
        } else {
            Ok((input[0], 1))
        }
    }

    fn read(buffer: &mut ReadBuf) -> (r: Result<u8, ReadError>) {
        if buffer.remaining() < 1 {
            return Err(ReadError::NoMoreBytes);
        }
        Ok(buffer.get_u8())
    }
}

/// Reading back what a `u8` is written as gives the same `u8`.
pub proof fn law_u8_roundtrip(x: u8, rest: Seq<u8>)
    ensures
        <u8 as PacketRead>::parse(x.wire() + rest) == Ok::<(u8, nat), ReadError>((x, 1nat)),
{
}

impl PacketSize for bool {
    open spec fn wire(&self) -> Seq<u8> {
        seq![if *self { 1u8 } else { 0u8 }]
    }

    fn size(&self) -> (n: usize) {
        1
    }
}

impl PacketWrite for bool {
    fn write(&self, buffer: &mut WriteBuf) -> (r: Result<(), WriteError>) {
        if !buffer.has_remaining_mut() {
            return Err(WriteError::EndOfBuffer);
        }
        buffer.put_u8(if *self { 1 } else { 0 });
        proof {
            assert(buffer@ =~= old(buffer)@ + self.wire());
        }
        Ok(())
    }
}

impl PacketRead for bool {
    /// Any non-zero byte reads as `true`.
    open spec fn parse(input: Seq<u8>) -> Result<(bool, nat), ReadError> {
        if input.len() < 1 {
            Err(ReadError::NoMoreBytes)
        } else {
            Ok((input[0] != 0, 1))
        }
    }

    fn read(buffer: &mut ReadBuf) -> (r: Result<bool, ReadError>) {
        if !buffer.has_remaining() {
            return Err(ReadError::NoMoreBytes);
        }
        Ok(buffer.get_u8() != 0)
    }
}

/// Reading back what a `bool` is written as gives the same `bool`.
pub proof fn law_bool_roundtrip(x: bool, rest: Seq<u8>)
    ensures
        <bool as PacketRead>::parse(x.wire() + rest) == Ok::<(bool, nat), ReadError>((x, 1nat)),
{
}

impl PacketSize for u16 {
    open spec fn wire(&self) -> Seq<u8> {
        be_bytes(*self as nat, 2)
    }

    fn size(&self) -> (n: usize) {
        proof {
            lemma_be_bytes_len(*self as nat, 2);
        }
        2
    }
}

impl PacketWrite for u16 {
    fn write(&self, buffer: &mut WriteBuf) -> (r: Result<(), WriteError>) {
        proof {
            lemma_be_bytes_len(*self as nat, 2);
        }
        if buffer.remaining_mut() < 2 {
            return Err(WriteError::EndOfBuffer);
        }
        let bits: u128 = *self as u128;
        put_be(buffer, bits, 2);
        Ok(())
    }
}

impl PacketRead for u16 {
    open spec fn parse(input: Seq<u8>) -> Result<(u16, nat), ReadError> {
        match parse_fixed(input, 2) {
            Ok((v, n)) => Ok((v as u16, n)),
            Err(e) => Err(e),
        }
    }

    fn read(buffer: &mut ReadBuf) -> (r: Result<u16, ReadError>) {
        if buffer.remaining() < 2 {
            return Err(ReadError::NoMoreBytes);
        }
        let ghost input = buffer@;
        let v = get_be(buffer, 2);
        proof {
            lemma_be_value_bound(input.take(2));
            reveal_with_fuel(pow256, 3);
        }
        Ok(v as u16)
    }
}

/// Reading back what a `u16` is written as gives the same `u16`, whatever
/// follows it.
pub proof fn law_u16_roundtrip(x: u16, rest: Seq<u8>)
    ensures
        <u16 as PacketRead>::parse(x.wire() + rest) == Ok::<(u16, nat), ReadError>((x, 2nat)),
{
    reveal_with_fuel(pow256, 3);
    let b = be_bytes(x as nat, 2);
    lemma_be_roundtrip(x as nat, 2);
    assert((b + rest).take(2) =~= b);
}

impl PacketSize for u32 {
    open spec fn wire(&self) -> Seq<u8> {
        be_bytes(*self as nat, 4)
    }

    fn size(&self) -> (n: usize) {
        proof {
            lemma_be_bytes_len(*self as nat, 4);
        }
        4
    }
}

impl PacketWrite for u32 {
    fn write(&self, buffer: &mut WriteBuf) -> (r: Result<(), WriteError>) {
        proof {
            lemma_be_bytes_len(*self as nat, 4);
        }
        if buffer.remaining_mut() < 4 {
            return Err(WriteError::EndOfBuffer);
        }
        let bits: u128 = *self as u128;
        put_be(buffer, bits, 4);
        Ok(())
    }
}

impl PacketRead for u32 {
    open spec fn parse(input: Seq<u8>) -> Result<(u32, nat), ReadError> {
        match parse_fixed(input, 4) {
            Ok((v, n)) => Ok((v as u32, n)),
            Err(e) => Err(e),
        }
    }

    fn read(buffer: &mut ReadBuf) -> (r: Result<u32, ReadError>) {
        if buffer.remaining() < 4 {
            return Err(ReadError::NoMoreBytes);
        }
        let ghost input = buffer@;
        let v = get_be(buffer, 4);
        proof {
            lemma_be_value_bound(input.take(4));
            reveal_with_fuel(pow256, 5);
        }
        Ok(v as u32)
    }
}

/// Reading back what a `u32` is written as gives the same `u32`, whatever
/// follows it.
pub proof fn law_u32_roundtrip(x: u32, rest: Seq<u8>)
    ensures
        <u32 as PacketRead>::parse(x.wire() + rest) == Ok::<(u32, nat), ReadError>((x, 4nat)),
{
    reveal_with_fuel(pow256, 5);
    let b = be_bytes(x as nat, 4);
    lemma_be_roundtrip(x as nat, 4);
    assert((b + rest).take(4) =~= b);
}

impl PacketSize for u64 {
    open spec fn wire(&self) -> Seq<u8> {
        be_bytes(*self as nat, 8)
    }

    fn size(&self) -> (n: usize) {
        proof {
            lemma_be_bytes_len(*self as nat, 8);
        }
        8
    }
}

impl PacketWrite for u64 {
    fn write(&self, buffer: &mut WriteBuf) -> (r: Result<(), WriteError>) {
        proof {
            lemma_be_bytes_len(*self as nat, 8);
        }
        if buffer.remaining_mut() < 8 {
            return Err(WriteError::EndOfBuffer);
        }
        let bits: u128 = *self as u128;
        put_be(buffer, bits, 8);
        Ok(())
    }
}

impl PacketRead for u64 {
    open spec fn parse(input: Seq<u8>) -> Result<(u64, nat), ReadError> {
        match parse_fixed(input, 8) {
            Ok((v, n)) => Ok((v as u64, n)),
            Err(e) => Err(e),
        }
    }

    fn read(buffer: &mut ReadBuf) -> (r: Result<u64, ReadError>) {
        if buffer.remaining() < 8 {
            return Err(ReadError::NoMoreBytes);
        }
        let ghost input = buffer@;
        let v = get_be(buffer, 8);
        proof {
            lemma_be_value_bound(input.take(8));
            reveal_with_fuel(pow256, 9);
        }
        Ok(v as u64)
    }
}

/// Reading back what a `u64` is written as gives the same `u64`, whatever
/// follows it.
pub proof fn law_u64_roundtrip(x: u64, rest: Seq<u8>)
    ensures
        <u64 as PacketRead>::parse(x.wire() + rest) == Ok::<(u64, nat), ReadError>((x, 8nat)),
{
    reveal_with_fuel(pow256, 9);
    let b = be_bytes(x as nat, 8);
    lemma_be_roundtrip(x as nat, 8);
    assert((b + rest).take(8) =~= b);
}

impl PacketSize for u128 {
    open spec fn wire(&self) -> Seq<u8> {
        be_bytes(*self as nat, 16)
    }

    fn size(&self) -> (n: usize) {
        proof {
            lemma_be_bytes_len(*self as nat, 16);
        }
        16
    }
}

impl PacketWrite for u128 {
    fn write(&self, buffer: &mut WriteBuf) -> (r: Result<(), WriteError>) {
        proof {
            lemma_be_bytes_len(*self as nat, 16);
        }
        if buffer.remaining_mut() < 16 {
            return Err(WriteError::EndOfBuffer);
        }
        let bits: u128 = *self as u128;
        put_be(buffer, bits, 16);
        Ok(())
    }
}

impl PacketRead for u128 {
    open spec fn parse(input: Seq<u8>) -> Result<(u128, nat), ReadError> {
        match parse_fixed(input, 16) {
            Ok((v, n)) => Ok((v as u128, n)),
            Err(e) => Err(e),
        }
    }

    fn read(buffer: &mut ReadBuf) -> (r: Result<u128, ReadError>) {
        if buffer.remaining() < 16 {
            return Err(ReadError::NoMoreBytes);
        }
        let ghost input = buffer@;
        let v = get_be(buffer, 16);
        proof {
            lemma_be_value_bound(input.take(16));
            reveal_with_fuel(pow256, 17);
        }
        Ok(v as u128)
    }
}

/// Reading back what a `u128` is written as gives the same `u128`, whatever
/// follows it.
pub proof fn law_u128_roundtrip(x: u128, rest: Seq<u8>)
    ensures
        <u128 as PacketRead>::parse(x.wire() + rest) == Ok::<(u128, nat), ReadError>((x, 16nat)),
{
    reveal_with_fuel(pow256, 17);
    let b = be_bytes(x as nat, 16);
    lemma_be_roundtrip(x as nat, 16);
    assert((b + rest).take(16) =~= b);
}

impl PacketSize for i8 {
    open spec fn wire(&self) -> Seq<u8> {
        be_bytes(unsigned_of(*self as int, 0x100nat), 1)
    }

    fn size(&self) -> (n: usize) {
        proof {
            lemma_be_bytes_len(unsigned_of(*self as int, 0x100nat), 1);
        }
        1
    }
}

impl PacketWrite for i8 {
    fn write(&self, buffer: &mut WriteBuf) -> (r: Result<(), WriteError>) {
        proof {
            lemma_be_bytes_len(unsigned_of(*self as int, 0x100nat), 1);
        }
        if buffer.remaining_mut() < 1 {
            return Err(WriteError::EndOfBuffer);
        }
        let bits: u128 = if *self >= 0 { *self as u128 } else { ((*self as i128) + 0x100) as u128 };
        put_be(buffer, bits, 1);
        Ok(())
    }
}

impl PacketRead for i8 {
    open spec fn parse(input: Seq<u8>) -> Result<(i8, nat), ReadError> {
        match parse_fixed(input, 1) {
            Ok((v, n)) => Ok((signed_of(v, 0x100nat) as i8, n)),
            Err(e) => Err(e),
        }
    }

    fn read(buffer: &mut ReadBuf) -> (r: Result<i8, ReadError>) {
        if buffer.remaining() < 1 {
            return Err(ReadError::NoMoreBytes);
        }
        let ghost input = buffer@;
        let v = get_be(buffer, 1);
        proof {
            lemma_be_value_bound(input.take(1));
            reveal_with_fuel(pow256, 2);
        }
        Ok(if v < 0x80 { v as i8 } else { ((v - 0x80) as i8) - 0x7f - 1 })
    }
}

/// Reading back what a `i8` is written as gives the same `i8`, whatever
/// follows it.
pub proof fn law_i8_roundtrip(x: i8, rest: Seq<u8>)
    ensures
        <i8 as PacketRead>::parse(x.wire() + rest) == Ok::<(i8, nat), ReadError>((x, 1nat)),
{
    reveal_with_fuel(pow256, 2);
    let b = be_bytes(unsigned_of(x as int, 0x100nat), 1);
    lemma_be_roundtrip(unsigned_of(x as int, 0x100nat), 1);
    assert((b + rest).take(1) =~= b);
}

impl PacketSize for i16 {
    open spec fn wire(&self) -> Seq<u8> {
        be_bytes(unsigned_of(*self as int, 0x10000nat), 2)
    }

    fn size(&self) -> (n: usize) {
        proof {
            lemma_be_bytes_len(unsigned_of(*self as int, 0x10000nat), 2);
        }
        2
    }
}

impl PacketWrite for i16 {
    fn write(&self, buffer: &mut WriteBuf) -> (r: Result<(), WriteError>) {
        proof {
            lemma_be_bytes_len(unsigned_of(*self as int, 0x10000nat), 2);
        }
        if buffer.remaining_mut() < 2 {
            return Err(WriteError::EndOfBuffer);
        }
        let bits: u128 = if *self >= 0 { *self as u128 } else { ((*self as i128) + 0x10000) as u128 };
        put_be(buffer, bits, 2);
        Ok(())
    }
}

impl PacketRead for i16 {
    open spec fn parse(input: Seq<u8>) -> Result<(i16, nat), ReadError> {
        match parse_fixed(input, 2) {
            Ok((v, n)) => Ok((signed_of(v, 0x10000nat) as i16, n)),
            Err(e) => Err(e),
        }
    }

    fn read(buffer: &mut ReadBuf) -> (r: Result<i16, ReadError>) {
        if buffer.remaining() < 2 {
            return Err(ReadError::NoMoreBytes);
        }
        let ghost input = buffer@;
        let v = get_be(buffer, 2);
        proof {
            lemma_be_value_bound(input.take(2));
            reveal_with_fuel(pow256, 3);
        }
        Ok(if v < 0x8000 { v as i16 } else { ((v - 0x8000) as i16) - 0x7fff - 1 })
    }
}

/// Reading back what a `i16` is written as gives the same `i16`, whatever
/// follows it.
pub proof fn law_i16_roundtrip(x: i16, rest: Seq<u8>)
    ensures
        <i16 as PacketRead>::parse(x.wire() + rest) == Ok::<(i16, nat), ReadError>((x, 2nat)),
{
    reveal_with_fuel(pow256, 3);
    let b = be_bytes(unsigned_of(x as int, 0x10000nat), 2);
    lemma_be_roundtrip(unsigned_of(x as int, 0x10000nat), 2);
    assert((b + rest).take(2) =~= b);
}

impl PacketSize for i32 {
    open spec fn wire(&self) -> Seq<u8> {
        be_bytes(unsigned_of(*self as int, 0x100000000nat), 4)
    }

    fn size(&self) -> (n: usize) {
        proof {
            lemma_be_bytes_len(unsigned_of(*self as int, 0x100000000nat), 4);
        }
        4
    }
}

impl PacketWrite for i32 {
    fn write(&self, buffer: &mut WriteBuf) -> (r: Result<(), WriteError>) {
        proof {
            lemma_be_bytes_len(unsigned_of(*self as int, 0x100000000nat), 4);
        }
        if buffer.remaining_mut() < 4 {
            return Err(WriteError::EndOfBuffer);
        }
        let bits: u128 = if *self >= 0 { *self as u128 } else { ((*self as i128) + 0x100000000) as u128 };
        put_be(buffer, bits, 4);
        Ok(())
    }
}

impl PacketRead for i32 {
    open spec fn parse(input: Seq<u8>) -> Result<(i32, nat), ReadError> {
        match parse_fixed(input, 4) {
            Ok((v, n)) => Ok((signed_of(v, 0x100000000nat) as i32, n)),
            Err(e) => Err(e),
        }
    }

    fn read(buffer: &mut ReadBuf) -> (r: Result<i32, ReadError>) {
        if buffer.remaining() < 4 {
            return Err(ReadError::NoMoreBytes);
        }
        let ghost input = buffer@;
        let v = get_be(buffer, 4);
        proof {
            lemma_be_value_bound(input.take(4));
            reveal_with_fuel(pow256, 5);
        }
        Ok(if v < 0x80000000 { v as i32 } else { ((v - 0x80000000) as i32) - 0x7fffffff - 1 })
    }
}

/// Reading back what a `i32` is written as gives the same `i32`, whatever
/// follows it.
pub proof fn law_i32_roundtrip(x: i32, rest: Seq<u8>)
    ensures
        <i32 as PacketRead>::parse(x.wire() + rest) == Ok::<(i32, nat), ReadError>((x, 4nat)),
{
    reveal_with_fuel(pow256, 5);
    let b = be_bytes(unsigned_of(x as int, 0x100000000nat), 4);
    lemma_be_roundtrip(unsigned_of(x as int, 0x100000000nat), 4);
    assert((b + rest).take(4) =~= b);
}

impl PacketSize for i64 {
    open spec fn wire(&self) -> Seq<u8> {
        be_bytes(unsigned_of(*self as int, 0x10000000000000000nat), 8)
    }

    fn size(&self) -> (n: usize) {
        proof {
            lemma_be_bytes_len(unsigned_of(*self as int, 0x10000000000000000nat), 8);
        }
        8
    }
}

impl PacketWrite for i64 {
    fn write(&self, buffer: &mut WriteBuf) -> (r: Result<(), WriteError>) {
        proof {
            lemma_be_bytes_len(unsigned_of(*self as int, 0x10000000000000000nat), 8);
        }
        if buffer.remaining_mut() < 8 {
            return Err(WriteError::EndOfBuffer);
        }
        let bits: u128 = if *self >= 0 { *self as u128 } else { ((*self as i128) + 0x10000000000000000) as u128 };
        put_be(buffer, bits, 8);
        Ok(())
    }
}

impl PacketRead for i64 {
    open spec fn parse(input: Seq<u8>) -> Result<(i64, nat), ReadError> {
        match parse_fixed(input, 8) {
            Ok((v, n)) => Ok((signed_of(v, 0x10000000000000000nat) as i64, n)),
            Err(e) => Err(e),
        }
    }

    fn read(buffer: &mut ReadBuf) -> (r: Result<i64, ReadError>) {
        if buffer.remaining() < 8 {
            return Err(ReadError::NoMoreBytes);
        }
        let ghost input = buffer@;
        let v = get_be(buffer, 8);
        proof {
            lemma_be_value_bound(input.take(8));
            reveal_with_fuel(pow256, 9);
        }
        Ok(if v < 0x8000000000000000 { v as i64 } else { ((v - 0x8000000000000000) as i64) - 0x7fffffffffffffff - 1 })
    }
}

/// Reading back what a `i64` is written as gives the same `i64`, whatever
/// follows it.
pub proof fn law_i64_roundtrip(x: i64, rest: Seq<u8>)
    ensures
        <i64 as PacketRead>::parse(x.wire() + rest) == Ok::<(i64, nat), ReadError>((x, 8nat)),
{
    reveal_with_fuel(pow256, 9);
    let b = be_bytes(unsigned_of(x as int, 0x10000000000000000nat), 8);
    lemma_be_roundtrip(unsigned_of(x as int, 0x10000000000000000nat), 8);
    assert((b + rest).take(8) =~= b);
}

impl PacketSize for i128 {
    open spec fn wire(&self) -> Seq<u8> {
        be_bytes(unsigned_of(*self as int, 0x100000000000000000000000000000000nat), 16)
    }

    fn size(&self) -> (n: usize) {
        proof {
            lemma_be_bytes_len(unsigned_of(*self as int, 0x100000000000000000000000000000000nat), 16);
        }
        16
    }
}

impl PacketWrite for i128 {
    fn write(&self, buffer: &mut WriteBuf) -> (r: Result<(), WriteError>) {
        proof {
            lemma_be_bytes_len(unsigned_of(*self as int, 0x100000000000000000000000000000000nat), 16);
        }
        if buffer.remaining_mut() < 16 {
            return Err(WriteError::EndOfBuffer);
        }
        let bits: u128 = if *self >= 0 { *self as u128 } else { (((*self + 0x7fff_ffff_ffff_ffff_ffff_ffff_ffff_ffff) + 1) as u128) + 0x8000_0000_0000_0000_0000_0000_0000_0000 };
        put_be(buffer, bits, 16);
        Ok(())
    }
}

impl PacketRead for i128 {
    open spec fn parse(input: Seq<u8>) -> Result<(i128, nat), ReadError> {
        match parse_fixed(input, 16) {
            Ok((v, n)) => Ok((signed_of(v, 0x100000000000000000000000000000000nat) as i128, n)),
            Err(e) => Err(e),
        }
    }

    fn read(buffer: &mut ReadBuf) -> (r: Result<i128, ReadError>) {
        if buffer.remaining() < 16 {
            return Err(ReadError::NoMoreBytes);
        }
        let ghost input = buffer@;
        let v = get_be(buffer, 16);
        proof {
            lemma_be_value_bound(input.take(16));
            reveal_with_fuel(pow256, 17);
        }
        Ok(if v < 0x80000000000000000000000000000000 { v as i128 } else { ((v - 0x80000000000000000000000000000000) as i128) - 0x7fffffffffffffffffffffffffffffff - 1 })
    }
}

/// Reading back what a `i128` is written as gives the same `i128`, whatever
/// follows it.
pub proof fn law_i128_roundtrip(x: i128, rest: Seq<u8>)
    ensures
        <i128 as PacketRead>::parse(x.wire() + rest) == Ok::<(i128, nat), ReadError>((x, 16nat)),
{
    reveal_with_fuel(pow256, 17);
    let b = be_bytes(unsigned_of(x as int, 0x100000000000000000000000000000000nat), 16);
    lemma_be_roundtrip(unsigned_of(x as int, 0x100000000000000000000000000000000nat), 16);
    assert((b + rest).take(16) =~= b);
}

} // verus!
