use vstd::prelude::*;

use crate::buf::{ReadBuf, WriteBuf};
use crate::error::{ReadError, WriteError};
use crate::num::{signed_of, unsigned_of};
use crate::traits::{is_suffix, write_outcome, PacketRead, PacketSize, PacketWrite};
use vstd::std_specs::convert::FromSpecImpl;

verus! {

/// `128` to the power `n`.
pub open spec fn pow128(n: nat) -> nat
    decreases n,
{
    if n == 0 {
        1
    } else {
        128 * pow128((n - 1) as nat)
    }
}

/// The variable-length encoding of the number `u`: seven bits per byte,
/// least significant group first, the high bit of every byte but the last
/// set.
pub open spec fn varint_wire(u: nat) -> Seq<u8>
    decreases u,
{
    if u < 128 {
        seq![u as u8]
    } else {
        seq![(u % 128 + 128) as u8] + varint_wire(u / 128)
    }
}

/// Decodes a variable-length number from the front of `input`, reading at
/// most `budget` bytes: the number and the count of bytes read, or
/// [`VarTooLong`](ReadError::VarTooLong) when `budget` bytes all carry the
/// continuation bit, or [`NoMoreBytes`](ReadError::NoMoreBytes) when the input
/// ends first.
pub open spec fn varint_decode(input: Seq<u8>, budget: nat) -> Result<(nat, nat), ReadError>
    decreases budget,
{
    if budget == 0 {
        Err(ReadError::VarTooLong)
    } else if input.len() == 0 {
        Err(ReadError::NoMoreBytes)
    } else if input[0] < 128 {
        Ok((input[0] as nat, 1))
    } else {
        match varint_decode(input.drop_first(), (budget - 1) as nat) {
            Ok((v, n)) => Ok((((input[0] - 128) + 128 * v) as nat, n + 1)),
            Err(e) => Err(e),
        }
    }
}

/// Largest number of bytes a variable-length encoding of an integer of
/// `bits` bits may take up.
pub fn var_max(bits: u32) -> (r: usize)
    requires
        bits <= 128,
    ensures
        r == (bits + 6) / 7,
{
    ((bits as usize) + 6) / 7
}

spec fn shifted(r: Result<(nat, nat), ReadError>, acc: nat, mult: nat, i: nat) -> Result<
    (nat, nat),
    ReadError,
> {
    match r {
        Ok((v, n)) => Ok((acc + mult * v, n + i)),
        Err(e) => Err(e),
    }
}

proof fn lemma_shift_step(r: Result<(nat, nat), ReadError>, acc: nat, mult: nat, i: nat, b: nat)
    requires
        128 <= b < 256,
    ensures
        shifted(
            match r {
                Ok((v, n)) => Ok((((b - 128) + 128 * v) as nat, n + 1)),
                Err(e) => Err(e),
            },
            acc,
            mult,
            i,
        ) == shifted(r, (acc + mult * (b - 128)) as nat, mult * 128, i + 1),
{
    match r {
        Ok((v, n)) => {
            assert(mult * ((b - 128) + 128 * v) == mult * (b - 128) + (mult * 128) * v)
                by (nonlinear_arith);
        },
        Err(e) => {},
    }
}

proof fn lemma_pow128_values()
    ensures
        pow128(9) == 0x8000_0000_0000_0000,
        pow128(10) == 0x40_0000_0000_0000_0000,
{
    reveal_with_fuel(pow128, 11);
}

proof fn lemma_pow128_monotonic(a: nat, b: nat)
    requires
        a <= b,
    ensures
        pow128(a) <= pow128(b),
        pow128(a) >= 1,
    decreases b,
{
    if a < b {
        lemma_pow128_monotonic(a, (b - 1) as nat);
    } else if a > 0 {
        lemma_pow128_monotonic((a - 1) as nat, (a - 1) as nat);
    }
}

/// Reads a variable-length number of at most `max` bytes from the front of
/// `buffer`.
pub(crate) fn read_varint(buffer: &mut ReadBuf, max: usize) -> (r: Result<u128, ReadError>)
    requires
        1 <= max <= 10,
    ensures
        match varint_decode(old(buffer)@, max as nat) {
            Ok((v, n)) => v < pow128(n) && v < 0x40_0000_0000_0000_0000 && n <= max && n <= old(buffer)@.len() && r == Ok::<
                u128,
                ReadError,
            >(v as u128)
                && final(buffer)@ == old(buffer)@.skip(n as int),
            Err(e) => r == Err::<u128, ReadError>(e) && is_suffix(final(buffer)@, old(buffer)@),
        },
{
    let ghost input = buffer@;
    let mut acc: u128 = 0;
    let mut mult: u128 = 1;
    let mut i: usize = 0;
    proof {
        assert(input.skip(0) =~= input);
    }
    loop
        invariant
            1 <= max <= 10,
            input == old(buffer)@,
            i <= max,
            i <= input.len(),
            buffer@ == input.skip(i as int),
            mult == pow128(i as nat),
            acc < mult,
            varint_decode(input, max as nat) == shifted(
                varint_decode(input.skip(i as int), (max - i) as nat),
                acc as nat,
                mult as nat,
                i as nat,
            ),
        decreases max - i,
    {
        proof {
            assert(is_suffix(input.skip(i as int), input));
        }
        if i == max {
            proof {
                assert(varint_decode(input.skip(i as int), 0) == Err::<(nat, nat), ReadError>(ReadError::VarTooLong));
                assert(varint_decode(input, max as nat) == Err::<(nat, nat), ReadError>(ReadError::VarTooLong));
            }
            return Err(ReadError::VarTooLong);
        }
        proof {
            lemma_pow128_values();
            lemma_pow128_monotonic(i as nat, 9);
            lemma_pow128_monotonic((i + 1) as nat, 10);
            assert(pow128((i + 1) as nat) == 128 * pow128(i as nat));
        }
        if !buffer.has_remaining() {
            return Err(ReadError::NoMoreBytes);
        }
        let byte = buffer.get_u8();
        if byte < 128 {
            proof {
                assert(acc + mult * byte < mult * 128) by (nonlinear_arith)
                    requires
                        acc < mult,
                        byte < 128,
                ;
                assert(buffer@ =~= input.skip(i + 1));
            }
            let value = acc + mult * (byte as u128);
            return Ok(value);
        }
        proof {
            let s = input.skip(i as int);
            assert(s.drop_first() =~= input.skip(i + 1));
            lemma_shift_step(
                varint_decode(input.skip(i + 1), (max - i - 1) as nat),
                acc as nat,
                mult as nat,
                i as nat,
                byte as nat,
            );
            assert(acc + mult * (byte - 128) < mult * 128) by (nonlinear_arith)
                requires
                    acc < mult,
                    byte < 256,
                    byte >= 128,
            ;
        }
        acc = acc + mult * ((byte - 128) as u128);
        mult = mult * 128;
        i = i + 1;
    }
}

/// Number of bytes in the variable-length encoding of `u`.
fn varint_size(u: u64) -> (n: usize)
    ensures
        n == varint_wire(u as nat).len(),
        1 <= n <= 10,
{
    let mut rest = u;
    let mut n: usize = 1;
    proof {
        assert(pow128(0) == 1);
        assert(rest as nat * pow128(0) == rest as nat);
    }
    while rest >= 128
        invariant
            varint_wire(u as nat).len() == n - 1 + varint_wire(rest as nat).len(),
            1 <= n <= 10,
            rest as nat * pow128((n - 1) as nat) <= u,
        decreases rest,
    {
        proof {
            lemma_pow128_values();
            if n >= 10 {
                lemma_pow128_monotonic(9, (n - 1) as nat);
                assert(rest as nat * pow128((n - 1) as nat) >= 128 * 0x8000_0000_0000_0000)
                    by (nonlinear_arith)
                    requires
                        rest >= 128,
                        pow128((n - 1) as nat) >= 0x8000_0000_0000_0000,
                ;
            }
            assert((rest / 128) as nat * pow128(n as nat) <= rest as nat * pow128((n - 1) as nat))
                by (nonlinear_arith)
                requires
                    pow128(n as nat) == 128 * pow128((n - 1) as nat),
            ;
        }
        rest = rest / 128;
        n = n + 1;
    }
    n
}

/// Appends the variable-length encoding of `u`.
fn write_varint(u: u64, buffer: &mut WriteBuf) -> (r: Result<(), WriteError>)
    ensures
        write_outcome(*old(buffer), *final(buffer), varint_wire(u as nat), r),
{
    let ghost wire = varint_wire(u as nat);
    let mut rest = u;
    let ghost mut written: Seq<u8> = Seq::empty();
    while rest >= 128
        invariant
            wire == varint_wire(u as nat),
            wire == written + varint_wire(rest as nat),
            buffer@ == old(buffer)@ + written,
            buffer.limit() == old(buffer).limit(),
            buffer.spec_remaining() + written.len() == old(buffer).spec_remaining(),
        decreases rest,
    {
        let byte = (rest % 128 + 128) as u8;
        let ghost before = *buffer;
        if let Err(e) = byte.write(buffer) {
            proof {
                assert(varint_wire(rest as nat).len() >= 1);
                assert(wire.take(written.len() as int) =~= written);
                assert(buffer@ == before@);
            }
            return Err(e);
        }
        proof {
            written = written.push(byte);
            assert(wire =~= written + varint_wire((rest / 128) as nat));
        }
        rest = rest / 128;
    }
    let ghost before = *buffer;
    let r = (rest as u8).write(buffer);
    proof {
        assert(varint_wire(rest as nat) == seq![rest as u8]);
        if r is Ok {
            assert(wire =~= written.push(rest as u8));
            assert(buffer@ =~= old(buffer)@ + wire);
        } else {
            assert(wire.take(written.len() as int) =~= written);
            assert(buffer@ == before@);
        }
    }
    r
}

/// A 32-bit signed integer written in the protocol's variable-length form
/// (between one and five bytes).
#[derive(Debug, Clone, Copy, PartialEq, Eq, Hash, Default)]
pub struct VarI32 {
    pub val: i32,
}

/// A 64-bit signed integer written in the protocol's variable-length form
/// (between one and ten bytes).
#[derive(Debug, Clone, Copy, PartialEq, Eq, Hash, Default)]
pub struct VarI64 {
    pub val: i64,
}

/// Two's complement bit pattern of a 32-bit value.
pub open spec fn bits32(v: i32) -> nat {
    unsigned_of(v as int, 0x1_0000_0000nat)
}

/// Two's complement bit pattern of a 64-bit value.
pub open spec fn bits64(v: i64) -> nat {
    unsigned_of(v as int, 0x1_0000_0000_0000_0000nat)
}

fn i32_to_bits(v: i32) -> (r: u64)
    ensures
        r == bits32(v),
{
    if v >= 0 {
        v as u64
    } else {
        ((v as i64) + 0x1_0000_0000) as u64
    }
}

fn i64_to_bits(v: i64) -> (r: u64)
    ensures
        r == bits64(v),
{
    if v >= 0 {
        v as u64
    } else {
        (((v + 0x7fff_ffff_ffff_ffff) + 1) as u64) + 0x8000_0000_0000_0000
    }
}

impl VarI32 {
    pub fn val(self) -> (r: i32)
        ensures
            r == self.val,
    {
        self.val
    }

    pub fn as_isize(self) -> (r: isize)
        ensures
            r == self.val as isize,
    {
        self.val as isize
    }

    pub fn as_usize(self) -> (r: usize)
        ensures
            r == self.val as usize,
    {
        self.val as usize
    }

    pub fn as_u32(self) -> (r: u32)
        ensures
            r == self.val as u32,
    {
        self.val as u32
    }

    pub fn as_i64(self) -> (r: i64)
        ensures
            r == self.val as i64,
    {
        self.val as i64
    }

    pub fn as_u64(self) -> (r: u64)
        ensures
            r == self.val as u64,
    {
        self.val as u64
    }

    pub fn as_i128(self) -> (r: i128)
        ensures
            r == self.val as i128,
    {
        self.val as i128
    }

    pub fn as_u128(self) -> (r: u128)
        ensures
            r == self.val as u128,
    {
        self.val as u128
    }
}

impl VarI64 {
    pub fn val(self) -> (r: i64)
        ensures
            r == self.val,
    {
        self.val
    }

    pub fn as_u64(self) -> (r: u64)
        ensures
            r == self.val as u64,
    {
        self.val as u64
    }

    pub fn as_i128(self) -> (r: i128)
        ensures
            r == self.val as i128,
    {
        self.val as i128
    }

    pub fn as_u128(self) -> (r: u128)
        ensures
            r == self.val as u128,
    {
        self.val as u128
    }
}

impl PacketSize for VarI32 {
    open spec fn wire(&self) -> Seq<u8> {
        varint_wire(bits32(self.val))
    }

    fn size(&self) -> (n: usize) {
        varint_size(i32_to_bits(self.val))
    }
}

impl PacketWrite for VarI32 {
    fn write(&self, buffer: &mut WriteBuf) -> (r: Result<(), WriteError>) {
        write_varint(i32_to_bits(self.val), buffer)
    }
}

impl PacketRead for VarI32 {
    /// At most five bytes are read; the decoded number is taken modulo
    /// `2^32` as a two's complement bit pattern.
    open spec fn parse(input: Seq<u8>) -> Result<(VarI32, nat), ReadError> {
        match varint_decode(input, 5) {
            Ok((v, n)) => Ok(
                (
                    VarI32 { val: signed_of(v % 0x1_0000_0000nat, 0x1_0000_0000nat) as i32 },
                    n,
                ),
            ),
            Err(e) => Err(e),
        }
    }

    fn read(buffer: &mut ReadBuf) -> (r: Result<VarI32, ReadError>) {
        let acc = match read_varint(buffer, var_max(32)) {
            Ok(acc) => acc,
            Err(e) => return Err(e),
        };
        let low = (acc % 0x1_0000_0000) as u32;
        let val = if low < 0x8000_0000 {
            low as i32
        } else {
            ((low - 0x8000_0000) as i32) - 0x7fff_ffff - 1
        };
        Ok(VarI32 { val })
    }
}

impl PacketSize for VarI64 {
    open spec fn wire(&self) -> Seq<u8> {
        varint_wire(bits64(self.val))
    }

    fn size(&self) -> (n: usize) {
        varint_size(i64_to_bits(self.val))
    }
}

impl PacketWrite for VarI64 {
    fn write(&self, buffer: &mut WriteBuf) -> (r: Result<(), WriteError>) {
        write_varint(i64_to_bits(self.val), buffer)
    }
}

impl PacketRead for VarI64 {
    /// At most ten bytes are read; the decoded number is taken modulo
    /// `2^64` as a two's complement bit pattern.
    open spec fn parse(input: Seq<u8>) -> Result<(VarI64, nat), ReadError> {
        match varint_decode(input, 10) {
            Ok((v, n)) => Ok(
                (
                    VarI64 {
                        val: signed_of(
                            v % 0x1_0000_0000_0000_0000nat,
                            0x1_0000_0000_0000_0000nat,
                        ) as i64,
                    },
                    n,
                ),
            ),
            Err(e) => Err(e),
        }
    }

    fn read(buffer: &mut ReadBuf) -> (r: Result<VarI64, ReadError>) {
        let acc = read_varint(buffer, var_max(64))?;
        let low = (acc % 0x1_0000_0000_0000_0000) as u64;
        let val = if low < 0x8000_0000_0000_0000 {
            low as i64
        } else {
            ((low - 0x8000_0000_0000_0000) as i64) - 0x7fff_ffff_ffff_ffff - 1
        };
        Ok(VarI64 { val })
    }
}

pub(crate) proof fn lemma_decode_wire(u: nat, rest: Seq<u8>, budget: nat)
    requires
        varint_wire(u).len() <= budget,
    ensures
        varint_decode(varint_wire(u) + rest, budget) == Ok::<(nat, nat), ReadError>(
            (u, varint_wire(u).len()),
        ),
    decreases u,
{
    let s = varint_wire(u) + rest;
    if u < 128 {
        assert(s[0] == u as u8);
    } else {
        lemma_decode_wire(u / 128, rest, (budget - 1) as nat);
        assert(s.drop_first() =~= varint_wire(u / 128) + rest);
        assert(s[0] == (u % 128 + 128) as u8);
    }
}

/// A 32-bit number takes one to five bytes.
pub proof fn lemma_vari32_wire_len(v: VarI32)
    ensures
        1 <= v.wire().len() <= 5,
{
    assert(pow128(5) == 0x8_0000_0000) by {
        reveal_with_fuel(pow128, 6);
    }
    lemma_wire_len(bits32(v.val), 5);
}

pub(crate) proof fn lemma_wire_len(u: nat, k: nat)
    requires
        k >= 1,
        u < pow128(k),
    ensures
        1 <= varint_wire(u).len() <= k,
    decreases u,
{
    if u >= 128 {
        assert(u / 128 < pow128((k - 1) as nat)) by (nonlinear_arith)
            requires
                u < pow128(k),
                pow128(k) == 128 * pow128((k - 1) as nat),
                u >= 128,
        ;
        if k == 1 {
            assert(pow128(1) == 128) by {
                reveal_with_fuel(pow128, 2);
            }
        }
        lemma_wire_len(u / 128, (k - 1) as nat);
    }
}

/// Reading back what a `VarI32` is written as gives the same value, whatever
/// follows it; the encoding takes between one and five bytes.
pub proof fn law_vari32_roundtrip(x: VarI32, rest: Seq<u8>)
    ensures
        1 <= x.wire().len() <= 5,
        <VarI32 as PacketRead>::parse(x.wire() + rest) == Ok::<(VarI32, nat), ReadError>(
            (x, x.wire().len()),
        ),
{
    reveal_with_fuel(pow128, 6);
    lemma_wire_len(bits32(x.val), 5);
    lemma_decode_wire(bits32(x.val), rest, 5);
}

/// Reading back what a `VarI64` is written as gives the same value, whatever
/// follows it; the encoding takes between one and ten bytes.
pub proof fn law_vari64_roundtrip(x: VarI64, rest: Seq<u8>)
    ensures
        1 <= x.wire().len() <= 10,
        <VarI64 as PacketRead>::parse(x.wire() + rest) == Ok::<(VarI64, nat), ReadError>(
            (x, x.wire().len()),
        ),
{
    lemma_pow128_values();
    lemma_wire_len(bits64(x.val), 10);
    lemma_decode_wire(bits64(x.val), rest, 10);
}

impl From<i32> for VarI32 {
    fn from(v: i32) -> (r: Self)
        ensures
            r.val as int == v as int,
    {
        VarI32 { val: v }
    }
}

impl FromSpecImpl<i32> for VarI32 {
    open spec fn obeys_from_spec() -> bool {
        true
    }

    open spec fn from_spec(v: i32) -> Self {
        VarI32 { val: v }
    }
}

impl From<i8> for VarI32 {
    fn from(v: i8) -> (r: Self)
        ensures
            r.val as int == v as int,
    {
        VarI32 { val: v as i32 }
    }
}

impl FromSpecImpl<i8> for VarI32 {
    open spec fn obeys_from_spec() -> bool {
        true
    }

    open spec fn from_spec(v: i8) -> Self {
        VarI32 { val: v as i32 }
    }
}

impl From<u8> for VarI32 {
    fn from(v: u8) -> (r: Self)
        ensures
            r.val as int == v as int,
    {
        VarI32 { val: v as i32 }
    }
}

impl FromSpecImpl<u8> for VarI32 {
    open spec fn obeys_from_spec() -> bool {
        true
    }

    open spec fn from_spec(v: u8) -> Self {
        VarI32 { val: v as i32 }
    }
}

impl From<i16> for VarI32 {
    fn from(v: i16) -> (r: Self)
        ensures
            r.val as int == v as int,
    {
        VarI32 { val: v as i32 }
    }
}

impl FromSpecImpl<i16> for VarI32 {
    open spec fn obeys_from_spec() -> bool {
        true
    }

    open spec fn from_spec(v: i16) -> Self {
        VarI32 { val: v as i32 }
    }
}

impl From<u16> for VarI32 {
    fn from(v: u16) -> (r: Self)
        ensures
            r.val as int == v as int,
    {
        VarI32 { val: v as i32 }
    }
}

impl FromSpecImpl<u16> for VarI32 {
    open spec fn obeys_from_spec() -> bool {
        true
    }

    open spec fn from_spec(v: u16) -> Self {
        VarI32 { val: v as i32 }
    }
}

impl From<isize> for VarI32 {
    fn from(v: isize) -> (r: Self)
        ensures
            (r.val as int - v as int) % 0x1_0000_0000 == 0,
    {
        assert(((v as i32) as int - v as int) % 0x1_0000_0000 == 0) by (bit_vector);
        VarI32 { val: v as i32 }
    }
}

impl FromSpecImpl<isize> for VarI32 {
    open spec fn obeys_from_spec() -> bool {
        true
    }

    open spec fn from_spec(v: isize) -> Self {
        VarI32 { val: v as i32 }
    }
}

impl From<usize> for VarI32 {
    #[verifier::spinoff_prover]
    fn from(v: usize) -> (r: Self)
        ensures
            (r.val as int - v as int) % 0x1_0000_0000 == 0,
    {
        assert(((v as i32) as int - v as int) % 0x1_0000_0000 == 0) by (bit_vector);
        VarI32 { val: v as i32 }
    }
}

impl FromSpecImpl<usize> for VarI32 {
    open spec fn obeys_from_spec() -> bool {
        true
    }

    open spec fn from_spec(v: usize) -> Self {
        VarI32 { val: v as i32 }
    }
}

impl From<u32> for VarI32 {
    fn from(v: u32) -> (r: Self)
        ensures
            (r.val as int - v as int) % 0x1_0000_0000 == 0,
    {
        assert(((v as i32) as int - v as int) % 0x1_0000_0000 == 0) by (bit_vector);
        VarI32 { val: v as i32 }
    }
}

impl FromSpecImpl<u32> for VarI32 {
    open spec fn obeys_from_spec() -> bool {
        true
    }

    open spec fn from_spec(v: u32) -> Self {
        VarI32 { val: v as i32 }
    }
}

impl From<VarI32> for i32 {
    fn from(v: VarI32) -> (r: Self)
        ensures
            r as int == v.val as int,
    {
        v.val
    }
}

impl FromSpecImpl<VarI32> for i32 {
    open spec fn obeys_from_spec() -> bool {
        true
    }

    open spec fn from_spec(v: VarI32) -> Self {
        v.val
    }
}

impl From<VarI32> for isize {
    fn from(v: VarI32) -> (r: Self)
        ensures
            r as int == v.val as int,
    {
        v.val as isize
    }
}

impl FromSpecImpl<VarI32> for isize {
    open spec fn obeys_from_spec() -> bool {
        true
    }

    open spec fn from_spec(v: VarI32) -> Self {
        v.val as isize
    }
}

impl From<VarI32> for usize {
    fn from(v: VarI32) -> (r: Self)
        ensures
            v.val >= 0 ==> r as int == v.val as int,
            v.val < 0 ==> r as int == v.val as int + usize::MAX + 1,
    {
        let ghost x: i32 = v.val;
        assert(x >= 0 ==> (x as usize) as int == x as int) by (bit_vector);
        assert(x < 0 ==> (x as usize) as int == x as int + (!0usize) as int + 1) by (bit_vector);
        let ghost top: usize = usize::MAX;
        assert(top <= !0usize) by (bit_vector);
        v.val as usize
    }
}

impl FromSpecImpl<VarI32> for usize {
    open spec fn obeys_from_spec() -> bool {
        true
    }

    open spec fn from_spec(v: VarI32) -> Self {
        v.val as usize
    }
}

impl From<VarI32> for u32 {
    fn from(v: VarI32) -> (r: Self)
        ensures
            (r as int - v.val as int) % 0x1_0000_0000 == 0,
    {
        let ghost x: i32 = v.val;
        assert(((x as u32) as int - x as int) % 0x1_0000_0000 == 0) by (bit_vector);
        v.val as u32
    }
}

impl FromSpecImpl<VarI32> for u32 {
    open spec fn obeys_from_spec() -> bool {
        true
    }

    open spec fn from_spec(v: VarI32) -> Self {
        v.val as u32
    }
}

impl From<VarI32> for i64 {
    fn from(v: VarI32) -> (r: Self)
        ensures
            r as int == v.val as int,
    {
        v.val as i64
    }
}

impl FromSpecImpl<VarI32> for i64 {
    open spec fn obeys_from_spec() -> bool {
        true
    }

    open spec fn from_spec(v: VarI32) -> Self {
        v.val as i64
    }
}

impl From<VarI32> for u64 {
    fn from(v: VarI32) -> (r: Self)
        ensures
            (r as int - v.val as int) % 0x1_0000_0000_0000_0000 == 0,
    {
        let ghost x: i32 = v.val;
        assert(((x as u64) as int - x as int) % 0x1_0000_0000_0000_0000 == 0) by (bit_vector);
        v.val as u64
    }
}

impl FromSpecImpl<VarI32> for u64 {
    open spec fn obeys_from_spec() -> bool {
        true
    }

    open spec fn from_spec(v: VarI32) -> Self {
        v.val as u64
    }
}

impl From<VarI32> for i128 {
    fn from(v: VarI32) -> (r: Self)
        ensures
            r as int == v.val as int,
    {
        v.val as i128
    }
}

impl FromSpecImpl<VarI32> for i128 {
    open spec fn obeys_from_spec() -> bool {
        true
    }

    open spec fn from_spec(v: VarI32) -> Self {
        v.val as i128
    }
}

impl From<VarI32> for u128 {
    fn from(v: VarI32) -> (r: Self)
        ensures
            (r as int - v.val as int) % (u128::MAX as int + 1) == 0,
    {
        let ghost x: i32 = v.val;
        assert(((x as u128) as int - x as int) % (u128::MAX as int + 1) == 0) by (bit_vector);
        v.val as u128
    }
}

impl FromSpecImpl<VarI32> for u128 {
    open spec fn obeys_from_spec() -> bool {
        true
    }

    open spec fn from_spec(v: VarI32) -> Self {
        v.val as u128
    }
}

impl From<i64> for VarI64 {
    fn from(v: i64) -> (r: Self)
        ensures
            r.val as int == v as int,
    {
        VarI64 { val: v }
    }
}

impl FromSpecImpl<i64> for VarI64 {
    open spec fn obeys_from_spec() -> bool {
        true
    }

    open spec fn from_spec(v: i64) -> Self {
        VarI64 { val: v }
    }
}

impl From<i8> for VarI64 {
    fn from(v: i8) -> (r: Self)
        ensures
            r.val as int == v as int,
    {
        VarI64 { val: v as i64 }
    }
}

impl FromSpecImpl<i8> for VarI64 {
    open spec fn obeys_from_spec() -> bool {
        true
    }

    open spec fn from_spec(v: i8) -> Self {
        VarI64 { val: v as i64 }
    }
}

impl From<u8> for VarI64 {
    fn from(v: u8) -> (r: Self)
        ensures
            r.val as int == v as int,
    {
        VarI64 { val: v as i64 }
    }
}

impl FromSpecImpl<u8> for VarI64 {
    open spec fn obeys_from_spec() -> bool {
        true
    }

    open spec fn from_spec(v: u8) -> Self {
        VarI64 { val: v as i64 }
    }
}

impl From<i16> for VarI64 {
    fn from(v: i16) -> (r: Self)
        ensures
            r.val as int == v as int,
    {
        VarI64 { val: v as i64 }
    }
}

impl FromSpecImpl<i16> for VarI64 {
    open spec fn obeys_from_spec() -> bool {
        true
    }

    open spec fn from_spec(v: i16) -> Self {
        VarI64 { val: v as i64 }
    }
}

impl From<u16> for VarI64 {
    fn from(v: u16) -> (r: Self)
        ensures
            r.val as int == v as int,
    {
        VarI64 { val: v as i64 }
    }
}

impl FromSpecImpl<u16> for VarI64 {
    open spec fn obeys_from_spec() -> bool {
        true
    }

    open spec fn from_spec(v: u16) -> Self {
        VarI64 { val: v as i64 }
    }
}

impl From<i32> for VarI64 {
    fn from(v: i32) -> (r: Self)
        ensures
            r.val as int == v as int,
    {
        VarI64 { val: v as i64 }
    }
}

impl FromSpecImpl<i32> for VarI64 {
    open spec fn obeys_from_spec() -> bool {
        true
    }

    open spec fn from_spec(v: i32) -> Self {
        VarI64 { val: v as i64 }
    }
}

impl From<u32> for VarI64 {
    fn from(v: u32) -> (r: Self)
        ensures
            r.val as int == v as int,
    {
        VarI64 { val: v as i64 }
    }
}

impl FromSpecImpl<u32> for VarI64 {
    open spec fn obeys_from_spec() -> bool {
        true
    }

    open spec fn from_spec(v: u32) -> Self {
        VarI64 { val: v as i64 }
    }
}

impl From<isize> for VarI64 {
    fn from(v: isize) -> (r: Self)
        ensures
            r.val as int == v as int,
    {
        VarI64 { val: v as i64 }
    }
}

impl FromSpecImpl<isize> for VarI64 {
    open spec fn obeys_from_spec() -> bool {
        true
    }

    open spec fn from_spec(v: isize) -> Self {
        VarI64 { val: v as i64 }
    }
}

impl From<usize> for VarI64 {
    fn from(v: usize) -> (r: Self)
        ensures
            (r.val as int - v as int) % 0x1_0000_0000_0000_0000 == 0,
    {
        assert(((v as i64) as int - v as int) % 0x1_0000_0000_0000_0000 == 0) by (bit_vector);
        VarI64 { val: v as i64 }
    }
}

impl FromSpecImpl<usize> for VarI64 {
    open spec fn obeys_from_spec() -> bool {
        true
    }

    open spec fn from_spec(v: usize) -> Self {
        VarI64 { val: v as i64 }
    }
}

impl From<u64> for VarI64 {
    fn from(v: u64) -> (r: Self)
        ensures
            (r.val as int - v as int) % 0x1_0000_0000_0000_0000 == 0,
    {
        assert(((v as i64) as int - v as int) % 0x1_0000_0000_0000_0000 == 0) by (bit_vector);
        VarI64 { val: v as i64 }
    }
}

impl FromSpecImpl<u64> for VarI64 {
    open spec fn obeys_from_spec() -> bool {
        true
    }

    open spec fn from_spec(v: u64) -> Self {
        VarI64 { val: v as i64 }
    }
}

impl From<VarI64> for i64 {
    fn from(v: VarI64) -> (r: Self)
        ensures
            r as int == v.val as int,
    {
        v.val
    }
}

impl FromSpecImpl<VarI64> for i64 {
    open spec fn obeys_from_spec() -> bool {
        true
    }

    open spec fn from_spec(v: VarI64) -> Self {
        v.val
    }
}

impl From<VarI64> for u64 {
    fn from(v: VarI64) -> (r: Self)
        ensures
            (r as int - v.val as int) % 0x1_0000_0000_0000_0000 == 0,
    {
        let ghost x: i64 = v.val;
        assert(((x as u64) as int - x as int) % 0x1_0000_0000_0000_0000 == 0) by (bit_vector);
        v.val as u64
    }
}

impl FromSpecImpl<VarI64> for u64 {
    open spec fn obeys_from_spec() -> bool {
        true
    }

    open spec fn from_spec(v: VarI64) -> Self {
        v.val as u64
    }
}

impl From<VarI64> for i128 {
    fn from(v: VarI64) -> (r: Self)
        ensures
            r as int == v.val as int,
    {
        v.val as i128
    }
}

impl FromSpecImpl<VarI64> for i128 {
    open spec fn obeys_from_spec() -> bool {
        true
    }

    open spec fn from_spec(v: VarI64) -> Self {
        v.val as i128
    }
}

impl From<VarI64> for u128 {
    fn from(v: VarI64) -> (r: Self)
        ensures
            (r as int - v.val as int) % (u128::MAX as int + 1) == 0,
    {
        let ghost x: i64 = v.val;
        assert(((x as u128) as int - x as int) % (u128::MAX as int + 1) == 0) by (bit_vector);
        v.val as u128
    }
}

impl FromSpecImpl<VarI64> for u128 {
    open spec fn obeys_from_spec() -> bool {
        true
    }

    open spec fn from_spec(v: VarI64) -> Self {
        v.val as u128
    }
}

} // verus!
