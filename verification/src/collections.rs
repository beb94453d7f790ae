use vstd::prelude::*;

use bytes::Bytes;

use crate::buf::{ReadBuf, WriteBuf};
use crate::error::{ReadError, WriteError};
use crate::ext::{slice_to_array, vec_to_array};
use crate::traits::{is_suffix, lemma_write_fail_first, lemma_write_then, write_outcome, PacketRead, PacketReadSeed, PacketSize, PacketWrite};

verus! {

/// The encodings of `items`, one after the other.
pub open spec fn concat_wires<T: PacketSize>(items: Seq<T>) -> Seq<u8>
    decreases items.len(),
{
    if items.len() == 0 {
        Seq::empty()
    } else {
        concat_wires(items.drop_last()) + items.last().wire()
    }
}

/// How `n` values of type `T` are read one after the other from the front of
/// `input`: the values and the number of bytes they take up, or the first
/// error.
pub open spec fn parse_many<T: PacketRead>(input: Seq<u8>, n: nat) -> Result<(Seq<T>, nat), ReadError>
    decreases n,
{
    if n == 0 {
        Ok((Seq::empty(), 0))
    } else {
        match parse_many::<T>(input, (n - 1) as nat) {
            Ok((vs, k)) => match T::parse(input.skip(k as int)) {
                Ok((v, m)) => Ok((vs.push(v), k + m)),
                Err(e) => Err(e),
            },
            Err(e) => Err(e),
        }
    }
}

pub proof fn lemma_concat_prefix<T: PacketSize>(items: Seq<T>, i: int)
    requires
        0 <= i <= items.len(),
    ensures
        concat_wires(items.take(i)).len() <= concat_wires(items).len(),
    decreases items.len(),
{
    if i < items.len() {
        assert(items.drop_last().take(i) =~= items.take(i));
        lemma_concat_prefix(items.drop_last(), i);
    } else {
        assert(items.take(i) =~= items);
    }
}

/// Writes every item of `items` in order.
pub fn write_slice<T: PacketWrite>(items: &[T], buffer: &mut WriteBuf) -> (r: Result<(), WriteError>)
    ensures
        write_outcome(*old(buffer), *final(buffer), concat_wires(items@), r),
{
    let mut i: usize = 0;
    proof {
        assert(items@.take(0) =~= Seq::<T>::empty());
        assert(buffer@ =~= old(buffer)@ + concat_wires(items@.take(0)));
    }
    while i < items.len()
        invariant
            i <= items@.len(),
            write_outcome(*old(buffer), *buffer, concat_wires(items@.take(i as int)), Ok(())),
        decreases items@.len() - i,
    {
        let ghost b1 = *buffer;
        let r = items[i].write(buffer);
        proof {
            assert(items@.take(i + 1).drop_last() =~= items@.take(i as int));
        }
        match r {
            Ok(()) => {
                proof {
                    lemma_write_then(*old(buffer), b1, *buffer, concat_wires(items@.take(i as int)), items@[i as int].wire(), r);
                }
            },
            Err(e) => {
                proof {
                    lemma_write_then(*old(buffer), b1, *buffer, concat_wires(items@.take(i as int)), items@[i as int].wire(), r);
                    lemma_write_fail_first(*old(buffer), *buffer, concat_wires(items@.take(i + 1)), concat_wires(items@).subrange(concat_wires(items@.take(i + 1)).len() as int, concat_wires(items@).len() as int), r);
                    lemma_concat_split(items@, i + 1);
                }
                return Err(e);
            },
        }
        i = i + 1;
    }
    proof {
        assert(items@.take(i as int) =~= items@);
    }
    Ok(())
}

proof fn lemma_concat_split<T: PacketSize>(items: Seq<T>, i: int)
    requires
        0 <= i <= items.len(),
    ensures
        concat_wires(items) =~= concat_wires(items.take(i)) + concat_wires(items).subrange(
            concat_wires(items.take(i)).len() as int,
            concat_wires(items).len() as int,
        ),
        concat_wires(items.take(i)) =~= concat_wires(items).take(concat_wires(items.take(i)).len() as int),
    decreases items.len(),
{
    if i < items.len() {
        assert(items.drop_last().take(i) =~= items.take(i));
        lemma_concat_split(items.drop_last(), i);
        lemma_concat_prefix(items.drop_last(), i);
    } else {
        assert(items.take(i) =~= items);
    }
}

/// The total number of bytes `items` take up when written.
pub fn slice_size<T: PacketSize>(items: &[T]) -> (n: usize)
    requires
        concat_wires(items@).len() <= usize::MAX,
    ensures
        n == concat_wires(items@).len(),
{
    let mut total: usize = 0;
    let mut i: usize = 0;
    while i < items.len()
        invariant
            i <= items@.len(),
            concat_wires(items@).len() <= usize::MAX,
            total == concat_wires(items@.take(i as int)).len(),
        decreases items@.len() - i,
    {
        proof {
            assert(items@.take(i + 1).drop_last() =~= items@.take(i as int));
            lemma_concat_prefix(items@, i + 1);
        }
        total = total + items[i].size();
        i = i + 1;
    }
    proof {
        assert(items@.take(i as int) =~= items@);
    }
    total
}

/// The total number of bytes `items` take up when written, each taking at
/// most `bound` bytes; `None` when the total exceeds what a `usize` counts.
pub fn checked_slice_size<T: PacketSize>(items: &[T], bound: usize) -> (r: Option<usize>)
    requires
        forall|i: int| 0 <= i < items@.len() ==> #[trigger] items@[i].wire().len() <= bound,
    ensures
        match r {
            Some(n) => n == concat_wires(items@).len(),
            None => concat_wires(items@).len() > usize::MAX,
        },
{
    let mut total: usize = 0;
    let mut i: usize = 0;
    while i < items.len()
        invariant
            i <= items@.len(),
            forall|j: int| 0 <= j < items@.len() ==> #[trigger] items@[j].wire().len() <= bound,
            total == concat_wires(items@.take(i as int)).len(),
        decreases items@.len() - i,
    {
        proof {
            assert(items@.take(i + 1).drop_last() =~= items@.take(i as int));
            assert(items@[i as int].wire().len() <= bound);
        }
        let n = items[i].size();
        match total.checked_add(n) {
            Some(t) => total = t,
            None => {
                proof {
                    lemma_concat_prefix(items@, i + 1);
                }
                return None;
            },
        }
        i = i + 1;
    }
    proof {
        assert(items@.take(i as int) =~= items@);
    }
    Some(total)
}

/// Reads `len` values of type `T` one after the other.
pub fn iter_read<T: PacketRead>(len: usize, buffer: &mut ReadBuf) -> (r: Result<Vec<T>, ReadError>)
    ensures
        match parse_many::<T>(old(buffer)@, len as nat) {
            Ok((vs, k)) => r is Ok && r->Ok_0@ == vs && k <= old(buffer)@.len()
                && final(buffer)@ == old(buffer)@.skip(k as int),
            Err(e) => r == Err::<Vec<T>, ReadError>(e) && is_suffix(final(buffer)@, old(buffer)@),
        },
{
    let ghost input = buffer@;
    let mut items: Vec<T> = Vec::new();
    let mut i: usize = 0;
    let ghost mut k: nat = 0;
    proof {
        assert(input.skip(0) =~= input);
    }
    while i < len
        invariant
            i <= len,
            input == old(buffer)@,
            parse_many::<T>(input, i as nat) == Ok::<(Seq<T>, nat), ReadError>((items@, k)),
            k <= input.len(),
            buffer@ == input.skip(k as int),
        decreases len - i,
    {
        match T::read(buffer) {
            Ok(v) => {
                proof {
                    let m = (input.skip(k as int).len() - buffer@.len()) as nat;
                    k = k + m;
                    assert(buffer@ =~= input.skip(k as int));
                }
                items.push(v);
                i = i + 1;
            },
            Err(e) => {
                proof {
                    lemma_parse_many_err::<T>(input, i as nat, len as nat);
                    assert(is_suffix(buffer@, input));
                }
                return Err(e);
            },
        }
    }
    Ok(items)
}

proof fn lemma_parse_many_err<T: PacketRead>(input: Seq<u8>, i: nat, n: nat)
    requires
        i < n,
        parse_many::<T>(input, (i + 1) as nat) is Err,
    ensures
        parse_many::<T>(input, n) == parse_many::<T>(input, (i + 1) as nat),
    decreases n,
{
    if n > i + 1 {
        lemma_parse_many_err::<T>(input, i, (n - 1) as nat);
    }
}

/// Reads `N` values of type `T` one after the other into an array.
pub fn array_read<T: PacketRead, const N: usize>(buffer: &mut ReadBuf) -> (r: Result<[T; N], ReadError>)
    ensures
        match parse_many::<T>(old(buffer)@, N as nat) {
            Ok((vs, k)) => r is Ok && r->Ok_0@ == vs && final(buffer)@ == old(buffer)@.skip(k as int),
            Err(e) => r == Err::<[T; N], ReadError>(e) && is_suffix(final(buffer)@, old(buffer)@),
        },
{
    let items = iter_read::<T>(N, buffer)?;
    proof {
        lemma_parse_many_len::<T>(old(buffer)@, N as nat);
    }
    Ok(vec_to_array::<T, N>(items))
}

proof fn lemma_parse_many_len<T: PacketRead>(input: Seq<u8>, n: nat)
    ensures
        parse_many::<T>(input, n) matches Ok((vs, _)) ==> vs.len() == n,
    decreases n,
{
    if n > 0 {
        lemma_parse_many_len::<T>(input, (n - 1) as nat);
    }
}

/// Reads `N` bytes into an array.
pub fn bytearray_read<const N: usize>(buffer: &mut ReadBuf) -> (r: Result<[u8; N], ReadError>)
    ensures
        old(buffer)@.len() < N ==> r == Err::<[u8; N], ReadError>(ReadError::NoMoreBytes) && final(buffer)@ == old(buffer)@,
        old(buffer)@.len() >= N ==> r is Ok && r->Ok_0@ == old(buffer)@.take(N as int)
            && final(buffer)@ == old(buffer)@.skip(N as int),
{
    if buffer.remaining() < N {
        return Err(ReadError::NoMoreBytes);
    }
    let bytes: Bytes = PacketReadSeed::<Bytes>::read(N, buffer)?;
    Ok(slice_to_array::<N>(&bytes))
}

/// Reading back items written one after the other gives the same items and
/// takes up exactly their bytes, whatever follows them, for any type whose
/// values read back as they are written.
pub proof fn law_many_roundtrip<T: PacketRead + PacketSize>(items: Seq<T>, rest: Seq<u8>)
    requires
        forall|x: T, r: Seq<u8>|
            #[trigger] T::parse(x.wire() + r) == Ok::<(T, nat), ReadError>((x, x.wire().len())),
    ensures
        parse_many::<T>(concat_wires(items) + rest, items.len()) == Ok::<(Seq<T>, nat), ReadError>(
            (items, concat_wires(items).len()),
        ),
    decreases items.len(),
{
    if items.len() > 0 {
        let init = items.drop_last();
        let last = items.last();
        let input = concat_wires(items) + rest;
        law_many_roundtrip::<T>(init, last.wire() + rest);
        assert(input =~= concat_wires(init) + (last.wire() + rest));
        let k = concat_wires(init).len();
        assert(input.skip(k as int) =~= last.wire() + rest);
        assert(T::parse(last.wire() + rest) == Ok::<(T, nat), ReadError>((last, last.wire().len())));
        assert(init.push(last) =~= items);
    } else {
        assert(items =~= Seq::<T>::empty());
    }
}

} // verus!
