use vstd::prelude::*;
use vstd::string::StringSliceAdditionalSpecFns;

use crate::buf::WriteBuf;
use crate::error::WriteError;
use crate::traits::{lemma_write_fail_first, lemma_write_then, write_outcome, PacketSize, PacketWrite};
use crate::varint::{bits32, varint_wire, VarI32};

verus! {

/// The protocol encoding of a string whose UTF-8 bytes are `bytes`: its byte
/// length as a [`VarI32`], then the bytes.
pub open spec fn str_wire(bytes: Seq<u8>) -> Seq<u8> {
    varint_wire(bits32(bytes.len() as i32)) + bytes
}

/// Appends the bytes of `src` to `dst`.
pub fn extend_bytes(dst: &mut Vec<u8>, src: &[u8])
    ensures
        final(dst)@ == old(dst)@ + src@,
{
    let ghost start = dst@;
    let mut i: usize = 0;
    while i < src.len()
        invariant
            0 <= i <= src@.len(),
            dst@ == start + src@.take(i as int),
            start == old(dst)@,
        decreases src@.len() - i,
    {
        dst.push(src[i]);
        i = i + 1;
        proof {
            assert(dst@ =~= start + src@.take(i as int));
        }
    }
    proof {
        assert(src@.take(src@.len() as int) =~= src@);
    }
}

/// Removes the first `k` bytes of `v`.
pub fn drop_front(v: &mut Vec<u8>, k: usize)
    requires
        k <= old(v)@.len(),
    ensures
        final(v)@ == old(v)@.skip(k as int),
{
    let tail = v.split_off(k);
    *v = tail;
    proof {
        assert(v@ =~= old(v)@.skip(k as int));
    }
}

/// Appends `bytes` as they are, or nothing when they do not all fit.
pub fn write_bytes(buffer: &mut WriteBuf, bytes: &[u8]) -> (r: Result<(), WriteError>)
    ensures
        write_outcome(*old(buffer), *final(buffer), bytes@, r),
        r is Err ==> final(buffer)@ == old(buffer)@,
{
    if buffer.remaining_mut() < bytes.len() {
        return Err(WriteError::EndOfBuffer);
    }
    buffer.put_slice(bytes);
    Ok(())
}

/// Writes a string as its byte length followed by its UTF-8 bytes, after
/// checking that it has at most `max` characters.
pub fn write_str(buffer: &mut WriteBuf, max: usize, str: &str) -> (r: Result<(), WriteError>)
    ensures
        str@.len() > max ==> r == Err::<(), WriteError>(WriteError::StringTooLong(max, str@.len() as usize))
            && final(buffer)@ == old(buffer)@ && final(buffer).limit() == old(buffer).limit()
            && final(buffer).spec_remaining() == old(buffer).spec_remaining(),
        str@.len() <= max ==> write_outcome(*old(buffer), *final(buffer), str_wire(str.spec_bytes()), r),
{
    let count = str.unicode_len();
    if count > max {
        Err(WriteError::StringTooLong(max, count))
    } else {
        write_str_unchecked(buffer, str)
    }
}

/// Writes a string as its byte length followed by its UTF-8 bytes, without
/// checking its length against any maximum.
pub fn write_str_unchecked(buffer: &mut WriteBuf, str: &str) -> (r: Result<(), WriteError>)
    ensures
        write_outcome(*old(buffer), *final(buffer), str_wire(str.spec_bytes()), r),
{
    write_prefixed_bytes(buffer, str.as_bytes())
}

/// Writes the number of `bytes` as a [`VarI32`], then the bytes.
pub fn write_prefixed_bytes(buffer: &mut WriteBuf, bytes: &[u8]) -> (r: Result<(), WriteError>)
    ensures
        write_outcome(*old(buffer), *final(buffer), str_wire(bytes@), r),
{
    let len = VarI32::from(bytes.len());
    let ghost b0 = *buffer;
    let r1 = len.write(buffer);
    let ghost b1 = *buffer;
    match r1 {
        Ok(()) => {
            let r2 = write_bytes(buffer, bytes);
            proof {
                lemma_write_then(b0, b1, *buffer, len.wire(), bytes@, r2);
            }
            r2
        },
        Err(e) => {
            proof {
                lemma_write_fail_first(b0, b1, len.wire(), bytes@, r1);
            }
            Err(e)
        },
    }
}

impl PacketSize for str {
    open spec fn wire(&self) -> Seq<u8> {
        str_wire(self.spec_bytes())
    }

    fn size(&self) -> (n: usize) {
        let len = self.as_bytes().len();
        VarI32::from(len).size() + len
    }
}

} // verus!
