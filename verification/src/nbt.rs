//! Adapters that let an NBT encoder write into, and a decoder read from,
//! the protocol's buffers, and count the bytes an encoding takes.

use vstd::prelude::*;

use crate::buf::{ReadBuf, WriteBuf};

verus! {

/// Reads from a [`ReadBuf`], handing out as many bytes as asked for or as
/// are left.
pub struct Reader {
    buf: ReadBuf,
}

impl View for Reader {
    type V = Seq<u8>;

    closed spec fn view(&self) -> Seq<u8> {
        self.buf@
    }
}

impl Reader {
    /// A reader of the unread bytes of `buf`.
    pub fn new(buf: ReadBuf) -> (r: Self)
        ensures
            r@ == buf@,
    {
        Reader { buf }
    }

    /// Copies the next bytes into the front of `dst`, as many as fit or are
    /// left, and returns how many.
    pub fn read(&mut self, dst: &mut [u8]) -> (n: usize)
        ensures
            n == if old(self)@.len() < old(dst)@.len() {
                old(self)@.len()
            } else {
                old(dst)@.len() as nat
            },
            final(dst)@ == old(self)@.take(n as int) + old(dst)@.skip(n as int),
            final(self)@ == old(self)@.skip(n as int),
    {
        let remaining = self.buf.remaining();
        let n = if remaining < dst.len() {
            remaining
        } else {
            dst.len()
        };
        let bytes = self.buf.take_bytes(n);
        let mut i: usize = 0;
        while i < n
            invariant
                i <= n,
                n <= dst@.len(),
                bytes@.len() == n,
                dst@.len() == old(dst)@.len(),
                forall|k: int| 0 <= k < i ==> #[trigger] dst@[k] == bytes@[k],
                forall|k: int| i <= k < dst@.len() ==> #[trigger] dst@[k] == old(dst)@[k],
            decreases n - i,
        {
            dst[i] = bytes[i];
            i = i + 1;
        }
        proof {
            assert(dst@ =~= old(self)@.take(n as int) + old(dst)@.skip(n as int));
        }
        n
    }

    /// The buffer, with what was not read.
    pub fn into_inner(self) -> (r: ReadBuf)
        ensures
            r@ == self@,
    {
        self.buf
    }
}

/// Writes into a [`WriteBuf`], taking as many bytes as fit.
pub struct Writer {
    buf: WriteBuf,
}

impl View for Writer {
    type V = Seq<u8>;

    closed spec fn view(&self) -> Seq<u8> {
        self.buf@
    }
}

impl Writer {
    /// A writer appending to `buf`.
    pub fn new(buf: WriteBuf) -> (r: Self)
        ensures
            r@ == buf@,
            r.room() == buf.spec_remaining(),
    {
        Writer { buf }
    }

    /// How many bytes still fit.
    pub closed spec fn room(&self) -> nat {
        self.buf.spec_remaining()
    }

    /// Appends the first bytes of `src`, as many as fit, and returns how
    /// many.
    pub fn write(&mut self, src: &[u8]) -> (n: usize)
        ensures
            n == if old(self).room() < src@.len() {
                old(self).room()
            } else {
                src@.len()
            },
            final(self)@ == old(self)@ + src@.take(n as int),
            final(self).room() == old(self).room() - n,
    {
        let room = self.buf.remaining_mut();
        let n = if room < src.len() {
            room
        } else {
            src.len()
        };
        self.buf.put_slice(vstd::slice::slice_subrange(src, 0, n));
        n
    }

    /// The buffer, with what was written.
    pub fn into_inner(self) -> (r: WriteBuf)
        ensures
            r@ == self@,
    {
        self.buf
    }
}

/// Counts the bytes written to it, and keeps none.
#[derive(Debug, Clone, Copy, PartialEq, Eq, Hash, Default)]
pub struct Counter {
    count: usize,
}

impl View for Counter {
    type V = nat;

    closed spec fn view(&self) -> nat {
        self.count as nat
    }
}

impl Counter {
    /// A counter at zero.
    pub fn new() -> (r: Self)
        ensures
            r@ == 0,
    {
        Counter { count: 0 }
    }

    /// The number of bytes counted.
    pub fn count(&self) -> (n: usize)
        ensures
            n == self@,
    {
        self.count
    }

    /// Counts the bytes of `buf`, all of which it takes.
    pub fn write(&mut self, buf: &[u8]) -> (n: usize)
        requires
            old(self)@ + buf@.len() <= usize::MAX,
        ensures
            n == buf@.len(),
            final(self)@ == old(self)@ + n,
    {
        let written = buf.len();
        self.count = self.count + written;
        written
    }
}

} // verus!
