use vstd::prelude::*;

verus! {

/// A byte buffer that values are read from, front to back.
///
/// Its view is the sequence of bytes that have not been read yet.
pub struct ReadBuf {
    data: Vec<u8>,
    pos: usize,
}

impl View for ReadBuf {
    type V = Seq<u8>;

    closed spec fn view(&self) -> Seq<u8> {
        self.data@.skip(self.pos as int)
    }
}

impl ReadBuf {
    #[verifier::type_invariant]
    closed spec fn inv(&self) -> bool {
        self.pos <= self.data.len()
    }

    /// A buffer holding the given bytes.
    pub fn new(data: Vec<u8>) -> (r: ReadBuf)
        ensures
            r@ == data@,
    {
        ReadBuf { data, pos: 0 }
    }

    /// A buffer holding a copy of the given bytes.
    pub fn from_slice(data: &[u8]) -> (r: ReadBuf)
        ensures
            r@ == data@,
    {
        let mut v: Vec<u8> = Vec::new();
        v.extend_from_slice(data);
        proof {
            assert(v@ =~= data@);
        }
        ReadBuf { data: v, pos: 0 }
    }

    /// Number of bytes left to read.
    pub fn remaining(&self) -> (n: usize)
        ensures
            n == self@.len(),
    {
        proof {
            use_type_invariant(self);
        }
        self.data.len() - self.pos
    }

    /// Whether any byte is left to read.
    pub fn has_remaining(&self) -> (b: bool)
        ensures
            b == (self@.len() > 0),
    {
        self.remaining() > 0
    }

    /// The bytes left to read.
    pub fn as_slice(&self) -> (s: &[u8])
        ensures
            s@ == self@,
    {
        proof {
            use_type_invariant(self);
        }
        let s = &self.data.as_slice()[self.pos..self.data.len()];
        proof {
            assert(s@ =~= self@);
        }
        s
    }

    /// Takes the next byte.
    pub fn get_u8(&mut self) -> (b: u8)
        requires
            old(self)@.len() > 0,
        ensures
            b == old(self)@[0],
            final(self)@ == old(self)@.skip(1),
    {
        proof {
            use_type_invariant(&*self);
        }
        let b = self.data[self.pos];
        self.pos = self.pos + 1;
        proof {
            assert(self@ =~= old(self)@.skip(1));
        }
        b
    }

    /// Takes the next `n` bytes.
    pub fn take_bytes(&mut self, n: usize) -> (v: Vec<u8>)
        requires
            n <= old(self)@.len(),
        ensures
            v@ == old(self)@.take(n as int),
            final(self)@ == old(self)@.skip(n as int),
    {
        proof {
            use_type_invariant(&*self);
        }
        let mut v: Vec<u8> = Vec::new();
        v.extend_from_slice(&self.data.as_slice()[self.pos..self.pos + n]);
        self.pos = self.pos + n;
        proof {
            assert(v@ =~= old(self)@.take(n as int));
            assert(self@ =~= old(self)@.skip(n as int));
        }
        v
    }

    /// Skips the next `n` bytes.
    pub fn advance(&mut self, n: usize)
        requires
            n <= old(self)@.len(),
        ensures
            final(self)@ == old(self)@.skip(n as int),
    {
        proof {
            use_type_invariant(&*self);
        }
        self.pos = self.pos + n;
        proof {
            assert(self@ =~= old(self)@.skip(n as int));
        }
    }
}

/// A growable byte buffer that values are written to, with a limit on how
/// many bytes it may hold in total.
///
/// Its view is the sequence of bytes written so far.
pub struct WriteBuf {
    data: Vec<u8>,
    limit: usize,
}

impl View for WriteBuf {
    type V = Seq<u8>;

    closed spec fn view(&self) -> Seq<u8> {
        self.data@
    }
}

impl WriteBuf {
    #[verifier::type_invariant]
    closed spec fn inv(&self) -> bool {
        self.data.len() <= self.limit
    }

    /// The total number of bytes this buffer may hold.
    pub closed spec fn limit(&self) -> nat {
        self.limit as nat
    }

    /// The number of bytes that may still be written.
    pub closed spec fn spec_remaining(&self) -> nat {
        if self.data.len() <= self.limit {
            (self.limit - self.data.len()) as nat
        } else {
            0
        }
    }

    /// No buffer holds or takes more bytes than a `usize` can count.
    pub proof fn lemma_limit_bound(b: WriteBuf)
        ensures
            b.spec_remaining() <= b.limit() <= usize::MAX,
    {
    }

    /// An empty buffer without a practical limit.
    pub fn new() -> (r: WriteBuf)
        ensures
            r@ == Seq::<u8>::empty(),
            r.limit() == usize::MAX,
            r.spec_remaining() == usize::MAX,
    {
        WriteBuf { data: Vec::new(), limit: usize::MAX }
    }

    /// An empty buffer that holds at most `limit` bytes.
    pub fn with_limit(limit: usize) -> (r: WriteBuf)
        ensures
            r@ == Seq::<u8>::empty(),
            r.limit() == limit,
            r.spec_remaining() == limit,
    {
        WriteBuf { data: Vec::new(), limit }
    }

    /// Number of bytes that may still be written.
    pub fn remaining_mut(&self) -> (n: usize)
        ensures
            n == self.spec_remaining(),
    {
        proof {
            use_type_invariant(self);
        }
        self.limit - self.data.len()
    }

    /// Whether at least one more byte may be written.
    pub fn has_remaining_mut(&self) -> (b: bool)
        ensures
            b == (self.spec_remaining() > 0),
    {
        self.remaining_mut() > 0
    }

    /// Number of bytes written so far.
    pub fn len(&self) -> (n: usize)
        ensures
            n == self@.len(),
    {
        self.data.len()
    }

    /// The bytes written so far.
    pub fn as_slice(&self) -> (s: &[u8])
        ensures
            s@ == self@,
    {
        self.data.as_slice()
    }

    /// Consumes the buffer, giving back the bytes written.
    pub fn into_vec(self) -> (v: Vec<u8>)
        ensures
            v@ == self@,
    {
        self.data
    }

    /// Forgets every byte written so far; the limit stays.
    pub fn clear(&mut self)
        ensures
            final(self)@ == Seq::<u8>::empty(),
            final(self).limit() == old(self).limit(),
            final(self).spec_remaining() == old(self).limit(),
    {
        self.data = Vec::new();
    }

    /// Appends one byte.
    pub fn put_u8(&mut self, b: u8)
        requires
            old(self).spec_remaining() >= 1,
        ensures
            final(self)@ == old(self)@.push(b),
            final(self).limit() == old(self).limit(),
            final(self).spec_remaining() == old(self).spec_remaining() - 1,
    {
        proof {
            use_type_invariant(&*self);
        }
        let mut d: Vec<u8> = Vec::new();
        std::mem::swap(&mut d, &mut self.data);
        d.push(b);
        self.data = d;
    }

    /// Appends the given bytes.
    pub fn put_slice(&mut self, s: &[u8])
        requires
            old(self).spec_remaining() >= s@.len(),
        ensures
            final(self)@ == old(self)@ + s@,
            final(self).limit() == old(self).limit(),
            final(self).spec_remaining() == old(self).spec_remaining() - s@.len(),
    {
        proof {
            use_type_invariant(&*self);
        }
        let mut d: Vec<u8> = Vec::new();
        std::mem::swap(&mut d, &mut self.data);
        let ghost old_data = d@;
        let mut i: usize = 0;
        while i < s.len()
            invariant
                0 <= i <= s@.len(),
                d@ == old_data + s@.take(i as int),
            decreases s@.len() - i,
        {
            d.push(s[i]);
            i = i + 1;
            proof {
                assert(d@ =~= old_data + s@.take(i as int));
            }
        }
        proof {
            assert(s@.take(s@.len() as int) =~= s@);
        }
        self.data = d;
    }
}

} // verus!
