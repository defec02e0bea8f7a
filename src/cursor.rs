//! A forward-only byte source shared by nested decoders.
use vstd::prelude::*;

verus! {

/// A position over an owned byte buffer; bytes are pulled one at a time.
pub struct ByteCursor {
    bytes: Vec<u8>,
    pos: usize,
}

/// `after` is what is left of `before` once some prefix of it has been consumed.
pub open spec fn consumed_from(before: Seq<u8>, after: Seq<u8>) -> bool {
    &&& after.len() <= before.len()
    &&& after == before.skip(before.len() - after.len())
}

impl View for ByteCursor {
    type V = Seq<u8>;

    /// The bytes that have not been pulled yet.
    closed spec fn view(&self) -> Seq<u8> {
        if self.pos <= self.bytes.len() {
            self.bytes@.skip(self.pos as int)
        } else {
            Seq::empty()
        }
    }
}

impl ByteCursor {
    /// A cursor positioned before the first of `bytes`.
    pub fn new(bytes: Vec<u8>) -> (r: ByteCursor)
        ensures
            r@ == bytes@,
    {
        let r = ByteCursor { bytes, pos: 0 };
        assert(r@ =~= r.bytes@);
        r
    }

    /// The number of bytes not pulled yet.
    pub fn remaining(&self) -> (r: usize)
        ensures
            r == self@.len(),
    {
        if self.pos <= self.bytes.len() {
            self.bytes.len() - self.pos
        } else {
            0
        }
    }

    /// Pulls the next byte, or `None` once the bytes are exhausted.
    pub fn next(&mut self) -> (r: Option<u8>)
        ensures
            old(self)@.len() == 0 ==> r is None && final(self)@ == old(self)@,
            old(self)@.len() > 0 ==> r == Some(old(self)@[0]) && final(self)@ == old(
                self,
            )@.skip(1),
    {
        if self.pos < self.bytes.len() {
            let b = self.bytes[self.pos];
            self.pos = self.pos + 1;
            assert(self@ =~= old(self)@.skip(1));
            Some(b)
        } else {
            None
        }
    }

    /// Pulls the next `n` bytes, or fails when fewer are left.
    pub fn next_bytes(&mut self, n: usize) -> (r: Option<Vec<u8>>)
        ensures
            n <= old(self)@.len() ==> (r matches Some(v) && v@ == old(self)@.take(n as int))
                && final(self)@ == old(self)@.skip(n as int),
            n > old(self)@.len() ==> r is None,
            consumed_from(old(self)@, final(self)@),
    {
        let mut out: Vec<u8> = Vec::new();
        let mut i: usize = 0;
        while i < n
            invariant
                i <= n,
                i <= old(self)@.len(),
                out@ == old(self)@.take(i as int),
                self@ == old(self)@.skip(i as int),
            decreases n - i,
        {
            match self.next() {
                Some(b) => {
                    proof {
                        assert(old(self)@.take(i + 1) =~= out@.push(b));
                        assert(self@ =~= old(self)@.skip(i + 1));
                    }
                    out.push(b);
                    i = i + 1;
                },
                None => {
                    proof {
                        assert(self@ =~= old(self)@.skip(old(self)@.len() - self@.len()));
                    }
                    return None;
                },
            }
        }
        Some(out)
    }
}

} // verus!
