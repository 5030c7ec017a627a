//! An in-memory byte source with an exact "read this many octets or fail"
//! contract, used by the TZif decoder.

use crate::tzif::Error;
use vstd::prelude::*;

verus! {

/// A forward-only reader over an owned byte buffer.
pub struct ByteStream {
    data: Vec<u8>,
    pos: usize,
}

impl ByteStream {
    #[verifier::type_invariant]
    spec fn wf(self) -> bool {
        self.pos <= self.data.len()
    }

    /// The bytes that have not been consumed yet.
    pub closed spec fn remaining(self) -> Seq<u8> {
        self.data@.skip(self.pos as int)
    }

    /// Wraps an owned buffer in a new stream positioned at its start.
    pub fn new(data: Vec<u8>) -> (s: ByteStream)
        ensures
            s.remaining() == data@,
    {
        let s = ByteStream { data, pos: 0 };
        proof {
            assert(s.remaining() =~= s.data@);
        }
        s
    }

    /// How many bytes are left to read.
    pub fn remaining_len(&self) -> (n: usize)
        ensures
            n == self.remaining().len(),
    {
        proof {
            use_type_invariant(self);
        }
        self.data.len() - self.pos
    }

    /// Reads exactly `n` bytes, or fails with `Error::Io` leaving the stream
    /// untouched when fewer than `n` bytes are left.
    pub fn read_exact(&mut self, n: usize) -> (r: Result<Vec<u8>, Error>)
        ensures
            match r {
                Ok(v) => {
                    &&& n <= old(self).remaining().len()
                    &&& v@ == old(self).remaining().take(n as int)
                    &&& final(self).remaining() == old(self).remaining().skip(n as int)
                },
                Err(e) => {
                    &&& e == Error::Io
                    &&& old(self).remaining().len() < n
                    &&& final(self).remaining() == old(self).remaining()
                },
            },
    {
        proof {
            use_type_invariant(&*self);
        }
        if n > self.data.len() - self.pos {
            return Err(Error::Io);
        }
        let mut out: Vec<u8> = Vec::new();
        let mut i: usize = 0;
        while i < n
            invariant
                i <= n,
                self.pos + n <= self.data.len(),
                out@ == self.data@.subrange(self.pos as int, self.pos + i),
            decreases n - i,
        {
            out.push(self.data[self.pos + i]);
            proof {
                assert(out@ =~= self.data@.subrange(self.pos as int, self.pos + i + 1));
            }
            i = i + 1;
        }
        let ghost old_pos = self.pos as int;
        self.pos = self.pos + n;
        proof {
            assert(out@ =~= self.data@.skip(old_pos).take(n as int));
            assert(self.data@.skip(self.pos as int) =~= self.data@.skip(old_pos).skip(n as int));
        }
        Ok(out)
    }
}

} // verus!
