//! The byte source: a sequentially advancing cursor over an in-memory
//! byte stream, the explicit model of the file position.

use vstd::prelude::*;
use crate::error::{Error, ErrorKind};

verus! {

pub struct ByteSource {
    pub data: Vec<u8>,
    pub pos: usize,
}

impl ByteSource {
    pub open spec fn wf(self) -> bool {
        self.pos <= self.data@.len()
    }

    /// Bytes not yet consumed.
    pub open spec fn remaining(self) -> int {
        self.data@.len() - self.pos
    }

    pub fn new(data: Vec<u8>) -> (r: ByteSource)
        ensures
            r.wf(),
            r.data@ == data@,
            r.pos == 0,
    {
        ByteSource { data, pos: 0 }
    }

    /// Reads exactly `n` bytes, advancing the position; fails without
    /// advancing if fewer than `n` bytes remain.
    pub fn read_exact(&mut self, n: usize) -> (r: Result<Vec<u8>, Error>)
        requires
            old(self).wf(),
        ensures
            final(self).wf(),
            final(self).data@ == old(self).data@,
            match r {
                Ok(buf) => old(self).remaining() >= n && buf@ == old(self).data@.subrange(
                    old(self).pos as int,
                    old(self).pos + n,
                ) && final(self).pos == old(self).pos + n,
                Err(e) => old(self).remaining() < n && final(self).pos == old(self).pos && e.kind
                    == ErrorKind::Io,
            },
    {
        if self.data.len() - self.pos < n {
            return Err(Error::new(ErrorKind::Io));
        }
        let mut buf: Vec<u8> = Vec::new();
        let mut i: usize = 0;
        while i < n
            invariant
                i <= n,
                self.pos == old(self).pos,
                self.data@ == old(self).data@,
                self.pos + n <= self.data@.len(),
                buf@.len() == i,
                forall|k: int| 0 <= k < i ==> buf@[k] == self.data@[self.pos + k],
            decreases n - i,
        {
            let dlen: usize = self.data.len();
            proof {
                assert(self.pos + i < dlen);
            }
            let b = self.data[self.pos + i];
            buf.push(b);
            i = i + 1;
        }
        proof {
            assert(buf@ =~= self.data@.subrange(self.pos as int, self.pos + n));
        }
        self.pos = self.pos + n;
        Ok(buf)
    }
}

} // verus!
