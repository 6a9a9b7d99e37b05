use vstd::prelude::*;

verus! {

/// A read cursor over an in-memory byte buffer: the buffer together with the
/// position of the next unread byte.
pub struct Cursor {
    pub data: Vec<u8>,
    pub pos: usize,
}

impl Cursor {
    /// The bytes that have not been consumed yet.
    pub open spec fn rem(self) -> Seq<u8> {
        self.data@.skip(self.pos as int)
    }

    /// The position never runs past the end of the buffer.
    pub open spec fn wf(self) -> bool {
        self.pos <= self.data@.len()
    }

    /// A cursor standing at the start of `data`.
    pub fn new(data: Vec<u8>) -> (r: Cursor)
        ensures
            r.wf(),
            r.pos == 0,
            r.data@ == data@,
            r.rem() == data@,
    {
        let c = Cursor { data, pos: 0 };
        proof {
            assert(c.rem() =~= c.data@);
        }
        c
    }

    /// Number of bytes left to read.
    pub fn remaining(&self) -> (r: usize)
        requires
            self.wf(),
        ensures
            r == self.rem().len(),
    {
        self.data.len() - self.pos
    }

    /// The next byte, without consuming it.
    pub fn peek(&self) -> (r: Option<u8>)
        requires
            self.wf(),
        ensures
            match r {
                Some(b) => self.rem().len() > 0 && b == self.rem()[0],
                None => self.rem().len() == 0,
            },
    {
        if self.pos < self.data.len() {
            Some(self.data[self.pos])
        } else {
            None
        }
    }

    /// Read and consume the next byte.
    pub fn read_u8(&mut self) -> (r: Option<u8>)
        requires
            old(self).wf(),
        ensures
            final(self).wf(),
            final(self).data@ == old(self).data@,
            match r {
                Some(b) => {
                    &&& old(self).rem().len() > 0
                    &&& b == old(self).rem()[0]
                    &&& final(self).pos == old(self).pos + 1
                    &&& final(self).rem() == old(self).rem().skip(1)
                },
                None => old(self).rem().len() == 0 && final(self).pos == old(self).pos,
            },
    {
        if self.pos < self.data.len() {
            let b = self.data[self.pos];
            self.pos = self.pos + 1;
            proof {
                assert(self.rem() =~= old(self).rem().skip(1));
            }
            Some(b)
        } else {
            None
        }
    }

    /// Read and consume the next `n` bytes; `None` if fewer are left.
    pub fn read_bytes(&mut self, n: usize) -> (r: Option<Vec<u8>>)
        requires
            old(self).wf(),
        ensures
            final(self).wf(),
            final(self).data@ == old(self).data@,
            match r {
                Some(v) => {
                    &&& n <= old(self).rem().len()
                    &&& v@ == old(self).rem().take(n as int)
                    &&& final(self).pos == old(self).pos + n
                    &&& final(self).rem() == old(self).rem().skip(n as int)
                },
                None => old(self).rem().len() < n && final(self).pos == old(self).pos,
            },
    {
        let dlen = self.data.len();
        if dlen - self.pos < n {
            return None;
        }
        let mut v: Vec<u8> = Vec::new();
        let mut i: usize = 0;
        while i < n
            invariant
                i <= n,
                self.wf(),
                self.data@ == old(self).data@,
                self.pos == old(self).pos,
                n <= self.rem().len(),
                self.data@.len() == dlen,
                self.pos + n <= dlen,
                v@ =~= self.rem().take(i as int),
            decreases n - i,
        {
            let b = self.data[self.pos + i];
            proof {
                assert(self.rem()[i as int] == self.data@[self.pos + i]);
                assert(self.rem().take(i + 1) =~= self.rem().take(i as int).push(b));
            }
            v.push(b);
            i = i + 1;
        }
        self.pos = self.pos + n;
        proof {
            assert(self.rem() =~= old(self).rem().skip(n as int));
        }
        Some(v)
    }
}

} // verus!
