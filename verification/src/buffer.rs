//! A fixed-size byte sink that counts what was written into it.

use vstd::prelude::*;

use crate::error::{Error, EINVAL};

verus! {

/// A byte buffer of fixed capacity, filled front to back.
pub struct Buffer {
    data: Vec<u8>,
    pos: usize,
}

impl Buffer {
    /// The bytes held, written and unwritten alike.
    pub closed spec fn view(self) -> Seq<u8> {
        self.data@
    }

    /// How many bytes have been written.
    pub closed spec fn spec_pos(self) -> int {
        self.pos as int
    }

    /// The write position never passes the capacity.
    pub open spec fn wf(self) -> bool {
        0 <= self.spec_pos() <= self@.len()
    }

    /// A zeroed buffer of the given capacity.
    pub fn new(size: usize) -> (r: Buffer)
        ensures
            r.wf(),
            r@.len() == size,
            r.spec_pos() == 0,
            forall|j: int| 0 <= j < size ==> r@[j] == 0u8,
    {
        let mut data: Vec<u8> = Vec::new();
        let mut i: usize = 0;
        while i < size
            invariant
                0 <= i <= size,
                data@.len() == i,
                forall|j: int| 0 <= j < i ==> data@[j] == 0u8,
            decreases size - i,
        {
            data.push(0);
            i = i + 1;
        }
        Buffer { data, pos: 0 }
    }

    /// How many bytes have been written.
    pub fn bytes_written(&self) -> (r: usize)
        ensures
            r == self.spec_pos(),
    {
        self.pos
    }

    /// Appends `s` at the write position.  Fails, changing nothing, exactly
    /// when `s` does not fit into what is left of the buffer.
    pub fn write_str(&mut self, s: &[u8]) -> (r: Result<(), Error>)
        requires
            old(self).wf(),
        ensures
            final(self).wf(),
            r is Ok <==> s@.len() <= old(self)@.len() - old(self).spec_pos(),
            r is Err ==> *final(self) == *old(self),
            r is Ok ==> {
                &&& final(self)@.len() == old(self)@.len()
                &&& final(self).spec_pos() == old(self).spec_pos() + s@.len()
                &&& (forall|j: int|
                    0 <= j < old(self).spec_pos() ==> final(self)@[j] == old(self)@[j])
                &&& (forall|j: int|
                    0 <= j < s@.len() ==> final(self)@[old(self).spec_pos() + j] == s@[j])
                &&& (forall|j: int|
                    old(self).spec_pos() + s@.len() <= j < old(self)@.len() ==> final(self)@[j]
                        == old(self)@[j])
            },
    {
        if s.len() > self.data.len() - self.pos {
            return Err(Error::from_errno_positive(EINVAL));
        }
        let ghost p = self.pos as int;
        let mut i: usize = 0;
        while i < s.len()
            invariant
                0 <= i <= s@.len(),
                p + s@.len() <= self.data@.len(),
                self.data@.len() <= usize::MAX,
                self.pos as int == p,
                self.data@.len() == old(self)@.len(),
                forall|j: int| 0 <= j < p ==> self.data@[j] == old(self)@[j],
                forall|j: int| 0 <= j < i ==> self.data@[p + j] == s@[j],
                forall|j: int| p + i <= j < self.data@.len() ==> self.data@[j] == old(self)@[j],
            decreases s@.len() - i,
        {
            self.data[self.pos + i] = s[i];
            i = i + 1;
        }
        self.pos = self.pos + s.len();
        Ok(())
    }
}

} // verus!
