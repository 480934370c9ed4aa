//! User-memory slices.
//!
//! A [`UserSlicePtr`] stands for a delimited range of userspace memory, held
//! here as owned bytes: the model of what the kernel would reach through a
//! checked raw pointer.  A given byte may be read only once: readers move
//! only forward, and a slice hands out at most one reader, so double
//! fetches, and with them time-of-check-to-time-of-use surprises, cannot
//! happen.  The model cannot fault on unmapped memory, so the only failures
//! left are the out-of-bounds ones.

use vstd::prelude::*;

use crate::error::{Error, EFAULT};

verus! {

/// A delimited range of userspace memory, readable or writable.
pub struct UserSlicePtr {
    data: Vec<u8>,
}

impl UserSlicePtr {
    /// The bytes of the range.
    pub closed spec fn view(self) -> Seq<u8> {
        self.data@
    }

    /// Captures a range of user memory, given as the bytes it holds.
    pub fn new(data: Vec<u8>) -> (r: UserSlicePtr)
        ensures
            r@ == data@,
    {
        UserSlicePtr { data }
    }

    /// Reads the entirety of the user slice.
    pub fn read_all(self) -> (r: Result<Vec<u8>, Error>)
        ensures
            r matches Ok(v) && v@ == self@,
    {
        let mut reader = self.reader();
        reader.read_all()
    }

    /// Constructs a [`UserSlicePtrReader`] over the whole range.
    pub fn reader(self) -> (r: UserSlicePtrReader)
        ensures
            r.wf(),
            r.spec_remaining() == self@,
    {
        UserSlicePtrReader { data: self.data, pos: 0 }
    }

    /// Writes the provided bytes at the start of the user slice and hands
    /// the range's resulting contents back.  Fails, writing nothing,
    /// exactly when `data` is larger than the slice.
    pub fn write_all(self, data: &[u8]) -> (r: Result<Vec<u8>, Error>)
        ensures
            r is Ok <==> data@.len() <= self@.len(),
            r matches Ok(v) ==> v@ == data@ + self@.skip(data@.len() as int),
    {
        let mut writer = self.writer();
        match writer.write(data) {
            Ok(()) => {
                proof {
                    assert(writer.data@ =~= data@ + self@.skip(data@.len() as int));
                }
                Ok(writer.data)
            },
            Err(e) => Err(e),
        }
    }

    /// Constructs a [`UserSlicePtrWriter`] over the whole range.
    pub fn writer(self) -> (r: UserSlicePtrWriter)
        ensures
            r.wf(),
            r@ == self@,
            r.spec_pos() == 0,
    {
        UserSlicePtrWriter { data: self.data, pos: 0 }
    }
}

/// A reader for [`UserSlicePtr`]: reads the range incrementally, forward
/// only.
pub struct UserSlicePtrReader {
    data: Vec<u8>,
    pos: usize,
}

impl UserSlicePtrReader {
    /// The bytes not yet read.
    pub closed spec fn spec_remaining(self) -> Seq<u8> {
        self.data@.skip(self.pos as int)
    }

    /// The read position never passes the range's end.
    pub closed spec fn wf(self) -> bool {
        self.pos <= self.data@.len()
    }

    /// Returns the number of bytes left to be read.
    pub fn len(&self) -> (r: usize)
        requires
            self.wf(),
        ensures
            r == self.spec_remaining().len(),
    {
        self.data.len() - self.pos
    }

    /// Returns `true` if `self.len()` is 0.
    pub fn is_empty(&self) -> (r: bool)
        requires
            self.wf(),
        ensures
            r == (self.spec_remaining().len() == 0),
    {
        self.len() == 0
    }

    /// Reads all data remaining in the user slice.
    pub fn read_all(&mut self) -> (r: Result<Vec<u8>, Error>)
        requires
            old(self).wf(),
        ensures
            final(self).wf(),
            r matches Ok(v) && v@ == old(self).spec_remaining(),
            final(self).spec_remaining().len() == 0,
    {
        let n = self.len();
        self.read(n)
    }

    /// Reads the next `n` bytes of the user slice.  Fails, reading nothing,
    /// exactly when fewer than `n` bytes remain.
    pub fn read(&mut self, n: usize) -> (r: Result<Vec<u8>, Error>)
        requires
            old(self).wf(),
        ensures
            final(self).wf(),
            r is Ok <==> n <= old(self).spec_remaining().len(),
            r is Err ==> *final(self) == *old(self),
            r matches Ok(v) ==> v@ == old(self).spec_remaining().take(n as int),
            r is Ok ==> final(self).spec_remaining() == old(self).spec_remaining().skip(n as int),
    {
        if n > self.data.len() - self.pos {
            return Err(Error::from_errno_positive(EFAULT));
        }
        let mut out: Vec<u8> = Vec::new();
        let mut i: usize = 0;
        while i < n
            invariant
                0 <= i <= n,
                self.pos + n <= self.data@.len(),
                self.data@.len() <= usize::MAX,
                out@.len() == i,
                forall|j: int| 0 <= j < i ==> out@[j] == self.data@[self.pos + j],
            decreases n - i,
        {
            out.push(self.data[self.pos + i]);
            i = i + 1;
        }
        let ghost before = *self;
        self.pos = self.pos + n;
        proof {
            assert(out@ =~= before.spec_remaining().take(n as int));
            assert(self.spec_remaining() =~= before.spec_remaining().skip(n as int));
        }
        Ok(out)
    }
}

/// A writer for [`UserSlicePtr`]: fills the range incrementally, forward
/// only.
pub struct UserSlicePtrWriter {
    data: Vec<u8>,
    pos: usize,
}

impl UserSlicePtrWriter {
    /// The range's bytes, written and unwritten alike.
    pub closed spec fn view(self) -> Seq<u8> {
        self.data@
    }

    /// How many bytes have been written.
    pub closed spec fn spec_pos(self) -> int {
        self.pos as int
    }

    /// The write position never passes the range's end.
    pub closed spec fn wf(self) -> bool {
        self.pos <= self.data@.len()
    }

    /// Returns the number of bytes left to be written.
    pub fn len(&self) -> (r: usize)
        requires
            self.wf(),
        ensures
            r == self@.len() - self.spec_pos(),
    {
        self.data.len() - self.pos
    }

    /// Returns `true` if `self.len()` is 0.
    pub fn is_empty(&self) -> (r: bool)
        requires
            self.wf(),
        ensures
            r == (self@.len() == self.spec_pos()),
    {
        self.len() == 0
    }

    /// Writes `data` at the write position.  Fails, writing nothing,
    /// exactly when `data` is larger than what is left of the range.
    pub fn write(&mut self, data: &[u8]) -> (r: Result<(), Error>)
        requires
            old(self).wf(),
        ensures
            final(self).wf(),
            r is Ok <==> data@.len() <= old(self)@.len() - old(self).spec_pos(),
            r is Err ==> *final(self) == *old(self),
            r is Ok ==> {
                &&& final(self)@.len() == old(self)@.len()
                &&& final(self).spec_pos() == old(self).spec_pos() + data@.len()
                &&& (forall|j: int|
                    0 <= j < old(self).spec_pos() ==> final(self)@[j] == old(self)@[j])
                &&& (forall|j: int|
                    0 <= j < data@.len() ==> final(self)@[old(self).spec_pos() + j] == data@[j])
                &&& (forall|j: int|
                    old(self).spec_pos() + data@.len() <= j < old(self)@.len()
                        ==> final(self)@[j] == old(self)@[j])
            },
    {
        if data.len() > self.data.len() - self.pos {
            return Err(Error::from_errno_positive(EFAULT));
        }
        let ghost p = self.pos as int;
        let mut i: usize = 0;
        while i < data.len()
            invariant
                0 <= i <= data@.len(),
                p + data@.len() <= self.data@.len(),
                self.data@.len() <= usize::MAX,
                self.pos as int == p,
                self.data@.len() == old(self)@.len(),
                forall|j: int| 0 <= j < p ==> self.data@[j] == old(self)@[j],
                forall|j: int| 0 <= j < i ==> self.data@[p + j] == data@[j],
                forall|j: int| p + i <= j < self.data@.len() ==> self.data@[j] == old(self)@[j],
            decreases data@.len() - i,
        {
            self.data[self.pos + i] = data[i];
            i = i + 1;
        }
        self.pos = self.pos + data.len();
        Ok(())
    }
}

} // verus!
