//! Devicetree and Open Firmware abstractions.

use vstd::prelude::*;

use crate::error::{Error, EINVAL};

verus! {

/// The size of a match entry's `compatible` field.
pub const COMPATIBLE_LEN: usize = 128;

/// An Open Firmware match table built from a single `compatible` string:
/// one entry carrying the string in a fixed-size, zero-padded field,
/// followed by the all-zeros sentinel entry that terminates the table.
pub struct OfMatchTable {
    compatible: Vec<u8>,
}

impl OfMatchTable {
    /// The entry's `compatible` field: the string, zero-padded to the
    /// field's fixed size.
    pub closed spec fn spec_compatible(self) -> Seq<u8> {
        self.compatible@
    }

    /// Creates a [`OfMatchTable`] from a single `compatible` string.
    /// Fails exactly when the string does not fit the field.
    pub fn new(compatible: &[u8]) -> (r: Result<OfMatchTable, Error>)
        ensures
            r is Ok <==> compatible@.len() <= COMPATIBLE_LEN,
            r matches Ok(t) ==> {
                &&& t.spec_compatible().len() == COMPATIBLE_LEN
                &&& t.spec_compatible().take(compatible@.len() as int) == compatible@
                &&& (forall|j: int|
                    compatible@.len() <= j < COMPATIBLE_LEN ==> t.spec_compatible()[j] == 0u8)
            },
    {
        if compatible.len() > COMPATIBLE_LEN {
            return Err(Error::from_errno_positive(EINVAL));
        }
        let mut buf: Vec<u8> = Vec::new();
        let mut i: usize = 0;
        while i < compatible.len()
            invariant
                0 <= i <= compatible@.len(),
                buf@.len() == i,
                forall|j: int| 0 <= j < i ==> buf@[j] == compatible@[j],
            decreases compatible@.len() - i,
        {
            buf.push(compatible[i]);
            i = i + 1;
        }
        while buf.len() < COMPATIBLE_LEN
            invariant
                compatible@.len() <= buf@.len() <= COMPATIBLE_LEN,
                forall|j: int| 0 <= j < compatible@.len() ==> buf@[j] == compatible@[j],
                forall|j: int| compatible@.len() <= j < buf@.len() ==> buf@[j] == 0u8,
            decreases COMPATIBLE_LEN - buf@.len(),
        {
            buf.push(0);
        }
        proof {
            assert(buf@.take(compatible@.len() as int) =~= compatible@);
        }
        Ok(OfMatchTable { compatible: buf })
    }
}

} // verus!
