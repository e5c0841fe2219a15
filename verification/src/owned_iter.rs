//! Rows that outlive the iterator they came from.

use vstd::prelude::*;
use vstd::slice::slice_to_vec;
use crate::storage::DBIterator;

verus! {

/// An iterator that hands out each row of a scan as bytes of its own. It
/// copies the current row before it moves on, so that a row may be kept
/// while the scan goes on and after it has ended. The rows come once, in the
/// order of the scan.
pub struct OwnedIterator<'a> {
    iter: DBIterator<'a>,
}

impl<'a> OwnedIterator<'a> {
    /// The rows that are yet to come, the next one first.
    pub closed spec fn remaining(&self) -> Seq<(Seq<u8>, Seq<u8>)> {
        self.iter.remaining()
    }

    /// The owned rows of `iter`.
    pub fn new(iter: DBIterator<'a>) -> (owned: Self)
        ensures
            owned.remaining() == iter.remaining(),
    {
        OwnedIterator { iter }
    }

    /// The next row, as a copy of its key and of its value; `None` at the end.
    pub fn next(&mut self) -> (row: Option<(Vec<u8>, Vec<u8>)>)
        ensures
            match row {
                Some((key, value)) => old(self).remaining().len() > 0 && (key@, value@) == old(
                    self,
                ).remaining()[0] && final(self).remaining() == old(self).remaining().skip(1),
                None => old(self).remaining().len() == 0 && final(self).remaining() == old(
                    self,
                ).remaining(),
            },
    {
        match self.iter.item() {
            Some((key, value)) => {
                let row = (slice_to_vec(key), slice_to_vec(value));
                self.iter.next();
                Some(row)
            },
            None => None,
        }
    }
}

} // verus!
