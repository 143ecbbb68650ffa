//! The pair iterator: a lazy, finite, one-pass walk over a snapshot of the
//! stored pairs, in ascending bucket order and head-to-tail within a
//! bucket.

use vstd::prelude::*;

use crate::chain::pairs_view;

verus! {

/// An iterator over the key-value pairs of a `ByteBox`, created by
/// [`crate::ByteBox::iter`]. Its view is the sequence of pairs still to be
/// yielded.
pub struct ByteBoxIterator {
    /// The pairs not yet yielded, kept in reverse order so that each step
    /// hands out the last element.
    pub(crate) rest: Vec<(Vec<u8>, Vec<u8>)>,
}

impl View for ByteBoxIterator {
    type V = Seq<(Seq<u8>, Seq<u8>)>;

    /// The pairs still to be yielded, next one first.
    closed spec fn view(&self) -> Seq<(Seq<u8>, Seq<u8>)> {
        pairs_view(self.rest@).reverse()
    }
}

impl ByteBoxIterator {
    /// Wraps an already-collected snapshot, stored in reverse order of
    /// production.
    pub(crate) fn from_rev_pairs(rest: Vec<(Vec<u8>, Vec<u8>)>) -> (it: ByteBoxIterator)
        ensures
            it@ == pairs_view(rest@).reverse(),
    {
        ByteBoxIterator { rest }
    }

    /// Yields the next key-value pair, or nothing once every stored pair
    /// has been produced exactly once.
    pub fn next(&mut self) -> (r: Option<(Vec<u8>, Vec<u8>)>)
        ensures
            match r {
                Some(p) => {
                    &&& old(self)@.len() > 0
                    &&& (p.0@, p.1@) == old(self)@[0]
                    &&& final(self)@ == old(self)@.drop_first()
                },
                None => {
                    &&& old(self)@.len() == 0
                    &&& final(self)@ == old(self)@
                },
            },
    {
        let r = self.rest.pop();
        proof {
            if old(self).rest@.len() > 0 {
                assert(self.rest@ == old(self).rest@.subrange(
                    0,
                    old(self).rest@.len() - 1,
                ));
                assert(pairs_view(self.rest@) =~= pairs_view(old(self).rest@).drop_last());
                assert(self@ =~= old(self)@.drop_first());
            } else {
                assert(self@ =~= old(self)@);
            }
        }
        r
    }
}

} // verus!
