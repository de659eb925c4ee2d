//! The capability set shared by all layer iterators: current key, current
//! value, validity, and advancing.
//!
//! An iterator is modelled by the sequence of entries it has not yet
//! passed: sorted strictly by key, keys non-empty.  `next` drops the first
//! entry; once the sequence is empty the iterator stays invalid and `next`
//! does nothing.

use vstd::prelude::*;

use crate::keys::lex_lt;

verus! {

pub trait StorageIterator: Sized {
    /// The iterator's invariant.
    spec fn inv(&self) -> bool;

    /// The entries not yet passed, in ascending key order.
    spec fn entries(&self) -> Seq<(Seq<u8>, Seq<u8>)>;

    /// The remaining entries carry non-empty keys in strictly ascending
    /// order.
    proof fn lemma_entries_sorted(&self)
        requires
            self.inv(),
        ensures
            forall|i: int, j: int|
                0 <= i < j < self.entries().len() ==> lex_lt(
                    #[trigger] self.entries()[i].0,
                    #[trigger] self.entries()[j].0,
                ),
            forall|i: int|
                0 <= i < self.entries().len() ==> (#[trigger] self.entries()[i]).0.len() > 0,
    ;

    /// Whether the iterator points at an entry.
    fn is_valid(&self) -> (r: bool)
        requires
            self.inv(),
        ensures
            r == (self.entries().len() > 0),
    ;

    /// The current key.
    fn key(&self) -> (k: &Vec<u8>)
        requires
            self.inv(),
            self.entries().len() > 0,
        ensures
            k@ == self.entries()[0].0,
    ;

    /// The current value.
    fn value(&self) -> (v: &Vec<u8>)
        requires
            self.inv(),
            self.entries().len() > 0,
        ensures
            v@ == self.entries()[0].1,
    ;

    /// Advance past the current entry; does nothing once invalid.
    fn next(&mut self)
        requires
            old(self).inv(),
        ensures
            final(self).inv(),
            old(self).entries().len() > 0 ==> final(self).entries() == old(self).entries()
                .drop_first(),
            old(self).entries().len() == 0 ==> final(self).entries() == old(self).entries(),
    ;
}

} // verus!
