use crate::error::Error;
use vstd::prelude::*;

pub mod merge_iterator;
pub mod merge_model;

pub use merge_iterator::MergeIterator;

verus! {

/// An ordered stream of key-value pairs with a cursor on the current pair.
///
/// The stream is described by the pairs that are left, the current one
/// first. Whoever implements the trait owes what the methods ensure; the
/// iterators of this library are proved to.
pub trait StorageIterator {
    /// What holds of the iterator between calls. An iterator of which
    /// nothing was proved says nothing here, and so holds nothing.
    open spec fn inv(&self) -> bool {
        false
    }

    /// The pairs from the current one on.
    open spec fn remaining(&self) -> Seq<(Seq<u8>, Seq<u8>)> {
        Seq::empty()
    }

    /// Number of iterators that this one draws from, itself included.
    open spec fn active_iterators(&self) -> nat {
        1
    }

    /// The current value.
    fn value(&self) -> (value: &[u8])
        requires
            self.inv(),
            self.remaining().len() > 0,
        ensures
            value@ == self.remaining()[0].1,
    ;

    /// The current key.
    fn key(&self) -> (key: &[u8])
        requires
            self.inv(),
            self.remaining().len() > 0,
        ensures
            key@ == self.remaining()[0].0,
    ;

    /// Whether the cursor is at a pair.
    fn is_valid(&self) -> (valid: bool)
        requires
            self.inv(),
        ensures
            valid == (self.remaining().len() > 0),
    ;

    /// Moves to the next pair. After an error the iterator must not be
    /// used any more.
    fn next(&mut self) -> (moved: Result<(), Error>)
        requires
            old(self).inv(),
            old(self).remaining().len() > 0,
        ensures
            moved is Ok ==> final(self).inv(),
            moved is Ok ==> final(self).remaining() == old(self).remaining().drop_first(),
    ;

    /// Number of iterators that this one draws from, itself included; the
    /// largest `usize` where it would not hold their number.
    fn num_active_iterators(&self) -> (count: usize)
        requires
            self.inv(),
        ensures
            count == clip(self.active_iterators()),
    ;
}

/// `n`, or the largest `usize` where `n` exceeds it.
pub open spec fn clip(n: nat) -> usize {
    if n > usize::MAX {
        usize::MAX
    } else {
        n as usize
    }
}

} // verus!
