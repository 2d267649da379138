use crate::block::{entry_key, entry_value, first_key_of, keys_of, Block};
use crate::key::{
    compare_joined, key_le, key_lt, keys_increasing, lemma_key_lt_transitive, KeyOrder,
};
use std::sync::Arc;
use vstd::prelude::*;
use vstd::slice::{slice_subrange, slice_to_vec};

verus! {

/// `at` is where a seek for `target` stops among `keys`: every key before
/// it is smaller than `target`, and the key at it, if there is one, is not.
pub open spec fn seek_position(keys: Seq<Seq<u8>>, target: Seq<u8>, at: int) -> bool {
    &&& 0 <= at <= keys.len()
    &&& forall|j: int| 0 <= j < at ==> key_lt(#[trigger] keys[j], target)
    &&& at < keys.len() ==> key_le(target, keys[at])
}

/// Among increasing keys a seek for `target` can stop at one place only.
pub proof fn lemma_seek_position_unique(keys: Seq<Seq<u8>>, target: Seq<u8>, a: int, b: int)
    requires
        keys_increasing(keys),
        seek_position(keys, target, a),
        seek_position(keys, target, b),
    ensures
        a == b,
{
    if a < b {
        assert(key_lt(keys[a], target));
    } else if b < a {
        assert(key_lt(keys[b], target));
    }
}

/// Where a seek stops among increasing keys, every key from there on is at
/// least the target: the stop is the smallest entry with `key >= target`.
pub proof fn lemma_seek_position_smallest(keys: Seq<Seq<u8>>, target: Seq<u8>, at: int, j: int)
    requires
        keys_increasing(keys),
        seek_position(keys, target, at),
        at <= j < keys.len(),
    ensures
        key_le(target, keys[j]),
{
    if at < j {
        assert(key_lt(keys[at], keys[j]));
        if key_lt(keys[j], target) {
            lemma_key_lt_transitive(keys[at], keys[j], target);
        }
    }
}

/// What a search for `target` between `low` and `high` has found out:
/// every key before `low` is smaller than `target`, and none from `high` on.
spec fn seek_bounds(keys: Seq<Seq<u8>>, target: Seq<u8>, low: int, high: int) -> bool {
    &&& 0 <= low <= high <= keys.len()
    &&& forall|j: int| 0 <= j < low ==> key_lt(#[trigger] keys[j], target)
    &&& forall|j: int| high <= j < keys.len() ==> key_le(target, #[trigger] keys[j])
}

proof fn lemma_seek_raise_low(keys: Seq<Seq<u8>>, target: Seq<u8>, low: int, high: int, mid: int)
    requires
        keys_increasing(keys),
        seek_bounds(keys, target, low, high),
        low <= mid < high,
        key_lt(keys[mid], target),
    ensures
        seek_bounds(keys, target, mid + 1, high),
{
    assert forall|j: int| 0 <= j < mid + 1 implies key_lt(#[trigger] keys[j], target) by {
        if j < mid {
            lemma_key_lt_transitive(keys[j], keys[mid], target);
        }
    }
}

proof fn lemma_seek_lower_high(keys: Seq<Seq<u8>>, target: Seq<u8>, low: int, high: int, mid: int)
    requires
        keys_increasing(keys),
        seek_bounds(keys, target, low, high),
        low <= mid < high,
        !key_lt(keys[mid], target),
    ensures
        seek_bounds(keys, target, low, mid),
{
    assert forall|j: int| mid <= j < keys.len() implies key_le(target, #[trigger] keys[j]) by {
        if j > mid && key_lt(keys[j], target) {
            lemma_key_lt_transitive(keys[mid], keys[j], target);
        }
    }
}

/// Walking a block whose keys increase gives keys in strictly increasing
/// order: the key at each place is smaller than the key at every later
/// place, so each step of a cursor leads to a larger key.
pub proof fn lemma_iteration_increasing(entries: Seq<(Seq<u8>, Seq<u8>)>, at: int, later: int)
    requires
        keys_increasing(keys_of(entries)),
        0 <= at < later < entries.len(),
    ensures
        key_lt(entries[at].0, entries[later].0),
        key_lt(entries.skip(at)[0].0, entries.skip(at + 1)[later - at - 1].0),
{
    let keys = keys_of(entries);
    assert(keys[at] == entries[at].0);
    assert(keys[later] == entries[later].0);
}

/// A cursor over the entries of a block.
pub struct BlockIterator {
    /// The block that the cursor walks.
    block: Arc<Block>,
    /// The key of the current entry, empty where there is none.
    key: Vec<u8>,
    /// Where the current value lies within the raw entries of the block.
    value_range: (usize, usize),
    /// Index of the current entry.
    idx: usize,
    /// The first key of the block.
    first_key: Vec<u8>,
}

impl BlockIterator {
    /// The entries of the block that the cursor walks.
    pub closed spec fn block_entries(&self) -> Seq<(Seq<u8>, Seq<u8>)> {
        self.block.entries()
    }

    /// Index of the current entry; the number of entries where the cursor
    /// is behind the last one.
    pub closed spec fn index(&self) -> int {
        self.idx as int
    }

    spec fn base_inv(&self) -> bool {
        &&& self.block.wf()
        &&& self.first_key@ == first_key_of(self.block.data_view())
    }

    /// What holds of every cursor: its block is well formed, its index is at
    /// most the number of entries, and its key and value are those of the
    /// entry at the index.
    pub closed spec fn inv(&self) -> bool {
        &&& self.base_inv()
        &&& self.idx <= self.block.offsets_view().len()
        &&& if self.idx < self.block.offsets_view().len() {
            let at = self.block.offsets_view()[self.idx as int] as int;
            &&& self.key@ == entry_key(self.block.data_view(), at)
            &&& self.value_range.0 <= self.value_range.1 <= self.block.data_view().len()
            &&& self.block.data_view().subrange(
                self.value_range.0 as int,
                self.value_range.1 as int,
            ) == entry_value(self.block.data_view(), at)
        } else {
            &&& self.key@.len() == 0
            &&& self.value_range.0 == 0
            &&& self.value_range.1 == 0
        }
    }

    /// The entries from the current one on.
    pub open spec fn remaining(&self) -> Seq<(Seq<u8>, Seq<u8>)> {
        self.block_entries().skip(self.index())
    }

    /// The index of a cursor is at most the number of entries.
    pub proof fn lemma_index_in_range(&self)
        requires
            self.inv(),
        ensures
            0 <= self.index() <= self.block_entries().len(),
    {
    }

    fn new(block: Arc<Block>) -> (iter: Self)
        requires
            block.wf(),
        ensures
            iter.base_inv(),
            iter.block == block,
    {
        let at = block.layout(0);
        let first_key = slice_to_vec(slice_subrange(block.data.as_slice(), at.rest_start, at.rest_end));
        Self { block, key: Vec::new(), value_range: (0, 0), idx: 0, first_key }
    }

    /// Creates a cursor at the first entry of the block.
    pub fn create_and_seek_to_first(block: Arc<Block>) -> (iter: Self)
        requires
            block.wf(),
        ensures
            iter.inv(),
            iter.block_entries() == block.entries(),
            iter.index() == 0,
    {
        let mut iter = Self::new(block);
        iter.seek_to(0);
        iter
    }

    /// Creates a cursor at the first entry whose key is at least `key`, or
    /// behind the last entry where there is none.
    pub fn create_and_seek_to_key(block: Arc<Block>, key: &[u8]) -> (iter: Self)
        requires
            block.wf(),
        ensures
            iter.inv(),
            iter.block_entries() == block.entries(),
            0 <= iter.index() <= block.entries().len(),
            block.sorted() ==> seek_position(keys_of(block.entries()), key@, iter.index()),
    {
        let mut iter = Self::new(block);
        let at = iter.find(key);
        iter.seek_to(at);
        iter
    }

    /// The key of the current entry; the empty key where there is none.
    pub fn key(&self) -> (key: &[u8])
        requires
            self.inv(),
        ensures
            self.remaining().len() > 0 ==> key@ == self.remaining()[0].0,
            self.remaining().len() == 0 ==> key@.len() == 0,
    {
        self.key.as_slice()
    }

    /// The value of the current entry; the empty value where there is none.
    pub fn value(&self) -> (value: &[u8])
        requires
            self.inv(),
        ensures
            self.remaining().len() > 0 ==> value@ == self.remaining()[0].1,
            self.remaining().len() == 0 ==> value@.len() == 0,
    {
        slice_subrange(self.block.data.as_slice(), self.value_range.0, self.value_range.1)
    }

    /// Whether the cursor is at an entry.
    pub fn is_valid(&self) -> (valid: bool)
        requires
            self.inv(),
        ensures
            valid == (self.remaining().len() > 0),
            valid == (self.index() < self.block_entries().len()),
    {
        self.idx < self.block.offsets.len()
    }

    /// Moves the cursor to the first entry.
    pub fn seek_to_first(&mut self)
        requires
            old(self).inv(),
        ensures
            final(self).inv(),
            final(self).block_entries() == old(self).block_entries(),
            final(self).index() == 0,
    {
        self.seek_to(0);
    }

    /// Moves the cursor to the next entry, or behind the last one. A cursor
    /// behind the last entry stays there.
    pub fn next(&mut self)
        requires
            old(self).inv(),
        ensures
            final(self).inv(),
            final(self).block_entries() == old(self).block_entries(),
            final(self).index() == if old(self).index() < old(self).block_entries().len() {
                old(self).index() + 1
            } else {
                old(self).index()
            },
            old(self).remaining().len() > 0 ==> final(self).remaining() == old(
                self,
            ).remaining().drop_first(),
    {
        if self.idx < self.block.offsets.len() {
            let next = self.idx + 1;
            self.seek_to(next);
            assert(self.remaining() =~= old(self).remaining().drop_first());
        }
    }

    /// Moves the cursor to entry `idx` and takes its key and the place of
    /// its value; behind the last entry where `idx` is no entry.
    fn seek_to(&mut self, idx: usize)
        requires
            old(self).base_inv(),
        ensures
            final(self).inv(),
            final(self).block == old(self).block,
            final(self).idx == if idx < old(self).block.offsets_view().len() {
                idx as int
            } else {
                old(self).block.offsets_view().len() as int
            },
    {
        let count = self.block.offsets.len();
        self.key.clear();
        if idx >= count {
            self.value_range = (0, 0);
            self.idx = count;
            return ;
        }
        let at = self.block.layout(idx);
        self.key.extend_from_slice(slice_subrange(self.first_key.as_slice(), 0, at.overlap));
        self.key.extend_from_slice(
            slice_subrange(self.block.data.as_slice(), at.rest_start, at.rest_end),
        );
        self.value_range = (at.value_start, at.value_end);
        self.idx = idx;
        proof {
            let start = self.block.offsets_view()[idx as int] as int;
            assert(self.key@ =~= entry_key(self.block.data_view(), start));
        }
    }

    /// Compares the key of entry `idx` with `key` without building it.
    fn compare_entry(&self, idx: usize, key: &[u8]) -> (order: KeyOrder)
        requires
            self.base_inv(),
            idx < self.block.offsets_view().len(),
        ensures
            order == crate::key::key_order(keys_of(self.block.entries())[idx as int], key@),
    {
        let at = self.block.layout(idx);
        compare_joined(
            slice_subrange(self.first_key.as_slice(), 0, at.overlap),
            slice_subrange(self.block.data.as_slice(), at.rest_start, at.rest_end),
            key,
        )
    }

    /// Searches the offsets by halving for the first entry whose key is at
    /// least `key`.
    fn find(&self, key: &[u8]) -> (at: usize)
        requires
            self.base_inv(),
        ensures
            at <= self.block.entries().len(),
            self.block.sorted() ==> seek_position(keys_of(self.block.entries()), key@, at as int),
    {
        let ghost keys = keys_of(self.block.entries());
        let mut low: usize = 0;
        let mut high: usize = self.block.offsets.len();
        while low < high
            invariant
                self.base_inv(),
                keys == keys_of(self.block.entries()),
                low <= high <= keys.len(),
                keys.len() == self.block.offsets_view().len(),
                keys_increasing(keys) ==> seek_bounds(keys, key@, low as int, high as int),
            decreases high - low,
        {
            let mid = low + (high - low) / 2;
            match self.compare_entry(mid, key) {
                KeyOrder::Less => {
                    proof {
                        if keys_increasing(keys) {
                            lemma_seek_raise_low(keys, key@, low as int, high as int, mid as int);
                        }
                    }
                    low = mid + 1;
                },
                _ => {
                    proof {
                        if keys_increasing(keys) {
                            lemma_seek_lower_high(keys, key@, low as int, high as int, mid as int);
                        }
                    }
                    high = mid;
                },
            }
        }
        low
    }

    /// Moves the cursor to the first entry whose key is at least `key`, or
    /// behind the last entry where there is none.
    pub fn seek_to_key(&mut self, key: &[u8])
        requires
            old(self).inv(),
        ensures
            final(self).inv(),
            final(self).block_entries() == old(self).block_entries(),
            0 <= final(self).index() <= final(self).block_entries().len(),
            keys_increasing(keys_of(old(self).block_entries())) ==> seek_position(
                keys_of(old(self).block_entries()),
                key@,
                final(self).index(),
            ),
    {
        let at = self.find(key);
        self.seek_to(at);
    }
}

} // verus!
