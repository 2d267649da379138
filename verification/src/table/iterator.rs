use crate::block::iterator::{seek_position, BlockIterator};
use crate::block::{entries_of, keys_of};
use crate::error::Error;
use crate::iterators::StorageIterator;
use crate::key::{key_lt, keys_increasing};
use crate::table::{block_for_key, first_keys, SsTable};
use std::sync::Arc;
use vstd::prelude::*;

verus! {

impl SsTable {
    /// The key-value pairs of block `idx`; none where the block cannot be
    /// read.
    pub open spec fn block_entries(&self, idx: int) -> Seq<(Seq<u8>, Seq<u8>)> {
        match self.block_at(idx) {
            Ok(parts) => entries_of(parts.0, parts.1),
            Err(_) => Seq::empty(),
        }
    }

    /// The key-value pairs of the blocks from `idx` on, in order.
    pub open spec fn entries_from(&self, idx: int) -> Seq<(Seq<u8>, Seq<u8>)>
        decreases self.metas().len() - idx,
    {
        if idx < 0 || idx >= self.metas().len() {
            Seq::empty()
        } else {
            self.block_entries(idx) + self.entries_from(idx + 1)
        }
    }
}

spec fn shared_table(table: &Arc<SsTable>) -> SsTable {
    **table
}

/// A cursor over the key-value pairs of a table, block after block.
pub struct SsTableIterator {
    table: Arc<SsTable>,
    blk_iter: BlockIterator,
    blk_idx: usize,
}

impl SsTableIterator {
    /// The table that the cursor walks.
    pub closed spec fn table_view(&self) -> SsTable {
        *self.table
    }

    /// Index of the block that the cursor is in; the number of blocks
    /// where the cursor is behind the last one.
    pub closed spec fn block_index(&self) -> int {
        self.blk_idx as int
    }

    /// Index of the current pair within its block.
    pub closed spec fn entry_index(&self) -> int {
        self.blk_iter.index()
    }

    /// What holds of every cursor: it is at a pair of a block that could
    /// be read, or behind the last block.
    pub closed spec fn wf(&self) -> bool {
        &&& self.blk_iter.inv()
        &&& self.table.metas().len() > 0
        &&& self.blk_idx <= self.table.metas().len()
        &&& if self.blk_idx < self.table.metas().len() {
            &&& self.table.block_at(self.blk_idx as int) is Ok
            &&& self.blk_iter.block_entries() == self.table.block_entries(self.blk_idx as int)
            &&& 0 <= self.blk_iter.index() < self.blk_iter.block_entries().len()
        } else {
            self.blk_iter.index() == self.blk_iter.block_entries().len()
        }
    }

    /// The pairs from the current one on: the rest of the block that the
    /// cursor is in, then the pairs of the blocks behind it.
    pub open spec fn pairs_left(&self) -> Seq<(Seq<u8>, Seq<u8>)> {
        if self.block_index() < self.table_view().metas().len() {
            self.table_view().block_entries(self.block_index()).skip(self.entry_index())
                + self.table_view().entries_from(self.block_index() + 1)
        } else {
            Seq::empty()
        }
    }

    /// The cursor is at the last pair of a block that is not the last: the
    /// next step reads the next block.
    pub open spec fn leaves_block(&self) -> bool {
        &&& self.block_index() + 1 < self.table_view().metas().len()
        &&& self.entry_index() + 1 == self.table_view().block_entries(self.block_index()).len()
    }

    /// What a step of the cursor gives: the error of reading the next
    /// block where the step leaves a block and the next cannot be read,
    /// else success.
    pub open spec fn stepping(&self) -> Result<(), Error> {
        if self.leaves_block() {
            match self.table_view().block_at(self.block_index() + 1) {
                Ok(_) => Ok(()),
                Err(e) => Err(e),
            }
        } else {
            Ok(())
        }
    }

    /// A cursor is within the table, and at a pair of its block unless it
    /// is behind the last block.
    pub proof fn lemma_position(&self)
        requires
            self.wf(),
        ensures
            0 <= self.block_index() <= self.table_view().metas().len(),
            self.block_index() < self.table_view().metas().len() ==> 0 <= self.entry_index()
                < self.table_view().block_entries(self.block_index()).len(),
            self.block_index() < self.table_view().metas().len() ==> self.table_view().block_at(
                self.block_index(),
            ) is Ok,
    {
    }

    fn seek_to_first_inner(table: &Arc<SsTable>) -> (found: Result<(usize, BlockIterator), Error>)
        requires
            table.metas().len() > 0,
        ensures
            match table.block_at(0) {
                Err(e) => found == Err::<(usize, BlockIterator), Error>(e),
                Ok(_) => found is Ok && found->Ok_0.0 == 0 && found->Ok_0.1.inv()
                    && found->Ok_0.1.block_entries() == table.block_entries(0)
                    && found->Ok_0.1.index() == 0 && table.block_entries(0).len() > 0,
            },
    {
        let block = table.read_block_cached(0)?;
        Ok((0, BlockIterator::create_and_seek_to_first(block)))
    }

    /// Creates a cursor at the first pair of the first block.
    pub fn create_and_seek_to_first(table: Arc<SsTable>) -> (created: Result<Self, Error>)
        requires
            table.metas().len() > 0,
        ensures
            match table.block_at(0) {
                Err(e) => created == Err::<Self, Error>(e),
                Ok(_) => created is Ok && created->Ok_0.wf() && created->Ok_0.table_view()
                    == *table && created->Ok_0.block_index() == 0 && created->Ok_0.entry_index()
                    == 0,
            },
    {
        let (blk_idx, blk_iter) = Self::seek_to_first_inner(&table)?;
        Ok(Self { blk_iter, table, blk_idx })
    }

    /// Moves the cursor to the first pair of the first block.
    pub fn seek_to_first(&mut self) -> (moved: Result<(), Error>)
        requires
            old(self).wf(),
        ensures
            final(self).table_view() == old(self).table_view(),
            match old(self).table_view().block_at(0) {
                Err(e) => moved == Err::<(), Error>(e),
                Ok(_) => moved is Ok && final(self).wf() && final(self).block_index() == 0
                    && final(self).entry_index() == 0,
            },
    {
        let (blk_idx, blk_iter) = Self::seek_to_first_inner(&self.table)?;
        self.blk_idx = blk_idx;
        self.blk_iter = blk_iter;
        Ok(())
    }

    /// Where a seek for `key` leaves a cursor of `table`, given the block
    /// `idx` that `find_block_idx` names: at the first pair of that block
    /// whose key is at least `key`, or, where the block has none, at the
    /// first pair of the next block, or behind the last block.
    pub open spec fn seek_result(&self, table: SsTable, key: Seq<u8>, idx: int) -> bool {
        let keys = keys_of(table.block_entries(idx));
        &&& self.wf()
        &&& self.table_view() == table
        &&& if self.block_index() == idx {
            keys_increasing(keys) ==> seek_position(keys, key, self.entry_index())
        } else {
            &&& self.block_index() == idx + 1
            &&& self.block_index() < table.metas().len() ==> self.entry_index() == 0
            &&& keys_increasing(keys) ==> seek_position(keys, key, keys.len() as int)
        }
    }

    /// A block that was read at `blk_idx` with a cursor in it make a cursor
    /// of the table.
    spec fn placed(table: SsTable, blk_idx: int, blk_iter: BlockIterator) -> bool {
        &&& blk_iter.inv()
        &&& table.metas().len() > 0
        &&& 0 <= blk_idx <= table.metas().len()
        &&& if blk_idx < table.metas().len() {
            &&& table.block_at(blk_idx) is Ok
            &&& blk_iter.block_entries() == table.block_entries(blk_idx)
            &&& 0 <= blk_iter.index() < blk_iter.block_entries().len()
        } else {
            blk_iter.index() == blk_iter.block_entries().len()
        }
    }

    /// Where a seek that began in block `idx` has stopped.
    spec fn stopped(
        table: SsTable,
        key: Seq<u8>,
        idx: int,
        blk_idx: int,
        blk_iter: BlockIterator,
    ) -> bool {
        let keys = keys_of(table.block_entries(idx));
        if blk_idx == idx {
            keys_increasing(keys) ==> seek_position(keys, key, blk_iter.index())
        } else {
            &&& blk_idx == idx + 1
            &&& blk_idx < table.metas().len() ==> blk_iter.index() == 0
            &&& keys_increasing(keys) ==> seek_position(keys, key, keys.len() as int)
        }
    }

    fn seek_to_key_inner(table: &Arc<SsTable>, key: &[u8]) -> (found: Result<
        (usize, BlockIterator),
        Error,
    >)
        requires
            table.metas().len() > 0,
        ensures
            found is Ok ==> Self::placed(**table, found->Ok_0.0 as int, found->Ok_0.1),
            found is Ok ==> Self::stopped(
                **table,
                key@,
                Self::first_block(**table, key@),
                found->Ok_0.0 as int,
                found->Ok_0.1,
            ),
            found is Err ==> Self::seek_failure(**table, key@, found->Err_0),
            Self::seek_succeeds(**table, key@) ==> found is Ok,
    {
        let count = table.num_of_blocks();
        let first = table.find_block_idx(key);
        proof {
            Self::lemma_first_block(shared_table(table), key@, first as int);
        }
        let block = match table.read_block_cached(first) {
            Ok(block) => block,
            Err(e) => {
                return Err(e);
            },
        };
        let ghost keys = keys_of(block.entries());
        assert(keys == keys_of(table.block_entries(first as int)));
        let blk_iter = BlockIterator::create_and_seek_to_key(block, key);
        if blk_iter.is_valid() {
            return Ok((first, blk_iter));
        }
        assert(blk_iter.index() == keys.len());
        let next = first + 1;
        if next < count {
            let block = match table.read_block_cached(next) {
                Ok(block) => block,
                Err(e) => {
                    return Err(e);
                },
            };
            let blk_iter = BlockIterator::create_and_seek_to_first(block);
            Ok((next, blk_iter))
        } else {
            Ok((next, blk_iter))
        }
    }

    /// The block in which a seek for `key` begins.
    pub open spec fn first_block(table: SsTable, key: Seq<u8>) -> int {
        choose|idx: int| block_for_key(first_keys(table.metas()), key, idx)
    }

    /// In a table whose index is in order, the block in which a seek for a
    /// key begins is the one that `block_for_key` describes.
    pub proof fn lemma_first_block(table: SsTable, key: Seq<u8>, idx: int)
        requires
            crate::table::metas_ordered(table.metas()),
            block_for_key(first_keys(table.metas()), key, idx),
        ensures
            Self::first_block(table, key) == idx,
            table.metas().len() > 0 ==> 0 <= idx < table.metas().len(),
    {
        let metas = table.metas();
        let other = Self::first_block(table, key);
        if metas.len() > 0 && !key_lt(key, first_keys(metas)[0]) {
            assert(first_keys(metas)[0] == metas[0].first_key);
            crate::table::lemma_block_for_key(metas, key, idx, other);
        }
    }

    /// A seek for `key` fails with `error` for one of two reasons: the block
    /// in which it begins cannot be read, or the seek has to go on to the
    /// next block and that one cannot be read.
    pub open spec fn seek_failure(table: SsTable, key: Seq<u8>, error: Error) -> bool {
        let idx = Self::first_block(table, key);
        let keys = keys_of(table.block_entries(idx));
        ||| table.block_at(idx) == Err::<(Seq<u8>, Seq<u16>), Error>(error)
        ||| {
            &&& table.block_at(idx) is Ok
            &&& idx + 1 < table.metas().len()
            &&& table.block_at(idx + 1) == Err::<(Seq<u8>, Seq<u16>), Error>(error)
            &&& keys_increasing(keys) ==> seek_position(keys, key, keys.len() as int)
        }
    }

    /// A seek for `key` is owed success where the block in which it begins
    /// can be read and the next block, if there is one, can be read too.
    pub open spec fn seek_succeeds(table: SsTable, key: Seq<u8>) -> bool {
        let idx = Self::first_block(table, key);
        &&& table.block_at(idx) is Ok
        &&& idx + 1 < table.metas().len() ==> table.block_at(idx + 1) is Ok
    }

    /// Creates a cursor at the first pair whose key is at least `key`.
    pub fn create_and_seek_to_key(table: Arc<SsTable>, key: &[u8]) -> (created: Result<
        Self,
        Error,
    >)
        requires
            table.metas().len() > 0,
        ensures
            created is Ok ==> created->Ok_0.seek_result(
                *table,
                key@,
                Self::first_block(*table, key@),
            ),
            created is Err ==> Self::seek_failure(*table, key@, created->Err_0),
            Self::seek_succeeds(*table, key@) ==> created is Ok,
    {
        let (blk_idx, blk_iter) = Self::seek_to_key_inner(&table, key)?;
        Ok(Self { blk_iter, table, blk_idx })
    }

    /// Moves the cursor to the first pair whose key is at least `key`.
    pub fn seek_to_key(&mut self, key: &[u8]) -> (moved: Result<(), Error>)
        requires
            old(self).wf(),
        ensures
            final(self).table_view() == old(self).table_view(),
            moved is Ok ==> final(self).seek_result(
                old(self).table_view(),
                key@,
                Self::first_block(old(self).table_view(), key@),
            ),
            moved is Err ==> Self::seek_failure(old(self).table_view(), key@, moved->Err_0),
            Self::seek_succeeds(old(self).table_view(), key@) ==> moved is Ok,
    {
        let (blk_idx, blk_iter) = Self::seek_to_key_inner(&self.table, key)?;
        self.blk_iter = blk_iter;
        self.blk_idx = blk_idx;
        Ok(())
    }
}

impl StorageIterator for SsTableIterator {
    open spec fn inv(&self) -> bool {
        self.wf()
    }

    open spec fn remaining(&self) -> Seq<(Seq<u8>, Seq<u8>)> {
        self.pairs_left()
    }

    open spec fn active_iterators(&self) -> nat {
        1
    }

    fn value(&self) -> (value: &[u8]) {
        self.blk_iter.value()
    }

    fn key(&self) -> (key: &[u8]) {
        self.blk_iter.key()
    }

    fn is_valid(&self) -> (valid: bool) {
        self.blk_iter.is_valid()
    }

    /// Moves to the next pair: within the block, or to the first pair of
    /// the next block, which is then read.
    fn next(&mut self) -> (moved: Result<(), Error>)
        ensures
            final(self).table_view() == old(self).table_view(),
            moved == old(self).stepping(),
            moved is Ok ==> final(self).block_index() == if old(self).entry_index() + 1 < old(
                self,
            ).table_view().block_entries(old(self).block_index()).len() {
                old(self).block_index()
            } else {
                old(self).block_index() + 1
            },
    {
        let ghost table = self.table_view();
        let count = self.table.num_of_blocks();
        self.blk_iter.next();
        if !self.blk_iter.is_valid() {
            self.blk_idx += 1;
            if self.blk_idx < count {
                let block = self.table.read_block_cached(self.blk_idx)?;
                self.blk_iter = BlockIterator::create_and_seek_to_first(block);
                proof {
                    let idx = self.blk_idx as int;
                    assert(table.entries_from(idx) == table.block_entries(idx) + table.entries_from(
                        idx + 1,
                    ));
                    assert(table.block_entries(idx).skip(0) =~= table.block_entries(idx));
                }
            } else {
                assert(table.entries_from(self.blk_idx as int) =~= Seq::<
                    (Seq<u8>, Seq<u8>),
                >::empty());
            }
            assert(self.pairs_left() =~= old(self).pairs_left().drop_first());
        } else {
            assert(self.pairs_left() =~= old(self).pairs_left().drop_first());
        }
        Ok(())
    }

    fn num_active_iterators(&self) -> (count: usize) {
        1
    }
}

} // verus!
