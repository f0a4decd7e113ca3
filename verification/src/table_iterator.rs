//! A cursor across all blocks of one table, loading blocks as it crosses
//! their boundaries.
use std::sync::Arc;
use vstd::prelude::*;

use crate::block_builder::BlockBuilder;
use crate::block_iterator::BlockIterator;
use crate::iterators::StorageIterator;
use crate::keys::{
    lemma_concat_skip, lemma_concat_skip_last, lemma_concat_skip_step, lemma_seek_pos_bounds,
    lemma_skip_skip, seek_pos,
};
use crate::table::SsTable;
use crate::Error;

verus! {

/// Relies on std::sync::Arc::clone: the new handle refers to the same
/// value.
#[verifier::external_body]
fn clone_table_handle(t: &Arc<SsTable>) -> (r: Arc<SsTable>)
    ensures
        *r == **t,
{
    Arc::clone(t)
}

/// A cursor over a shared table: the current block's cursor and its index.
pub struct SsTableIterator {
    table: Arc<SsTable>,
    block_iterator: BlockIterator,
    block_idx: usize,
}

impl SsTableIterator {
    /// The table being iterated.
    pub closed spec fn table_spec(&self) -> SsTable {
        *self.table
    }

    /// The current block index.
    pub closed spec fn idx_spec(&self) -> int {
        self.block_idx as int
    }

    /// The cursor within the current block.
    pub closed spec fn blkit_spec(&self) -> BlockIterator {
        self.block_iterator
    }

    /// A cursor positioned at the table's first entry; on a table without
    /// blocks it is immediately exhausted.
    pub fn create_and_seek_to_first(table: Arc<SsTable>) -> (r: Result<Self, Error>)
        requires
            (*table).wf(),
        ensures
            r is Ok,
            r matches Ok(it) ==> it.inv() && it.no_fail() && it.table_spec() == *table
                && it.remaining() == (*table).sst_entries(),
    {
        if table.num_of_blocks() == 0 {
            let it = Self::past_the_end(table);
            proof {
                assert(it.remaining() =~= it.table_spec().sst_entries());
            }
            return Ok(it);
        }
        let block = match table.read_block(0) {
            Ok(b) => b,
            Err(e) => {
                proof {
                    assert(false);
                }
                return Err(e);
            },
        };
        let it = SsTableIterator {
            table,
            block_iterator: BlockIterator::create_and_seek_to_first(block),
            block_idx: 0,
        };
        proof {
            assert(it.remaining() =~= it.table_spec().sst_entries());
        }
        Ok(it)
    }

    /// An exhausted cursor over a table without blocks.
    fn past_the_end(table: Arc<SsTable>) -> (it: Self)
        requires
            (*table).wf(),
            (*table).metas_spec().len() == 0,
        ensures
            it.inv(),
            it.table_spec() == *table,
            it.idx_spec() == 0,
            it.remaining() == Seq::<(Seq<u8>, Seq<u8>)>::empty(),
    {
        let empty_block = BlockBuilder::new(0).build();
        let block_iterator = BlockIterator::create_and_seek_to_first(Arc::new(empty_block));
        SsTableIterator { table, block_iterator, block_idx: 0 }
    }

    /// Rewind to the table's first entry.
    pub fn seek_to_first(&mut self) -> (r: Result<(), Error>)
        requires
            old(self).inv(),
        ensures
            final(self).inv(),
            final(self).table_spec() == old(self).table_spec(),
            r is Ok,
            final(self).remaining() == old(self).table_spec().sst_entries(),
    {
        let table = clone_table_handle(&self.table);
        match Self::create_and_seek_to_first(table) {
            Ok(it) => {
                *self = it;
                Ok(())
            },
            Err(e) => Err(e),
        }
    }

    /// A cursor positioned at the least entry whose key is `>= key`, or
    /// past the end if every stored key is below it.
    #[verifier::spinoff_prover]
    #[verifier::rlimit(100)]
    pub fn create_and_seek_to_key(table: Arc<SsTable>, key: &[u8]) -> (r: Result<Self, Error>)
        requires
            (*table).wf(),
        ensures
            r is Ok,
            r matches Ok(it) ==> it.inv() && it.no_fail() && it.table_spec() == *table
                && it.remaining() == (*table).sst_entries().skip(
                seek_pos((*table).sst_entries(), key@),
            ),
    {
        if table.num_of_blocks() == 0 {
            let it = Self::past_the_end(table);
            proof {
                assert(it.table_spec().sst_entries() =~= Seq::<(Seq<u8>, Seq<u8>)>::empty());
                assert(it.remaining() =~= it.table_spec().sst_entries().skip(
                    seek_pos(it.table_spec().sst_entries(), key@),
                ));
            }
            return Ok(it);
        }
        proof {
            (*table).lemma_seek_locate(key@);
        }
        let b = table.find_block_idx(key);
        let block = match table.read_block(b) {
            Ok(blk) => blk,
            Err(_) => {
                proof {
                    assert(false);
                }
                return Err(Error::OutOfRange);
            },
        };
        let mut block_iterator = BlockIterator::create_and_seek_to_key(block, key);
        let mut block_idx = b;
        let ghost blk_es = (*table).block_entries_at(b as int);
        let ghost q = seek_pos(blk_es, key@);
        proof {
            lemma_seek_pos_bounds(blk_es, key@);
            (*table).lemma_entries_from_suffix(b as int);
        }
        if !block_iterator.is_valid() {
            block_idx = b + 1;
            if block_idx < table.num_of_blocks() {
                let block2 = match table.read_block(block_idx) {
                    Ok(blk) => blk,
                    Err(_) => {
                        proof {
                            assert(false);
                        }
                        return Err(Error::OutOfRange);
                    },
                };
                block_iterator = BlockIterator::create_and_seek_to_first(block2);
            }
        }
        let it = SsTableIterator { table, block_iterator, block_idx };
        proof {
            let t = it.table_spec();
            let p = seek_pos(t.sst_entries(), key@);
            let start = t.sst_entries().len() - t.entries_from(b as int).len();
            let rest = t.entries_from(b as int + 1);
            assert(t.entries_from(b as int) == blk_es + rest);
            assert(t.entries_from(b as int) == t.sst_entries().skip(start));
            if q < blk_es.len() {
                lemma_concat_skip(blk_es, rest, q);
                lemma_skip_skip(t.sst_entries(), start, q);
                assert(it.remaining() =~= t.entries_from(b as int).skip(q));
                assert(it.remaining() =~= t.sst_entries().skip(p));
            } else {
                t.lemma_entries_from_suffix(b as int + 1);
                assert(it.remaining() =~= rest);
                assert(rest.len() == t.entries_from(b as int).len() - blk_es.len());
                assert(it.remaining() =~= t.sst_entries().skip(p));
            }
        }
        Ok(it)
    }

    /// Reposition at the least entry whose key is `>= key`.
    pub fn seek_to_key(&mut self, key: &[u8]) -> (r: Result<(), Error>)
        requires
            old(self).inv(),
        ensures
            final(self).inv(),
            final(self).table_spec() == old(self).table_spec(),
            r is Ok,
            final(self).remaining() == old(self).table_spec().sst_entries().skip(
                seek_pos(old(self).table_spec().sst_entries(), key@),
            ),
    {
        let table = clone_table_handle(&self.table);
        match Self::create_and_seek_to_key(table, key) {
            Ok(it) => {
                *self = it;
                Ok(())
            },
            Err(e) => Err(e),
        }
    }
}

impl StorageIterator for SsTableIterator {
    open spec fn no_fail(&self) -> bool {
        true
    }

    open spec fn inv(&self) -> bool {
        &&& self.table_spec().wf()
        &&& 0 <= self.idx_spec() <= self.table_spec().metas_spec().len()
        &&& (self.idx_spec() < self.table_spec().metas_spec().len() ==> {
            &&& self.blkit_spec().inv()
            &&& self.blkit_spec().entries() == self.table_spec().block_entries_at(self.idx_spec())
            &&& self.blkit_spec().idx_spec() < self.blkit_spec().entries().len()
        })
    }

    open spec fn remaining(&self) -> Seq<(Seq<u8>, Seq<u8>)> {
        if self.idx_spec() < self.table_spec().metas_spec().len() {
            self.blkit_spec().entries().skip(self.blkit_spec().idx_spec())
                + self.table_spec().entries_from(self.idx_spec() + 1)
        } else {
            Seq::empty()
        }
    }

    proof fn lemma_remaining_sorted(&self) {
        let t = self.table_spec();
        let i = self.idx_spec();
        if i < t.metas_spec().len() {
            t.lemma_entries_from_sorted(i);
            let es = t.entries_from(i);
            let p = self.blkit_spec().idx_spec();
            assert(es == t.block_entries_at(i) + t.entries_from(i + 1));
            assert(self.remaining() =~= es.skip(p));
            assert forall|a: int, b: int|
                0 <= a < b < self.remaining().len() implies crate::keys::key_lt(
                (#[trigger] self.remaining()[a]).0,
                (#[trigger] self.remaining()[b]).0,
            ) by {
                assert(self.remaining()[a] == es[p + a]);
                assert(self.remaining()[b] == es[p + b]);
            }
        }
    }

    fn key(&self) -> (k: &[u8]) {
        proof {
            assert(self.remaining()[0] == self.blkit_spec().entries()[self.blkit_spec().idx_spec()]);
        }
        self.block_iterator.key()
    }

    fn value(&self) -> (v: &[u8]) {
        proof {
            assert(self.remaining()[0] == self.blkit_spec().entries()[self.blkit_spec().idx_spec()]);
        }
        self.block_iterator.value()
    }

    fn is_valid(&self) -> (r: bool) {
        self.block_idx < self.table.num_of_blocks()
    }

    #[verifier::spinoff_prover]
    #[verifier::rlimit(50)]
    fn next(&mut self) -> (r: Result<(), Error>) {
        let n = self.table.num_of_blocks();
        if self.block_idx >= n {
            return Ok(());
        }
        let ghost t = self.table_spec();
        let ghost i = self.idx_spec();
        let ghost es = self.blkit_spec().entries();
        let ghost p = self.blkit_spec().idx_spec();
        let ghost rest = t.entries_from(i + 1);
        self.block_iterator.next();
        if self.block_iterator.is_valid() {
            proof {
                lemma_concat_skip_step(es, rest, p);
                assert(self.remaining() =~= es.skip(p + 1) + rest);
            }
            Ok(())
        } else {
            proof {
                lemma_concat_skip_last(es, rest, p);
            }
            self.block_idx = self.block_idx + 1;
            if self.block_idx < n {
                let block = match self.table.read_block(self.block_idx) {
                    Ok(b) => b,
                    Err(e) => {
                        proof {
                            assert(false);
                        }
                        return Err(e);
                    },
                };
                self.block_iterator = BlockIterator::create_and_seek_to_first(block);
                proof {
                    assert(rest == t.block_entries_at(i + 1) + t.entries_from(i + 2));
                    assert(self.remaining() =~= rest);
                }
            } else {
                proof {
                    assert(rest =~= Seq::<(Seq<u8>, Seq<u8>)>::empty());
                }
            }
            Ok(())
        }
    }
}

} // verus!
