//! A linear cursor over one block: seek to the first entry or to the least
//! entry at or above a key, then walk forward.
use std::sync::Arc;
use vstd::prelude::*;

use crate::block::Block;
use crate::keys::{
    key_le, key_lt, lemma_seek_pos_unique, lt_keys, seek_pos,
};

verus! {

/// A cursor over a shared block, holding a materialized copy of the current
/// entry.
pub struct BlockIterator {
    block: Arc<Block>,
    key: Vec<u8>,
    value: Vec<u8>,
    idx: usize,
}

impl BlockIterator {
    /// The block being iterated.
    pub closed spec fn block_spec(&self) -> Block {
        *self.block
    }

    /// The block's entries.
    pub open spec fn entries(&self) -> Seq<(Seq<u8>, Seq<u8>)> {
        self.block_spec().entries()
    }

    /// The current position.
    pub closed spec fn idx_spec(&self) -> int {
        self.idx as int
    }

    pub closed spec fn key_spec(&self) -> Seq<u8> {
        self.key@
    }

    pub closed spec fn value_spec(&self) -> Seq<u8> {
        self.value@
    }

    /// The cursor invariant: the block is consistent, the position is at
    /// most one past the last entry, and while in range the materialized
    /// entry is the one at the position.
    pub open spec fn inv(&self) -> bool {
        &&& self.block_spec().wf()
        &&& 0 <= self.idx_spec() <= self.entries().len()
        &&& (self.idx_spec() < self.entries().len() ==> self.key_spec()
            == self.entries()[self.idx_spec()].0 && self.value_spec()
            == self.entries()[self.idx_spec()].1)
    }

    /// Materialize the entry at the current position.
    fn seek_idx(&mut self)
        requires
            old(self).block_spec().wf(),
            old(self).idx_spec() < old(self).entries().len(),
        ensures
            final(self).inv(),
            final(self).block_spec() == old(self).block_spec(),
            final(self).idx_spec() == old(self).idx_spec(),
    {
        let (k, v) = self.block.read_entry(self.idx);
        self.key = k;
        self.value = v;
    }

    /// A cursor positioned at the first entry (or past the end of an empty
    /// block).
    pub fn create_and_seek_to_first(block: Arc<Block>) -> (r: Self)
        requires
            (*block).wf(),
        ensures
            r.inv(),
            r.block_spec() == *block,
            r.idx_spec() == 0,
    {
        let mut it = BlockIterator { block, key: Vec::new(), value: Vec::new(), idx: 0 };
        it.seek_to_first();
        it
    }

    /// A cursor positioned at the least entry whose key is `>= key`, or
    /// past the end if there is none.
    pub fn create_and_seek_to_key(block: Arc<Block>, key: &[u8]) -> (r: Self)
        requires
            (*block).wf(),
        ensures
            r.inv(),
            r.block_spec() == *block,
            r.idx_spec() == seek_pos((*block).entries(), key@),
    {
        let mut it = BlockIterator { block, key: Vec::new(), value: Vec::new(), idx: 0 };
        it.seek_to_key(key);
        it
    }

    /// The current entry's key.
    pub fn key(&self) -> (k: &[u8])
        requires
            self.inv(),
            self.idx_spec() < self.entries().len(),
        ensures
            k@ == self.entries()[self.idx_spec()].0,
    {
        self.key.as_slice()
    }

    /// The current entry's value.
    pub fn value(&self) -> (v: &[u8])
        requires
            self.inv(),
            self.idx_spec() < self.entries().len(),
        ensures
            v@ == self.entries()[self.idx_spec()].1,
    {
        self.value.as_slice()
    }

    /// Whether the position is in range.
    pub fn is_valid(&self) -> (r: bool)
        requires
            self.inv(),
        ensures
            r == (self.idx_spec() < self.entries().len()),
    {
        self.idx < self.block.num_entries()
    }

    /// Rewind to the first entry.
    pub fn seek_to_first(&mut self)
        requires
            old(self).block_spec().wf(),
        ensures
            final(self).inv(),
            final(self).block_spec() == old(self).block_spec(),
            final(self).idx_spec() == 0,
    {
        self.idx = 0;
        if 0 < self.block.num_entries() {
            self.seek_idx();
        }
    }

    /// Advance one entry; past-the-end cursors stay put.
    pub fn next(&mut self)
        requires
            old(self).inv(),
        ensures
            final(self).inv(),
            final(self).block_spec() == old(self).block_spec(),
            old(self).idx_spec() < old(self).entries().len() ==> final(self).idx_spec() == old(
                self,
            ).idx_spec() + 1,
            old(self).idx_spec() == old(self).entries().len() ==> final(self).idx_spec() == old(
                self,
            ).idx_spec(),
    {
        if self.idx < self.block.num_entries() {
            self.idx = self.idx + 1;
            if self.idx < self.block.num_entries() {
                self.seek_idx();
            }
        }
    }

    /// Position at the least entry whose key is `>= key` (a linear lower
    /// bound from the front), or past the end if every key is below `key`.
    pub fn seek_to_key(&mut self, key: &[u8])
        requires
            old(self).block_spec().wf(),
        ensures
            final(self).inv(),
            final(self).block_spec() == old(self).block_spec(),
            final(self).idx_spec() == seek_pos(old(self).entries(), key@),
    {
        self.seek_to_first();
        let ghost es = self.entries();
        loop
            invariant
                self.inv(),
                self.block_spec() == old(self).block_spec(),
                es == self.entries(),
                forall|m: int| 0 <= m < self.idx_spec() ==> key_lt(#[trigger] es[m].0, key@),
            ensures
                self.inv(),
                self.block_spec() == old(self).block_spec(),
                0 <= self.idx_spec() <= es.len(),
                forall|m: int| 0 <= m < self.idx_spec() ==> key_lt(#[trigger] es[m].0, key@),
                self.idx_spec() < es.len() ==> key_le(key@, es[self.idx_spec()].0),
            decreases es.len() - self.idx_spec(),
        {
            if !self.is_valid() {
                break ;
            }
            let below = lt_keys(self.key.as_slice(), key);
            if !below {
                proof {
                    crate::keys::lemma_key_lt_total(key@, es[self.idx_spec()].0);
                }
                break ;
            }
            self.next();
        }
        proof {
            lemma_seek_pos_unique(es, key@, self.idx_spec());
        }
    }
}

} // verus!
