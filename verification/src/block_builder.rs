//! Accumulates key/value entries into a block until a byte budget is
//! reached.
use vstd::prelude::*;

use crate::block::{
    block_bytes, block_wf, entries_of, entry_at, entry_bound, entry_end, key_at, klen_at,
    lemma_data_len_min, lemma_entry_in_bounds, lemma_entry_stable, lemma_offsets_bytes_len, val_at,
    vlen_at, Block,
};
use crate::codec::{lemma_u16_be_round_trip, push_u16_be, spec_u16_to_be};

verus! {

/// The bytes an entry accounts for against the budget: its key and value,
/// two 16-bit length fields, and its 16-bit slot in the offset table.
pub open spec fn entry_cost(key: Seq<u8>, value: Seq<u8>) -> int {
    key.len() + value.len() + 6int
}

/// The largest budget under which every entry offset still fits its 16-bit
/// field.
pub const MAX_BLOCK_CAPACITY: usize = 65529;

/// Builds a block: pending data region, pending offsets, and the running
/// byte account against the budget.
pub struct BlockBuilder {
    capacity: usize,
    size: usize,
    data: Vec<u8>,
    offsets: Vec<u16>,
}

impl BlockBuilder {
    /// The pending data region.
    pub closed spec fn data_spec(&self) -> Seq<u8> {
        self.data@
    }

    /// The pending offset table.
    pub closed spec fn offsets_spec(&self) -> Seq<u16> {
        self.offsets@
    }

    /// The byte budget (after clamping).
    pub closed spec fn capacity_spec(&self) -> int {
        self.capacity as int
    }

    /// The running byte account.
    pub closed spec fn size_spec(&self) -> int {
        self.size as int
    }

    /// The entries appended so far, in insertion order.
    pub open spec fn pairs(&self) -> Seq<(Seq<u8>, Seq<u8>)> {
        entries_of(self.data_spec(), self.offsets_spec())
    }

    /// The builder's invariant: the pending region is a consistent block,
    /// the account matches it, and any block of two or more entries stays
    /// within the budget (a single entry may exceed it).
    pub open spec fn wf(&self) -> bool {
        &&& block_wf(self.data_spec(), self.offsets_spec())
        &&& self.capacity_spec() <= MAX_BLOCK_CAPACITY as int
        &&& self.size_spec() == self.data_spec().len() + 2 * self.offsets_spec().len()
        &&& (self.offsets_spec().len() >= 2 ==> self.size_spec() <= self.capacity_spec())
        &&& (self.offsets_spec().len() <= 1 ==> self.size_spec() <= 131076)
    }

    /// A fresh builder with the given byte budget; budgets beyond the
    /// largest offset-addressable size are clamped to it.
    pub fn new(block_size: usize) -> (r: Self)
        ensures
            r.wf(),
            r.pairs() == Seq::<(Seq<u8>, Seq<u8>)>::empty(),
            r.size_spec() == 0,
            r.capacity_spec() == if block_size > MAX_BLOCK_CAPACITY as int {
                MAX_BLOCK_CAPACITY as int
            } else {
                block_size as int
            },
    {
        let capacity = if block_size > MAX_BLOCK_CAPACITY {
            MAX_BLOCK_CAPACITY
        } else {
            block_size
        };
        let r = BlockBuilder { capacity, size: 0, data: Vec::new(), offsets: Vec::new() };
        proof {
            assert(r.pairs() =~= Seq::<(Seq<u8>, Seq<u8>)>::empty());
        }
        r
    }

    /// Append a key/value pair unless the block is full: an entry never fits
    /// a non-empty builder when its cost would push the account past the
    /// budget, while a first entry is always admitted, even oversized. On
    /// refusal nothing changes.
    pub fn add(&mut self, key: &[u8], value: &[u8]) -> (r: bool)
        requires
            old(self).wf(),
            key@.len() <= 65535,
            value@.len() <= 65535,
        ensures
            final(self).wf(),
            r == (old(self).pairs().len() == 0 || old(self).size_spec() + entry_cost(key@, value@)
                <= old(self).capacity_spec()),
            r ==> final(self).pairs() == old(self).pairs().push((key@, value@)),
            r ==> final(self).size_spec() == old(self).size_spec() + entry_cost(key@, value@),
            final(self).capacity_spec() == old(self).capacity_spec(),
            !r ==> *final(self) == *old(self),
            !r ==> final(self).size_spec() == old(self).size_spec(),
            !r ==> final(self).pairs() == old(self).pairs(),
            !r ==> final(self).data_spec() == old(self).data_spec(),
            !r ==> final(self).offsets_spec() == old(self).offsets_spec(),
    {
        let cost = key.len() + value.len() + 6;
        if self.offsets.len() > 0 && self.size + cost > self.capacity {
            return false;
        }
        let ghost d1 = self.data@;
        let ghost o1 = self.offsets@;
        let ghost n1 = o1.len() as int;
        proof {
            lemma_data_len_min(d1, o1);
            if n1 > 0 {
                assert(2 * n1 <= self.size_spec());
            }
        }
        let off = self.data.len() as u16;
        self.offsets.push(off);
        push_u16_be(&mut self.data, key.len() as u16);
        self.data.extend_from_slice(key);
        push_u16_be(&mut self.data, value.len() as u16);
        self.data.extend_from_slice(value);
        self.size = self.size + cost;
        proof {
            let d2 = self.data@;
            let o2 = self.offsets@;
            let off0 = d1.len() as int;
            assert(d2 =~= d1 + spec_u16_to_be(key@.len() as u16) + key@ + spec_u16_to_be(
                value@.len() as u16,
            ) + value@);
            lemma_u16_be_round_trip(key@.len() as u16);
            lemma_u16_be_round_trip(value@.len() as u16);
            assert(d2.subrange(off0, off0 + 2) =~= spec_u16_to_be(key@.len() as u16));
            assert(klen_at(d2, off0) == key@.len());
            assert(d2.subrange(off0 + 2, off0 + 2 + key@.len()) =~= key@);
            assert(key_at(d2, off0) == key@);
            assert(d2.subrange(off0 + 2 + key@.len(), off0 + 4 + key@.len()) =~= spec_u16_to_be(
                value@.len() as u16,
            ));
            assert(vlen_at(d2, off0) == value@.len());
            assert(d2.subrange(off0 + 4 + key@.len(), off0 + 4 + key@.len() + value@.len())
                =~= value@);
            assert(val_at(d2, off0) == value@);
            assert(entry_end(d2, off0) == d2.len());
            assert forall|i: int| 0 <= i < n1 implies {
                &&& entry_end(d2, o1[i] as int) == entry_end(d1, o1[i] as int)
                &&& entry_at(d2, o1[i] as int) == entry_at(d1, o1[i] as int)
            } by {
                lemma_entry_in_bounds(d1, o1, i);
                lemma_entry_stable(d1, d2, o1[i] as int);
            }
            assert forall|i: int|
                0 <= i < o2.len() implies #[trigger] entry_end(d2, o2[i] as int) == entry_bound(
                d2,
                o2,
                i,
            ) by {
                if i < n1 {
                    assert(o2[i] == o1[i]);
                    assert(entry_end(d1, o1[i] as int) == entry_bound(d1, o1, i));
                    if i + 1 < n1 {
                        assert(entry_bound(d2, o2, i) == o1[i + 1] as int);
                    } else {
                        assert(entry_bound(d2, o2, i) == off0);
                    }
                } else {
                    assert(o2[i] == off as u16);
                    assert(entry_bound(d2, o2, i) == d2.len() as int);
                }
            }
            assert(block_wf(d2, o2));
            assert(self.pairs() =~= old(self).pairs().push((key@, value@)));
        }
        true
    }

    /// Whether no entry has been appended yet.
    pub fn is_empty(&self) -> (r: bool)
        requires
            self.wf(),
        ensures
            r == (self.pairs().len() == 0),
    {
        self.size == 0
    }

    /// Seal the builder into an immutable block holding exactly the
    /// appended entries; its serialized form is the account plus the two
    /// header bytes.
    pub fn build(self) -> (b: Block)
        requires
            self.wf(),
        ensures
            b.wf(),
            b.entries() == self.pairs(),
            b.bytes_spec().len() == self.size_spec() + 2,
    {
        proof {
            lemma_offsets_bytes_len(self.offsets@);
        }
        Block::from_parts(self.data, self.offsets)
    }
}

} // verus!
