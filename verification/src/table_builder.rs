//! Streams sorted entries into blocks and assembles the finished table
//! file: blocks, directory, trailing pointer.
use std::sync::Arc;
use vstd::prelude::*;

use crate::block::{entries_of, lemma_parse_of_block_bytes, parse_block};
use crate::block_builder::{entry_cost, BlockBuilder};
use crate::block_iterator::BlockIterator;
use crate::codec::{push_u64_be, spec_u64_to_be};
use crate::keys::{
    copy_key, entries_sorted, key_le, key_lt, lemma_key_le_lt_trans, lemma_key_lt_le_trans,
    lemma_key_lt_trans,
};
use crate::table::{metas_bytes, BlockMeta, FileObject, SsTable};
use crate::Error;

verus! {

/// One past the last byte of sealed block `i` inside the sealed region.
pub open spec fn span_end_b(metas: Seq<BlockMeta>, region_len: int, i: int) -> int {
    if i + 1 < metas.len() {
        metas[i + 1].offset as int
    } else {
        region_len
    }
}

/// The bytes of sealed block `i`.
pub open spec fn sealed_bytes_at(region: Seq<u8>, metas: Seq<BlockMeta>, i: int) -> Seq<u8> {
    region.subrange(metas[i].offset as int, span_end_b(metas, region.len() as int, i))
}

/// The entries of sealed block `i`.
pub open spec fn sealed_entries_at(region: Seq<u8>, metas: Seq<BlockMeta>, i: int) -> Seq<
    (Seq<u8>, Seq<u8>),
> {
    let p = parse_block(sealed_bytes_at(region, metas, i)).unwrap();
    entries_of(p.0, p.1)
}

/// The sealed region is a well-formed run of blocks: they tile it, each
/// parses to a non-empty sorted run, the directory records each first key,
/// and block key ranges ascend.
pub open spec fn sealed_ok(region: Seq<u8>, metas: Seq<BlockMeta>) -> bool {
    &&& (metas.len() == 0 ==> region.len() == 0)
    &&& (metas.len() > 0 ==> metas[0].offset == 0)
    &&& forall|i: int|
        0 <= i < metas.len() ==> ((#[trigger] metas[i].offset) as int) < span_end_b(
            metas,
            region.len() as int,
            i,
        )
    &&& forall|i: int|
        0 <= i < metas.len() ==> parse_block(#[trigger] sealed_bytes_at(region, metas, i)) is Some
    &&& forall|i: int|
        0 <= i < metas.len() ==> (#[trigger] sealed_entries_at(region, metas, i)).len() > 0
    &&& forall|i: int|
        0 <= i < metas.len() ==> entries_sorted(#[trigger] sealed_entries_at(region, metas, i))
    &&& forall|i: int|
        0 <= i < metas.len() ==> (#[trigger] metas[i].first_key)@ == sealed_entries_at(
            region,
            metas,
            i,
        )[0].0 && metas[i].first_key@.len() <= 65535
    &&& forall|i: int|
        0 <= i < metas.len() - 1 ==> key_lt(
            (#[trigger] sealed_entries_at(region, metas, i)).last().0,
            sealed_entries_at(region, metas, i + 1)[0].0,
        )
}

/// The entries of sealed blocks `i` onward, concatenated.
pub open spec fn sealed_from(region: Seq<u8>, metas: Seq<BlockMeta>, i: int) -> Seq<
    (Seq<u8>, Seq<u8>),
>
    decreases metas.len() - i,
{
    if i < 0 || i >= metas.len() {
        Seq::empty()
    } else {
        sealed_entries_at(region, metas, i) + sealed_from(region, metas, i + 1)
    }
}

/// Sealed spans sit inside the sealed region.
proof fn lemma_sealed_span_bounds(region: Seq<u8>, metas: Seq<BlockMeta>, i: int)
    requires
        0 <= i < metas.len(),
        forall|j: int|
            0 <= j < metas.len() ==> ((#[trigger] metas[j].offset) as int) < span_end_b(
                metas,
                region.len() as int,
                j,
            ),
    ensures
        span_end_b(metas, region.len() as int, i) <= region.len(),
    decreases metas.len() - i,
{
    if i + 1 < metas.len() {
        lemma_sealed_span_bounds(region, metas, i + 1);
    }
}

/// Sealing one block extends a well-formed sealed region into another,
/// appending the block's entries to the sealed stream.
#[verifier::spinoff_prover]
#[verifier::rlimit(60)]
proof fn lemma_seal_extend(
    r1: Seq<u8>,
    m1: Seq<BlockMeta>,
    d: Seq<u8>,
    o: Seq<u16>,
    m_new: BlockMeta,
)
    requires
        sealed_ok(r1, m1),
        crate::block::block_wf(d, o),
        entries_of(d, o).len() > 0,
        entries_sorted(entries_of(d, o)),
        m_new.offset as int == r1.len(),
        m_new.first_key@ == entries_of(d, o)[0].0,
        m1.len() > 0 ==> key_lt(
            sealed_entries_at(r1, m1, m1.len() - 1).last().0,
            entries_of(d, o)[0].0,
        ),
    ensures
        sealed_ok(r1 + crate::block::block_bytes(d, o), m1.push(m_new)),
        sealed_from(r1 + crate::block::block_bytes(d, o), m1.push(m_new), 0) == sealed_from(
            r1,
            m1,
            0,
        ) + entries_of(d, o),
{
    let enc = crate::block::block_bytes(d, o);
    let r2 = r1 + enc;
    let m2 = m1.push(m_new);
    let n1 = m1.len() as int;
    assert forall|j: int| 0 <= j < n1 implies #[trigger] sealed_bytes_at(r2, m2, j)
        == sealed_bytes_at(r1, m1, j) by {
        assert(m2[j] == m1[j]);
        lemma_sealed_span_bounds(r1, m1, j);
        assert(span_end_b(m2, r2.len() as int, j) == span_end_b(m1, r1.len() as int, j));
        assert(sealed_bytes_at(r2, m2, j) =~= sealed_bytes_at(r1, m1, j));
    }
    lemma_parse_of_block_bytes(d, o);
    assert(crate::block::block_bytes(d, o).len() >= 2);
    assert(sealed_bytes_at(r2, m2, n1) =~= enc);
    assert(sealed_entries_at(r2, m2, n1) == entries_of(d, o));
    assert(m2[n1].first_key@ == entries_of(d, o)[0].0);
    assert(entries_of(d, o)[0].0.len() <= 65535) by {
        assert(o[0] == 0);
        crate::block::lemma_entry_in_bounds(d, o, 0);
        assert(entries_of(d, o)[0] == crate::block::entry_at(d, o[0] as int));
        assert(entries_of(d, o)[0].0 == crate::block::key_at(d, 0));
    }
    assert forall|i: int| 0 <= i < n1 implies #[trigger] sealed_entries_at(r2, m2, i)
        == sealed_entries_at(r1, m1, i) by {
        assert(sealed_bytes_at(r2, m2, i) == sealed_bytes_at(r1, m1, i));
    }
    assert forall|i: int|
        0 <= i < m2.len() implies ((#[trigger] m2[i].offset) as int) < span_end_b(
        m2,
        r2.len() as int,
        i,
    ) by {
        if i < n1 {
            assert(((m1[i].offset) as int) < span_end_b(m1, r1.len() as int, i));
        }
    }
    assert forall|i: int| 0 <= i < m2.len() implies parse_block(
        #[trigger] sealed_bytes_at(r2, m2, i),
    ) is Some by {
        if i < n1 {
            assert(parse_block(sealed_bytes_at(r1, m1, i)) is Some);
            assert(sealed_bytes_at(r2, m2, i) == sealed_bytes_at(r1, m1, i));
        }
    }
    assert forall|i: int| 0 <= i < m2.len() implies (#[trigger] sealed_entries_at(r2, m2, i)).len()
        > 0 && entries_sorted(sealed_entries_at(r2, m2, i)) && m2[i].first_key@
        == sealed_entries_at(r2, m2, i)[0].0 && m2[i].first_key@.len() <= 65535 by {
        if i < n1 {
            assert(sealed_entries_at(r1, m1, i).len() > 0);
            assert(entries_sorted(sealed_entries_at(r1, m1, i)));
            assert(m1[i].first_key@ == sealed_entries_at(r1, m1, i)[0].0);
            assert(m1[i].first_key@.len() <= 65535);
        }
    }
    assert forall|i: int| 0 <= i < m2.len() - 1 implies key_lt(
        (#[trigger] sealed_entries_at(r2, m2, i)).last().0,
        sealed_entries_at(r2, m2, i + 1)[0].0,
    ) by {
        if i < n1 - 1 {
            assert(key_lt(
                sealed_entries_at(r1, m1, i).last().0,
                sealed_entries_at(r1, m1, i + 1)[0].0,
            ));
        } else {
            assert(i == n1 - 1);
            assert(sealed_entries_at(r2, m2, i) == sealed_entries_at(r1, m1, i));
        }
    }
    assert(sealed_ok(r2, m2));
    lemma_sealed_from_snoc(r1, m1, r2, m2, 0);
}

/// Sealing one more block appends its entries to the sealed stream.
proof fn lemma_sealed_from_snoc(
    r1: Seq<u8>,
    m1: Seq<BlockMeta>,
    r2: Seq<u8>,
    m2: Seq<BlockMeta>,
    i: int,
)
    requires
        m2.len() == m1.len() + 1,
        0 <= i <= m1.len(),
        forall|j: int|
            i <= j < m1.len() ==> #[trigger] sealed_entries_at(r2, m2, j) == sealed_entries_at(
                r1,
                m1,
                j,
            ),
    ensures
        sealed_from(r2, m2, i) == sealed_from(r1, m1, i) + sealed_entries_at(
            r2,
            m2,
            m1.len() as int,
        ),
    decreases m1.len() - i,
{
    if i == m1.len() {
        assert(sealed_from(r2, m2, i) == sealed_entries_at(r2, m2, i) + sealed_from(r2, m2, i + 1));
        assert(sealed_from(r2, m2, i + 1) =~= Seq::<(Seq<u8>, Seq<u8>)>::empty());
        assert(sealed_from(r1, m1, i) =~= Seq::<(Seq<u8>, Seq<u8>)>::empty());
        assert(sealed_from(r2, m2, i) =~= sealed_from(r1, m1, i) + sealed_entries_at(r2, m2, i));
    } else {
        lemma_sealed_from_snoc(r1, m1, r2, m2, i + 1);
        assert(sealed_from(r2, m2, i) =~= sealed_from(r1, m1, i) + sealed_entries_at(
            r2,
            m2,
            m1.len() as int,
        ));
    }
}

/// The sealed stream is non-empty once a block is sealed, and ends with
/// the last block's last entry.
proof fn lemma_sealed_from_last(region: Seq<u8>, metas: Seq<BlockMeta>, i: int)
    requires
        0 <= i < metas.len(),
        forall|j: int|
            0 <= j < metas.len() ==> (#[trigger] sealed_entries_at(region, metas, j)).len() > 0,
    ensures
        sealed_from(region, metas, i).len() > 0,
        sealed_from(region, metas, i).last() == sealed_entries_at(
            region,
            metas,
            metas.len() - 1,
        ).last(),
    decreases metas.len() - i,
{
    if i == metas.len() - 1 {
        assert(sealed_from(region, metas, i + 1) =~= Seq::<(Seq<u8>, Seq<u8>)>::empty());
        assert(sealed_from(region, metas, i) =~= sealed_entries_at(region, metas, i));
    } else {
        lemma_sealed_from_last(region, metas, i + 1);
        let a = sealed_entries_at(region, metas, i);
        let b = sealed_from(region, metas, i + 1);
        assert(sealed_from(region, metas, i) == a + b);
        assert((a + b).last() == b.last());
    }
}

/// A finished table reads back exactly the sealed stream.
proof fn lemma_entries_match(t: &SsTable, region: Seq<u8>, metas: Seq<BlockMeta>, i: int)
    requires
        t.metas_spec() == metas,
        t.meta_off_spec() == region.len(),
        forall|j: int|
            0 <= j < metas.len() ==> #[trigger] t.block_bytes_at(j) == sealed_bytes_at(
                region,
                metas,
                j,
            ),
        0 <= i,
    ensures
        t.entries_from(i) == sealed_from(region, metas, i),
    decreases metas.len() - i,
{
    if i < metas.len() {
        lemma_entries_match(t, region, metas, i + 1);
        assert(t.block_entries_at(i) == sealed_entries_at(region, metas, i));
        assert(t.entries_from(i) =~= sealed_from(region, metas, i));
    } else {
        assert(t.entries_from(i) =~= sealed_from(region, metas, i));
    }
}

/// A file laid out as sealed region, directory, trailing pointer is a
/// consistent table holding exactly the sealed stream.
#[verifier::spinoff_prover]
#[verifier::rlimit(60)]
proof fn lemma_finish(t: &SsTable, region: Seq<u8>, metas: Seq<BlockMeta>)
    requires
        sealed_ok(region, metas),
        t.metas_spec() == metas,
        t.meta_off_spec() == region.len(),
        t.file_bytes() == region + metas_bytes(metas) + spec_u64_to_be(region.len() as u64),
    ensures
        t.wf(),
        t.sst_entries() == sealed_from(region, metas, 0),
{
    assert(t.file_bytes().subrange(t.meta_off_spec(), t.file_bytes().len() - 8) =~= metas_bytes(
        metas,
    ));
    assert(t.file_bytes().subrange(t.file_bytes().len() - 8, t.file_bytes().len() as int)
        =~= spec_u64_to_be(region.len() as u64));
    assert forall|j: int| 0 <= j < metas.len() implies #[trigger] t.block_bytes_at(j)
        == sealed_bytes_at(region, metas, j) by {
        lemma_sealed_span_bounds(region, metas, j);
        assert(t.block_span_end(j) == span_end_b(metas, region.len() as int, j));
        assert(t.block_bytes_at(j) =~= sealed_bytes_at(region, metas, j));
    }
    assert forall|j: int| 0 <= j < metas.len() implies #[trigger] t.block_entries_at(j)
        == sealed_entries_at(region, metas, j) by {
        assert(t.block_bytes_at(j) == sealed_bytes_at(region, metas, j));
    }
    assert forall|j: int|
        0 <= j < metas.len() implies ((#[trigger] t.metas_spec()[j].offset) as int)
        < t.block_span_end(j) by {
        assert(((metas[j].offset) as int) < span_end_b(metas, region.len() as int, j));
        assert(t.block_span_end(j) == span_end_b(metas, region.len() as int, j));
    }
    assert(t.layout_wf());
    assert forall|j: int| 0 <= j < metas.len() implies parse_block(
        #[trigger] t.block_bytes_at(j),
    ) is Some by {
        assert(parse_block(sealed_bytes_at(region, metas, j)) is Some);
    }
    assert forall|j: int| 0 <= j < metas.len() implies (#[trigger] t.block_entries_at(j)).len() > 0
        && entries_sorted(t.block_entries_at(j)) && t.metas_spec()[j].first_key@
        == t.block_entries_at(j)[0].0 by {
        assert(sealed_entries_at(region, metas, j).len() > 0);
        assert(entries_sorted(sealed_entries_at(region, metas, j)));
        assert(metas[j].first_key@ == sealed_entries_at(region, metas, j)[0].0);
    }
    assert forall|j: int| 0 <= j < metas.len() - 1 implies key_lt(
        (#[trigger] t.block_entries_at(j)).last().0,
        t.block_entries_at(j + 1)[0].0,
    ) by {
        assert(key_lt(
            sealed_entries_at(region, metas, j).last().0,
            sealed_entries_at(region, metas, j + 1)[0].0,
        ));
    }
    assert(t.wf());
    lemma_entries_match(t, region, metas, 0);
}

/// Builds a table from a strictly ascending entry stream, rolling blocks as
/// each fills.
pub struct SsTableBuilder {
    meta: Vec<BlockMeta>,
    block_builder: BlockBuilder,
    blocks: Vec<u8>,
    block_size: usize,
}

impl SsTableBuilder {
    /// The sealed region.
    pub closed spec fn region_spec(&self) -> Seq<u8> {
        self.blocks@
    }

    /// The directory so far.
    pub closed spec fn metas_spec(&self) -> Seq<BlockMeta> {
        self.meta@
    }

    /// The block builder holding the entries not yet sealed.
    pub closed spec fn pending_spec(&self) -> BlockBuilder {
        self.block_builder
    }

    /// The block byte budget.
    pub closed spec fn block_size_spec(&self) -> int {
        self.block_size as int
    }

    /// Every entry accepted so far, sealed blocks first, in order.
    pub open spec fn all_entries(&self) -> Seq<(Seq<u8>, Seq<u8>)> {
        sealed_from(self.region_spec(), self.metas_spec(), 0) + self.pending_spec().pairs()
    }

    /// The builder invariant: the sealed region is a well-formed block run,
    /// the pending block is consistent and sorted, and the pending entries
    /// sort above every sealed one.
    pub open spec fn wf(&self) -> bool {
        &&& sealed_ok(self.region_spec(), self.metas_spec())
        &&& self.pending_spec().wf()
        &&& self.pending_spec().capacity_spec() == if self.block_size_spec()
            > crate::block_builder::MAX_BLOCK_CAPACITY as int {
            crate::block_builder::MAX_BLOCK_CAPACITY as int
        } else {
            self.block_size_spec()
        }
        &&& entries_sorted(self.pending_spec().pairs())
        &&& (self.metas_spec().len() > 0 && self.pending_spec().pairs().len() > 0 ==> key_lt(
            sealed_entries_at(
                self.region_spec(),
                self.metas_spec(),
                self.metas_spec().len() - 1,
            ).last().0,
            self.pending_spec().pairs()[0].0,
        ))
    }

    /// A fresh builder around the given block byte budget.
    pub fn new(block_size: usize) -> (r: Self)
        ensures
            r.wf(),
            r.all_entries() == Seq::<(Seq<u8>, Seq<u8>)>::empty(),
            r.block_size_spec() == block_size as int,
    {
        let r = SsTableBuilder {
            meta: Vec::new(),
            block_builder: BlockBuilder::new(block_size),
            blocks: Vec::new(),
            block_size,
        };
        proof {
            assert(sealed_from(r.region_spec(), r.metas_spec(), 0) =~= Seq::<
                (Seq<u8>, Seq<u8>),
            >::empty());
            assert(r.all_entries() =~= Seq::<(Seq<u8>, Seq<u8>)>::empty());
        }
        r
    }

    /// Seal the pending block: append its serialized bytes to the region
    /// and record its offset and first key in the directory. The accepted
    /// entry stream is unchanged; the pending block becomes empty.
    pub fn build_block(&mut self)
        requires
            old(self).wf(),
            old(self).pending_spec().pairs().len() > 0,
        ensures
            final(self).wf(),
            final(self).all_entries() == old(self).all_entries(),
            final(self).pending_spec().pairs().len() == 0,
            final(self).block_size_spec() == old(self).block_size_spec(),
            final(self).metas_spec().len() == old(self).metas_spec().len() + 1,
            final(self).metas_spec().drop_last() == old(self).metas_spec(),
            final(self).metas_spec().last().first_key@ == old(self).pending_spec().pairs()[0].0,
    {
        let ghost r1 = self.blocks@;
        let ghost m1 = self.meta@;
        let ghost pairs = self.block_builder.pairs();
        let mut pending = BlockBuilder::new(self.block_size);
        std::mem::swap(&mut self.block_builder, &mut pending);
        let block = pending.build();
        let encoded = block.encode();
        let ghost enc = encoded@;
        let offset = self.blocks.len();
        let mut encoded_vec = encoded;
        self.blocks.append(&mut encoded_vec);
        let arc = Arc::new(block);
        let it = BlockIterator::create_and_seek_to_first(arc);
        let first_key = copy_key(it.key());
        self.meta.push(BlockMeta { offset, first_key });
        proof {
            let d = (*arc).data_spec();
            let o = (*arc).offsets_spec();
            lemma_seal_extend(r1, m1, d, o, self.meta@.last());
            assert(self.blocks@ =~= r1 + crate::block::block_bytes(d, o));
            assert(self.meta@ =~= m1.push(self.meta@.last()));
            assert(self.all_entries() =~= old(self).all_entries());
        }
    }

    /// Accept the next entry of a strictly ascending stream: into the
    /// pending block if it fits, else into a fresh one.
    #[verifier::rlimit(60)]
    pub fn add(&mut self, key: &[u8], value: &[u8])
        requires
            old(self).wf(),
            key@.len() <= 65535,
            value@.len() <= 65535,
            old(self).all_entries().len() > 0 ==> key_lt(old(self).all_entries().last().0, key@),
        ensures
            final(self).wf(),
            final(self).all_entries() == old(self).all_entries().push((key@, value@)),
            final(self).block_size_spec() == old(self).block_size_spec(),
            ({
                // the rolling rule: the entry joins the pending block when
                // its cost still fits the budget (or the block is empty);
                // otherwise the pending block is sealed first and the entry
                // opens a fresh one
                let pend = old(self).pending_spec();
                let fits = pend.pairs().len() == 0 || pend.size_spec() + entry_cost(key@, value@)
                    <= pend.capacity_spec();
                if fits {
                    final(self).metas_spec() == old(self).metas_spec()
                        && final(self).pending_spec().pairs() == pend.pairs().push((key@, value@))
                } else {
                    final(self).metas_spec().len() == old(self).metas_spec().len() + 1
                        && final(self).metas_spec().drop_last() == old(self).metas_spec()
                        && final(self).metas_spec().last().first_key@ == pend.pairs()[0].0
                        && final(self).pending_spec().pairs() == seq![(key@, value@)]
                }
            }),
    {
        let ghost pre = *old(self);
        let admitted = self.block_builder.add(key, value);
        if admitted {
            proof {
                let pairs0 = pre.pending_spec().pairs();
                let pairs1 = self.pending_spec().pairs();
                let sealed = sealed_from(pre.region_spec(), pre.metas_spec(), 0);
                assert(pairs1 == pairs0.push((key@, value@)));
                if pairs0.len() > 0 {
                    assert(pre.all_entries().last() == pairs0.last());
                    assert(key_lt(pairs0.last().0, key@));
                    assert forall|m: int| 0 <= m < pairs0.len() implies key_lt(
                        (#[trigger] pairs1[m]).0,
                        key@,
                    ) by {
                        assert(pairs1[m] == pairs0[m]);
                        if m < pairs0.len() - 1 {
                            assert(key_lt(pairs0[m].0, pairs0.last().0));
                            lemma_key_lt_trans(pairs0[m].0, pairs0.last().0, key@);
                        }
                    }
                    assert(entries_sorted(pairs1));
                } else {
                    assert(entries_sorted(pairs1));
                    if pre.metas_spec().len() > 0 {
                        lemma_sealed_from_last(pre.region_spec(), pre.metas_spec(), 0);
                        assert(pre.all_entries().last() == sealed.last());
                        assert(pairs1[0] == (key@, value@));
                    }
                }
                assert(self.all_entries() =~= pre.all_entries().push((key@, value@)));
            }
        } else {
            proof {
                assert(pre.pending_spec().pairs().len() > 0);
                assert(pre.all_entries().len() > 0);
            }
            self.build_block();
            let ghost mid = *self;
            let admitted_fresh = self.block_builder.add(key, value);
            assert(admitted_fresh);
            proof {
                let pairs1 = self.pending_spec().pairs();
                assert(pairs1 == mid.pending_spec().pairs().push((key@, value@)));
                assert(pairs1.len() == 1);
                assert(entries_sorted(pairs1));
                assert(mid.metas_spec().len() > 0);
                lemma_sealed_from_last(mid.region_spec(), mid.metas_spec(), 0);
                let sealed = sealed_from(mid.region_spec(), mid.metas_spec(), 0);
                assert(mid.all_entries() =~= sealed);
                assert(mid.all_entries() == pre.all_entries());
                assert(key_lt(sealed.last().0, key@));
                assert(pairs1[0] == (key@, value@));
                assert(self.all_entries() =~= pre.all_entries().push((key@, value@)));
            }
        }
    }

    /// An upper bound on the bytes already sealed.
    pub fn estimated_size(&self) -> (n: usize)
        ensures
            n == self.region_spec().len(),
    {
        self.blocks.len()
    }

    /// Finish the table: seal any pending entries, append the directory and
    /// the trailing pointer, and open the result in memory. The table is
    /// consistent and holds exactly the accepted entries.
    pub fn build(self, id: usize) -> (r: Result<SsTable, Error>)
        requires
            self.wf(),
        ensures
            r is Ok,
            r matches Ok(t) ==> t.wf() && t.sst_entries() == self.all_entries(),
            r matches Ok(t) ==> ({
                if self.pending_spec().pairs().len() == 0 {
                    t.metas_spec() == self.metas_spec()
                } else {
                    t.metas_spec().len() == self.metas_spec().len() + 1
                        && t.metas_spec().drop_last() == self.metas_spec()
                        && t.metas_spec().last().first_key@ == self.pending_spec().pairs()[0].0
                }
            }),
    {
        let mut this = self;
        if !this.block_builder.is_empty() {
            this.build_block();
        }
        let ghost region = this.blocks@;
        let ghost metas = this.meta@;
        let meta_offset = this.blocks.len();
        let mut file_bytes = this.blocks;
        BlockMeta::encode_block_meta(&this.meta, &mut file_bytes);
        push_u64_be(&mut file_bytes, meta_offset as u64);
        let ghost fb = file_bytes@;
        let file = match FileObject::create(file_bytes) {
            Ok(f) => f,
            Err(e) => {
                return Err(e);
            },
        };
        let t = SsTable::from_parts(file, this.meta, meta_offset);
        proof {
            assert(t.file_bytes() =~= region + metas_bytes(metas) + spec_u64_to_be(
                meta_offset as u64,
            ));
            lemma_finish(&t, region, metas);
            assert(this.all_entries() =~= sealed_from(region, metas, 0));
        }
        Ok(t)
    }
}

} // verus!
