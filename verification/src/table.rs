//! The sorted string table: concatenated blocks, a directory of per-block
//! meta records, and a trailing pointer to where the directory begins.
use std::sync::Arc;
use vstd::prelude::*;

use crate::block::{block_wf, entries_of, parse_block, Block};
use crate::codec::{
    lemma_u64_be_parse, lemma_u64_be_round_trip, push_u64_be, read_u64_be, spec_u64_from_be,
    spec_u64_to_be,
};
use crate::keys::{
    entries_sorted, key_le, key_lt, lemma_key_le_lt_trans, lemma_key_lt_le_trans,
    lemma_key_lt_total, lemma_key_lt_trans, lemma_seek_pos_all_below, lemma_seek_pos_bounds,
    lemma_seek_pos_concat, lt_keys, seek_pos,
};
use crate::Error;

verus! {

/// A directory record: where a block starts inside the file, and its first
/// key.
#[derive(Clone, Debug)]
pub struct BlockMeta {
    /// Byte offset of the block inside the file.
    pub offset: usize,
    /// The first key of the block.
    pub first_key: Vec<u8>,
}

/// The serialized form of one meta record: two 64-bit big-endian fields
/// (block offset, first-key length) and the first key.
pub open spec fn meta_record_bytes(offset: u64, key: Seq<u8>) -> Seq<u8> {
    spec_u64_to_be(offset) + spec_u64_to_be(key.len() as u64) + key
}

/// The serialized meta directory.
pub open spec fn metas_bytes(ms: Seq<BlockMeta>) -> Seq<u8>
    decreases ms.len(),
{
    if ms.len() == 0 {
        Seq::empty()
    } else {
        meta_record_bytes(ms[0].offset as u64, ms[0].first_key@) + metas_bytes(ms.drop_first())
    }
}

/// The deterministic parse of a meta directory: a sequence of
/// (offset, first key) records, or nothing if the bytes do not tile into
/// records.
pub open spec fn parse_metas(bytes: Seq<u8>) -> Option<Seq<(int, Seq<u8>)>>
    decreases bytes.len(),
{
    if bytes.len() == 0 {
        Option::Some(Seq::empty())
    } else if bytes.len() < 16 {
        Option::None
    } else {
        let off = spec_u64_from_be(bytes.subrange(0, 8)) as int;
        let klen = spec_u64_from_be(bytes.subrange(8, 16)) as int;
        if bytes.len() < 16 + klen || off > usize::MAX as int {
            Option::None
        } else {
            match parse_metas(bytes.skip(16 + klen)) {
                Option::Some(rest) => Option::Some(
                    seq![(off, bytes.subrange(16, 16 + klen))] + rest,
                ),
                Option::None => Option::None,
            }
        }
    }
}

/// The records a meta sequence stands for.
pub open spec fn metas_view(ms: Seq<BlockMeta>) -> Seq<(int, Seq<u8>)> {
    Seq::new(ms.len(), |i: int| (ms[i].offset as int, ms[i].first_key@))
}

/// Law of round-tripping for the directory, encode side.
#[verifier::spinoff_prover]
#[verifier::rlimit(50)]
pub proof fn lemma_parse_of_metas_bytes(ms: Seq<BlockMeta>)
    requires
        forall|i: int| 0 <= i < ms.len() ==> (#[trigger] ms[i].first_key)@.len() <= 65535,
    ensures
        parse_metas(metas_bytes(ms)) == Option::Some(metas_view(ms)),
    decreases ms.len(),
{
    if ms.len() == 0 {
        assert(metas_bytes(ms) =~= Seq::<u8>::empty());
        assert(metas_view(ms) =~= Seq::<(int, Seq<u8>)>::empty());
    } else {
        let key = ms[0].first_key@;
        let rec = meta_record_bytes(ms[0].offset as u64, key);
        let bytes = metas_bytes(ms);
        let tail = metas_bytes(ms.drop_first());
        assert(rec.len() == 16 + key.len());
        assert(bytes.len() >= 16 + key.len());
        assert(bytes.subrange(0, 8) =~= spec_u64_to_be(ms[0].offset as u64));
        lemma_u64_be_round_trip(ms[0].offset as u64);
        assert(spec_u64_from_be(bytes.subrange(0, 8)) == ms[0].offset as u64);
        assert(bytes.subrange(8, 16) =~= spec_u64_to_be(key.len() as u64));
        lemma_u64_be_round_trip(key.len() as u64);
        assert(spec_u64_from_be(bytes.subrange(8, 16)) == key.len() as u64);
        assert(bytes.subrange(16, 16 + key.len() as int) =~= key);
        assert(bytes.skip(16 + key.len() as int) =~= tail);
        assert(forall|i: int|
            0 <= i < ms.drop_first().len() ==> (#[trigger] ms.drop_first()[i].first_key)@.len()
                <= 65535);
        lemma_parse_of_metas_bytes(ms.drop_first());
        assert(parse_metas(bytes) == Option::Some(
            seq![(ms[0].offset as int, key)] + metas_view(ms.drop_first()),
        ));
        assert(metas_view(ms) =~= seq![(ms[0].offset as int, key)] + metas_view(ms.drop_first()));
    }
}

/// Law of round-tripping for the directory, decode side.
pub proof fn lemma_metas_bytes_of_parse(bytes: Seq<u8>, ms: Seq<BlockMeta>)
    requires
        parse_metas(bytes) is Some,
        metas_view(ms) == parse_metas(bytes).unwrap(),
    ensures
        metas_bytes(ms) == bytes,
    decreases bytes.len(),
{
    if bytes.len() == 0 {
        assert(parse_metas(bytes).unwrap() =~= Seq::<(int, Seq<u8>)>::empty());
        assert(ms.len() == 0);
        assert(metas_bytes(ms) =~= bytes);
    } else {
        let off = spec_u64_from_be(bytes.subrange(0, 8)) as int;
        let klen = spec_u64_from_be(bytes.subrange(8, 16)) as int;
        let rest = parse_metas(bytes.skip(16 + klen)).unwrap();
        let head = (off, bytes.subrange(16, 16 + klen));
        assert(parse_metas(bytes).unwrap() == seq![head] + rest);
        assert(ms.len() == metas_view(ms).len());
        assert(ms.len() == 1 + rest.len());
        assert(metas_view(ms)[0] == (ms[0].offset as int, ms[0].first_key@));
        assert((seq![head] + rest)[0] == head);
        assert(ms[0].offset as int == off);
        assert(ms[0].first_key@ == bytes.subrange(16, 16 + klen));
        assert(ms[0].first_key@.len() == klen);
        lemma_u64_be_parse(bytes.subrange(0, 8));
        lemma_u64_be_parse(bytes.subrange(8, 16));
        assert(ms[0].offset as u64 == spec_u64_from_be(bytes.subrange(0, 8)));
        assert(ms[0].first_key@.len() as u64 == spec_u64_from_be(bytes.subrange(8, 16)));
        assert(spec_u64_to_be(ms[0].offset as u64) == bytes.subrange(0, 8));
        assert(spec_u64_to_be(ms[0].first_key@.len() as u64) == bytes.subrange(8, 16));
        assert forall|i: int| 0 <= i < rest.len() implies metas_view(ms.drop_first())[i]
            == rest[i] by {
            assert(metas_view(ms)[i + 1] == (seq![head] + rest)[i + 1]);
        }
        assert(metas_view(ms.drop_first()) =~= rest);
        lemma_metas_bytes_of_parse(bytes.skip(16 + klen), ms.drop_first());
        assert(metas_bytes(ms) == meta_record_bytes(ms[0].offset as u64, ms[0].first_key@)
            + metas_bytes(ms.drop_first()));
        assert(metas_bytes(ms) =~= bytes);
    }
}

/// A sorted run whose last key sorts below `nxt`, itself below `key`,
/// holds only keys below `key`.
#[verifier::spinoff_prover]
proof fn lemma_run_all_below(blk: Seq<(Seq<u8>, Seq<u8>)>, nxt: Seq<u8>, key: Seq<u8>)
    requires
        entries_sorted(blk),
        blk.len() > 0 ==> key_lt(blk.last().0, nxt),
        key_lt(nxt, key),
    ensures
        seek_pos(blk, key) == blk.len(),
{
    assert forall|m: int| 0 <= m < blk.len() implies key_lt((#[trigger] blk[m]).0, key) by {
        assert(key_le(blk[m].0, blk.last().0)) by {
            if m < blk.len() - 1 {
                assert(key_lt(blk[m].0, blk.last().0));
            }
        }
        lemma_key_lt_trans(blk.last().0, nxt, key);
        lemma_key_le_lt_trans(blk[m].0, blk.last().0, key);
    }
    lemma_seek_pos_all_below(blk, key);
}

impl BlockMeta {
    /// Append the serialized directory for `block_meta` to `buf`.
    pub fn encode_block_meta(block_meta: &Vec<BlockMeta>, buf: &mut Vec<u8>)
        requires
            forall|i: int|
                0 <= i < block_meta@.len() ==> (#[trigger] block_meta@[i]).first_key@.len()
                    <= 65535,
        ensures
            final(buf)@ == old(buf)@ + metas_bytes(block_meta@),
    {
        let ghost orig = buf@;
        let mut i: usize = 0;
        while i < block_meta.len()
            invariant
                i <= block_meta@.len(),
                buf@ == orig + metas_bytes(block_meta@.take(i as int)),
            decreases block_meta@.len() - i,
        {
            let m = &block_meta[i];
            push_u64_be(buf, m.offset as u64);
            push_u64_be(buf, m.first_key.len() as u64);
            buf.extend_from_slice(m.first_key.as_slice());
            i = i + 1;
            proof {
                let taken = block_meta@.take(i as int);
                lemma_metas_bytes_snoc(taken);
                assert(taken.drop_last() =~= block_meta@.take(i as int - 1));
                assert(buf@ =~= orig + metas_bytes(taken));
            }
        }
        proof {
            assert(block_meta@.take(block_meta@.len() as int) =~= block_meta@);
        }
    }

    /// Parse a serialized directory; bytes that do not tile into records
    /// are reported, never read out of bounds.
    pub fn decode_block_meta(buf: &[u8]) -> (r: Result<Vec<BlockMeta>, Error>)
        ensures
            r is Ok <==> parse_metas(buf@) is Some,
            r matches Ok(ms) ==> metas_view(ms@) == parse_metas(buf@).unwrap(),
            r matches Err(e) ==> e == Error::Malformed,
    {
        let mut out: Vec<BlockMeta> = Vec::new();
        let mut pos: usize = 0;
        let n = buf.len();
        proof {
            assert(buf@.skip(0) =~= buf@);
            assert(metas_view(out@) =~= Seq::<(int, Seq<u8>)>::empty());
        }
        while pos < n
            invariant
                pos <= n,
                n == buf@.len(),
                parse_metas(buf@) is Some <==> parse_metas(buf@.skip(pos as int)) is Some,
                parse_metas(buf@) is Some ==> parse_metas(buf@).unwrap() == metas_view(out@)
                    + parse_metas(buf@.skip(pos as int)).unwrap(),
            decreases n - pos,
        {
            let ghost tail = buf@.skip(pos as int);
            if n - pos < 16 {
                proof {
                    assert(tail.len() > 0 && tail.len() < 16);
                }
                return Err(Error::Malformed);
            }
            let off64 = read_u64_be(buf, pos);
            let klen64 = read_u64_be(buf, pos + 8);
            proof {
                assert(tail.subrange(0, 8) =~= buf@.subrange(pos as int, pos as int + 8));
                assert(tail.subrange(8, 16) =~= buf@.subrange(pos as int + 8, pos as int + 16));
            }
            if klen64 > (n - pos - 16) as u64 {
                proof {
                    assert(tail.len() < 16 + klen64 as int);
                }
                return Err(Error::Malformed);
            }
            if off64 > usize::MAX as u64 {
                proof {
                    assert(parse_metas(tail) is None);
                }
                return Err(Error::Malformed);
            }
            let klen = klen64 as usize;
            let key = vstd::slice::slice_to_vec(
                vstd::slice::slice_subrange(buf, pos + 16, pos + 16 + klen),
            );
            proof {
                assert(key@ =~= tail.subrange(16, 16 + klen as int));
            }
            let off = off64 as usize;
            out.push(BlockMeta { offset: off, first_key: key });
            let ghost old_pos = pos as int;
            pos = pos + 16 + klen;
            proof {
                assert(buf@.skip(pos as int) =~= tail.skip(16 + klen as int));
                assert(metas_view(out@) =~= metas_view(out@.drop_last()) + seq![
                    (off as int, tail.subrange(16, 16 + klen as int)),
                ]);
                if parse_metas(tail) is Some {
                    assert(parse_metas(tail).unwrap() =~= seq![
                        (off as int, tail.subrange(16, 16 + klen as int)),
                    ] + parse_metas(tail.skip(16 + klen as int)).unwrap());
                    assert(metas_view(out@) + parse_metas(buf@.skip(pos as int)).unwrap()
                        =~= metas_view(out@.drop_last()) + parse_metas(tail).unwrap());
                }
            }
        }
        proof {
            assert(buf@.skip(n as int) =~= Seq::<u8>::empty());
            assert(parse_metas(buf@).unwrap() =~= metas_view(out@));
        }
        Ok(out)
    }
}

/// Appending one record to the directory appends its bytes.
pub proof fn lemma_metas_bytes_snoc(ms: Seq<BlockMeta>)
    requires
        ms.len() > 0,
    ensures
        metas_bytes(ms) == metas_bytes(ms.drop_last()) + meta_record_bytes(
            ms.last().offset as u64,
            ms.last().first_key@,
        ),
    decreases ms.len(),
{
    if ms.len() == 1 {
        assert(ms.drop_last() =~= Seq::<BlockMeta>::empty());
        assert(ms.drop_first() =~= Seq::<BlockMeta>::empty());
        assert(metas_bytes(Seq::<BlockMeta>::empty()) =~= Seq::<u8>::empty());
        assert(ms.last() == ms[0]);
        assert(metas_bytes(ms) =~= metas_bytes(ms.drop_last()) + meta_record_bytes(
            ms.last().offset as u64,
            ms.last().first_key@,
        ));
    } else {
        lemma_metas_bytes_snoc(ms.drop_first());
        assert(ms.drop_first().drop_last() =~= ms.drop_last().drop_first());
        assert(ms.drop_first().last() == ms.last());
        assert(ms.drop_last()[0] == ms[0]);
        assert(ms.drop_last().len() > 0);
        assert(metas_bytes(ms.drop_last()) == meta_record_bytes(
            ms.drop_last()[0].offset as u64,
            ms.drop_last()[0].first_key@,
        ) + metas_bytes(ms.drop_last().drop_first()));
        assert(metas_bytes(ms) =~= metas_bytes(ms.drop_last()) + meta_record_bytes(
            ms.last().offset as u64,
            ms.last().first_key@,
        ));
    }
}

/// An in-memory byte blob standing in for a stored file: random-access
/// reads with a range check.
#[derive(Debug)]
pub struct FileObject {
    data: Vec<u8>,
}

impl FileObject {
    /// The stored bytes.
    pub closed spec fn bytes(&self) -> Seq<u8> {
        self.data@
    }

    /// Wrap a byte blob.
    pub fn create(data: Vec<u8>) -> (r: Result<FileObject, Error>)
        ensures
            r is Ok,
            r matches Ok(f) ==> f.bytes() == data@,
    {
        Ok(FileObject { data })
    }

    /// The blob length.
    pub fn size(&self) -> (n: u64)
        ensures
            n == self.bytes().len(),
            self.bytes().len() <= usize::MAX,
    {
        self.data.len() as u64
    }

    /// The `len` bytes starting at `offset`; a span that leaves the blob is
    /// an error.
    pub fn read(&self, offset: u64, len: u64) -> (r: Result<Vec<u8>, Error>)
        ensures
            r is Ok <==> offset + len <= self.bytes().len(),
            r matches Ok(v) ==> v@ == self.bytes().subrange(
                offset as int,
                offset as int + len as int,
            ),
            r matches Err(e) ==> e == Error::OutOfRange,
    {
        let size = self.data.len() as u64;
        if offset > size || len > size - offset {
            return Err(Error::OutOfRange);
        }
        let lo = offset as usize;
        let hi = (offset + len) as usize;
        Ok(vstd::slice::slice_to_vec(vstd::slice::slice_subrange(self.data.as_slice(), lo, hi)))
    }
}

/// The deterministic parse of a table file: the trailing pointer, then the
/// directory it points at.
pub open spec fn parse_sst(bytes: Seq<u8>) -> Option<(Seq<(int, Seq<u8>)>, int)> {
    if bytes.len() < 8 {
        Option::None
    } else {
        let moff = spec_u64_from_be(bytes.subrange(bytes.len() - 8, bytes.len() as int)) as int;
        if moff > bytes.len() - 8 {
            Option::None
        } else {
            match parse_metas(bytes.subrange(moff, bytes.len() - 8)) {
                Option::Some(ms) => Option::Some((ms, moff)),
                Option::None => Option::None,
            }
        }
    }
}

/// An opened table: the file, its decoded directory, and where the
/// directory begins.
pub struct SsTable {
    file: FileObject,
    block_metas: Vec<BlockMeta>,
    block_meta_offset: usize,
}

impl SsTable {
    /// The file bytes.
    pub closed spec fn file_bytes(&self) -> Seq<u8> {
        self.file.bytes()
    }

    /// The directory.
    pub closed spec fn metas_spec(&self) -> Seq<BlockMeta> {
        self.block_metas@
    }

    /// Where the directory begins; the blocks occupy the bytes before it.
    pub closed spec fn meta_off_spec(&self) -> int {
        self.block_meta_offset as int
    }

    /// One past the last byte of block `i`: the next block's offset, or the
    /// directory for the last block.
    pub open spec fn block_span_end(&self, i: int) -> int {
        if i + 1 < self.metas_spec().len() {
            self.metas_spec()[i + 1].offset as int
        } else {
            self.meta_off_spec()
        }
    }

    /// The bytes of block `i`.
    pub open spec fn block_bytes_at(&self, i: int) -> Seq<u8> {
        self.file_bytes().subrange(self.metas_spec()[i].offset as int, self.block_span_end(i))
    }

    /// The entries of block `i`.
    pub open spec fn block_entries_at(&self, i: int) -> Seq<(Seq<u8>, Seq<u8>)> {
        let p = parse_block(self.block_bytes_at(i)).unwrap();
        entries_of(p.0, p.1)
    }

    /// The structural part of the invariant: the file is blocks, then the
    /// serialized directory, then the trailing pointer, with nothing
    /// between.
    pub open spec fn layout_wf(&self) -> bool {
        &&& self.meta_off_spec() + metas_bytes(self.metas_spec()).len() + 8
            == self.file_bytes().len()
        &&& self.file_bytes().subrange(self.meta_off_spec(), self.file_bytes().len() - 8)
            == metas_bytes(self.metas_spec())
        &&& self.file_bytes().subrange(self.file_bytes().len() - 8, self.file_bytes().len() as int)
            == spec_u64_to_be(self.meta_off_spec() as u64)
        &&& (self.metas_spec().len() == 0 ==> self.meta_off_spec() == 0)
        &&& (self.metas_spec().len() > 0 ==> self.metas_spec()[0].offset == 0)
        &&& forall|i: int|
            0 <= i < self.metas_spec().len() ==> ((#[trigger] self.metas_spec()[i].offset)
                as int) < self.block_span_end(i)
    }

    /// The full invariant: the layout holds, every block parses to a
    /// consistent, non-empty, sorted run whose first key the directory
    /// records, and block key ranges ascend.
    pub open spec fn wf(&self) -> bool {
        &&& self.layout_wf()
        &&& forall|i: int|
            0 <= i < self.metas_spec().len() ==> parse_block(#[trigger] self.block_bytes_at(i))
                is Some
        &&& forall|i: int|
            0 <= i < self.metas_spec().len() ==> (#[trigger] self.block_entries_at(i)).len() > 0
        &&& forall|i: int|
            0 <= i < self.metas_spec().len() ==> entries_sorted(#[trigger] self.block_entries_at(i))
        &&& forall|i: int|
            0 <= i < self.metas_spec().len() ==> (#[trigger] self.metas_spec()[i].first_key)@
                == self.block_entries_at(i)[0].0
        &&& forall|i: int|
            0 <= i < self.metas_spec().len() - 1 ==> key_lt(
                (#[trigger] self.block_entries_at(i)).last().0,
                self.block_entries_at(i + 1)[0].0,
            )
    }

    /// The entries of blocks `i` onward, concatenated.
    pub open spec fn entries_from(&self, i: int) -> Seq<(Seq<u8>, Seq<u8>)>
        decreases self.metas_spec().len() - i,
        when i >= 0
    
    {
        if i < 0 || i >= self.metas_spec().len() {
            Seq::empty()
        } else {
            self.block_entries_at(i) + self.entries_from(i + 1)
        }
    }

    /// Every entry of the table, in storage order.
    pub open spec fn sst_entries(&self) -> Seq<(Seq<u8>, Seq<u8>)> {
        self.entries_from(0)
    }

    /// Blocks sit inside the block region, before the directory.
    pub proof fn lemma_span_in_bounds(&self, i: int)
        requires
            self.layout_wf(),
            0 <= i < self.metas_spec().len(),
        ensures
            (self.metas_spec()[i].offset as int) < self.block_span_end(i),
            self.block_span_end(i) <= self.meta_off_spec(),
        decreases self.metas_spec().len() - i,
    {
        if i + 1 < self.metas_spec().len() {
            self.lemma_span_in_bounds(i + 1);
        }
    }

    /// From block `i` on, the entries are sorted, and none sorts below
    /// block `i`'s first key.
    pub proof fn lemma_entries_from_sorted(&self, i: int)
        requires
            self.wf(),
            0 <= i,
        ensures
            entries_sorted(self.entries_from(i)),
            forall|m: int|
                0 <= m < self.entries_from(i).len() && i < self.metas_spec().len() ==> key_le(
                    self.metas_spec()[i].first_key@,
                    (#[trigger] self.entries_from(i)[m]).0,
                ),
        decreases self.metas_spec().len() - i,
    {
        let n = self.metas_spec().len() as int;
        if i < n {
            self.lemma_entries_from_sorted(i + 1);
            let b = self.block_entries_at(i);
            let rest = self.entries_from(i + 1);
            let es = self.entries_from(i);
            assert(es == b + rest);
            let fk = self.metas_spec()[i].first_key@;
            assert(b[0].0 == fk);
            // every key of the block is at least the first and at most the last
            assert forall|p: int| 0 <= p < b.len() implies key_le(fk, (#[trigger] b[p]).0) && key_le(
                b[p].0,
                b.last().0,
            ) by {
                if p > 0 {
                    assert(key_lt(b[0].0, b[p].0));
                }
                if p < b.len() - 1 {
                    assert(key_lt(b[p].0, b.last().0));
                }
            }
            // every later entry sorts above this block's last key
            assert forall|q: int| 0 <= q < rest.len() implies key_lt(
                b.last().0,
                (#[trigger] rest[q]).0,
            ) by {
                assert(i + 1 < n);
                let fk1 = self.metas_spec()[i + 1].first_key@;
                assert(key_lt(b.last().0, fk1));
                assert(key_le(fk1, rest[q].0));
                lemma_key_lt_le_trans(b.last().0, fk1, rest[q].0);
            }
            assert forall|p: int, q: int| 0 <= p < q < es.len() implies key_lt(
                (#[trigger] es[p]).0,
                (#[trigger] es[q]).0,
            ) by {
                if p < b.len() && q >= b.len() {
                    assert(es[p] == b[p]);
                    assert(es[q] == rest[q - b.len()]);
                    lemma_key_le_lt_trans(b[p].0, b.last().0, rest[q - b.len()].0);
                }
            }
            assert forall|m: int| 0 <= m < es.len() implies key_le(fk, (#[trigger] es[m]).0) by {
                if m >= b.len() {
                    assert(es[m] == rest[m - b.len()]);
                    lemma_key_le_lt_trans(fk, b.last().0, rest[m - b.len()].0);
                }
            }
        }
    }

    /// The tail of the table from block `i` is a suffix of the whole entry
    /// sequence.
    pub proof fn lemma_entries_from_suffix(&self, i: int)
        requires
            0 <= i <= self.metas_spec().len(),
        ensures
            self.entries_from(i).len() <= self.sst_entries().len(),
            self.entries_from(i) == self.sst_entries().skip(
                self.sst_entries().len() - self.entries_from(i).len(),
            ),
        decreases i,
    {
        if i == 0 {
            assert(self.sst_entries().skip(0) =~= self.sst_entries());
        } else {
            self.lemma_entries_from_suffix(i - 1);
            let prev = self.entries_from(i - 1);
            let cur = self.entries_from(i);
            if i - 1 < self.metas_spec().len() {
                assert(prev == self.block_entries_at(i - 1) + cur);
                assert(prev.skip(prev.len() - cur.len()) =~= cur);
                assert(self.sst_entries().skip(self.sst_entries().len() - cur.len()) =~= cur);
            } else {
                assert(cur =~= prev);
            }
        }
    }

    pub(crate) fn from_parts(file: FileObject, block_metas: Vec<BlockMeta>, block_meta_offset: usize) -> (t: SsTable)
        ensures
            t.file_bytes() == file.bytes(),
            t.metas_spec() == block_metas@,
            t.meta_off_spec() == block_meta_offset as int,
    {
        SsTable { file, block_metas, block_meta_offset }
    }

    /// Law of the directory: in a consistent table the meta records ascend
    /// strictly, in byte offset and in first key alike.
    #[verifier::spinoff_prover]
    #[verifier::rlimit(50)]
    pub proof fn lemma_metas_ascend(&self, i: int, j: int)
        requires
            self.wf(),
            0 <= i < j < self.metas_spec().len(),
        ensures
            self.metas_spec()[i].offset < self.metas_spec()[j].offset,
            key_lt(self.metas_spec()[i].first_key@, self.metas_spec()[j].first_key@),
        decreases j - i,
    {
        if i + 1 < j {
            self.lemma_metas_ascend(i + 1, j);
        }
        self.lemma_span_in_bounds(i);
        let bi = self.block_entries_at(i);
        let bn = self.block_entries_at(i + 1);
        assert(key_le(bi[0].0, bi.last().0)) by {
            if bi.len() > 1 {
                assert(key_lt(bi[0].0, bi.last().0));
            }
        }
        assert(key_lt(bi.last().0, bn[0].0));
        lemma_key_le_lt_trans(bi[0].0, bi.last().0, bn[0].0);
        if i + 1 < j {
            lemma_key_lt_trans(
                self.metas_spec()[i].first_key@,
                self.metas_spec()[i + 1].first_key@,
                self.metas_spec()[j].first_key@,
            );
        }
    }

    /// Open a table file: read the trailing pointer, then decode the
    /// directory it points at. Blocks are not read.
    pub fn open(id: usize, file: FileObject) -> (r: Result<SsTable, Error>)
        ensures
            r is Ok <==> parse_sst(file.bytes()) is Some,
            r matches Ok(t) ==> {
                &&& t.file_bytes() == file.bytes()
                &&& t.meta_off_spec() == parse_sst(file.bytes()).unwrap().1
                &&& metas_view(t.metas_spec()) == parse_sst(file.bytes()).unwrap().0
            },
    {
        let size = file.size();
        if size < 8 {
            return Err(Error::Malformed);
        }
        let tail = match file.read(size - 8, 8) {
            Ok(v) => v,
            Err(_) => {
                return Err(Error::Malformed);
            },
        };
        let moff64 = read_u64_be(tail.as_slice(), 0);
        proof {
            assert(tail@.subrange(0, 8) =~= tail@);
            assert(tail@ == file.bytes().subrange(
                file.bytes().len() - 8,
                file.bytes().len() as int,
            ));
        }
        if moff64 > size - 8 {
            return Err(Error::Malformed);
        }
        let moff = moff64 as usize;
        let meta_region = match file.read(moff64, size - 8 - moff64) {
            Ok(v) => v,
            Err(_) => {
                return Err(Error::Malformed);
            },
        };
        proof {
            assert(meta_region@ == file.bytes().subrange(moff as int, file.bytes().len() - 8));
        }
        let metas = match BlockMeta::decode_block_meta(meta_region.as_slice()) {
            Ok(ms) => ms,
            Err(_) => {
                return Err(Error::Malformed);
            },
        };
        Ok(SsTable { file, block_metas: metas, block_meta_offset: moff })
    }

    /// Read and decode block `i`; an index past the directory is a range
    /// error. On a consistent table every in-range read succeeds and yields
    /// that block's entries.
    #[verifier::rlimit(60)]
    pub fn read_block(&self, block_idx: usize) -> (r: Result<Arc<Block>, Error>)
        ensures
            block_idx >= self.metas_spec().len() ==> r == Result::<Arc<Block>, Error>::Err(
                Error::OutOfRange,
            ),
            self.wf() && block_idx < self.metas_spec().len() ==> (r matches Ok(b) && (*b).wf()
                && (*b).entries() == self.block_entries_at(block_idx as int)),
    {
        if block_idx >= self.block_metas.len() {
            return Err(Error::OutOfRange);
        }
        proof {
            if self.wf() {
                self.lemma_span_in_bounds(block_idx as int);
            }
        }
        let offset = self.block_metas[block_idx].offset as u64;
        let end = if block_idx + 1 < self.block_metas.len() {
            self.block_metas[block_idx + 1].offset as u64
        } else {
            self.block_meta_offset as u64
        };
        if end < offset {
            return Err(Error::Malformed);
        }
        let span = match self.file.read(offset, end - offset) {
            Ok(v) => v,
            Err(e) => {
                return Err(e);
            },
        };
        proof {
            if self.wf() {
                assert(span@ == self.block_bytes_at(block_idx as int));
            }
        }
        let block = match Block::decode(span.as_slice()) {
            Ok(b) => b,
            Err(e) => {
                return Err(e);
            },
        };
        Ok(Arc::new(block))
    }

    /// Same as `read_block`; this table was opened without a cache, so
    /// there is nothing to consult.
    pub fn read_block_cached(&self, block_idx: usize) -> (r: Result<Arc<Block>, Error>)
        ensures
            block_idx >= self.metas_spec().len() ==> r == Result::<Arc<Block>, Error>::Err(
                Error::OutOfRange,
            ),
            self.wf() && block_idx < self.metas_spec().len() ==> (r matches Ok(b) && (*b).wf()
                && (*b).entries() == self.block_entries_at(block_idx as int)),
    {
        self.read_block(block_idx)
    }

    /// The index of the block that may contain `key`: the last block whose
    /// first key is at or below it, or the first block when every first key
    /// is above it.
    pub fn find_block_idx(&self, key: &[u8]) -> (r: usize)
        requires
            self.wf(),
        ensures
            r == Self::find_block_spec(self.metas_spec(), key@),
    {
        let n = self.block_metas.len();
        let mut p: usize = 0;
        while p < n
            invariant_except_break
                p <= n,
                n == self.metas_spec().len(),
                forall|m: int|
                    0 <= m < p ==> key_lt((#[trigger] self.metas_spec()[m].first_key)@, key@),
            ensures
                p <= n,
                n == self.metas_spec().len(),
                forall|m: int|
                    0 <= m < p ==> key_lt((#[trigger] self.metas_spec()[m].first_key)@, key@),
                p < n ==> !key_lt(self.metas_spec()[p as int].first_key@, key@),
            decreases n - p,
        {
            let below = lt_keys(self.block_metas[p].first_key.as_slice(), key);
            if !below {
                break ;
            }
            p = p + 1;
        }
        proof {
            Self::lemma_partition(self.metas_spec(), key@, p as int);
        }
        if p == 0 {
            0
        } else {
            p - 1
        }
    }

    /// The partition point of the directory on "first key below `key`",
    /// minus one, saturating at zero.
    pub open spec fn find_block_spec(ms: Seq<BlockMeta>, key: Seq<u8>) -> int {
        let p = Self::partition_point(ms, key);
        if p == 0 {
            0
        } else {
            p - 1
        }
    }

    /// The number of leading directory records whose first key is below
    /// `key`.
    pub open spec fn partition_point(ms: Seq<BlockMeta>, key: Seq<u8>) -> int
        decreases ms.len(),
    {
        if ms.len() == 0 {
            0
        } else if !key_lt(ms[0].first_key@, key) {
            0
        } else {
            1 + Self::partition_point(ms.drop_first(), key)
        }
    }

    /// The partition point is the unique boundary between first keys below
    /// `key` and the rest.
    pub proof fn lemma_partition(ms: Seq<BlockMeta>, key: Seq<u8>, p: int)
        requires
            0 <= p <= ms.len(),
            forall|m: int| 0 <= m < p ==> key_lt((#[trigger] ms[m].first_key)@, key),
            p < ms.len() ==> !key_lt(ms[p].first_key@, key),
        ensures
            Self::partition_point(ms, key) == p,
        decreases ms.len(),
    {
        if ms.len() > 0 {
            if p == 0 {
            } else {
                assert(key_lt(ms[0].first_key@, key));
                assert(forall|m: int|
                    0 <= m < p - 1 ==> #[trigger] ms.drop_first()[m] == ms[m + 1]);
                if p - 1 < ms.drop_first().len() {
                    assert(ms.drop_first()[p - 1] == ms[p]);
                }
                Self::lemma_partition(ms.drop_first(), key, p - 1);
            }
        }
    }

    /// The partition point splits the directory into first keys below
    /// `key` and the rest.
    pub proof fn lemma_partition_bounds(ms: Seq<BlockMeta>, key: Seq<u8>)
        ensures
            0 <= Self::partition_point(ms, key) <= ms.len(),
            forall|j: int|
                0 <= j < Self::partition_point(ms, key) ==> key_lt(
                    (#[trigger] ms[j].first_key)@,
                    key,
                ),
            Self::partition_point(ms, key) < ms.len() ==> !key_lt(
                ms[Self::partition_point(ms, key)].first_key@,
                key,
            ),
        decreases ms.len(),
    {
        if ms.len() > 0 && key_lt(ms[0].first_key@, key) {
            Self::lemma_partition_bounds(ms.drop_first(), key);
            assert(forall|j: int|
                1 <= j < Self::partition_point(ms, key) ==> #[trigger] ms[j] == ms.drop_first()[j
                    - 1]);
        }
    }

    /// A block whose successor's first key is still below `key` holds only
    /// keys below `key`.
    #[verifier::spinoff_prover]
    #[verifier::rlimit(50)]
    proof fn lemma_block_all_below(&self, key: Seq<u8>, j: int)
        requires
            self.wf(),
            0 <= j,
            j + 1 < self.metas_spec().len(),
            key_lt(self.metas_spec()[j + 1].first_key@, key),
        ensures
            seek_pos(self.block_entries_at(j), key) == self.block_entries_at(j).len(),
    {
        let blk = self.block_entries_at(j);
        let nxt = self.block_entries_at(j + 1);
        assert(key_lt(blk.last().0, nxt[0].0));
        assert(self.metas_spec()[j + 1].first_key@ == nxt[0].0);
        assert(entries_sorted(blk));
        lemma_run_all_below(blk, nxt[0].0, key);
    }

    /// Seeking past whole blocks accumulates their lengths.
    proof fn lemma_seek_accum(&self, key: Seq<u8>, i: int, b: int)
        requires
            self.wf(),
            0 <= i <= b,
            b < self.metas_spec().len(),
            forall|j: int|
                0 <= j < b ==> key_lt((#[trigger] self.metas_spec()[j + 1].first_key)@, key),
        ensures
            seek_pos(self.entries_from(i), key) == self.entries_from(i).len()
                - self.entries_from(b).len() + seek_pos(self.entries_from(b), key),
        decreases b - i,
    {
        lemma_seek_pos_bounds(self.entries_from(b), key);
        if i < b {
            self.lemma_seek_accum(key, i + 1, b);
            self.lemma_block_all_below(key, i);
            lemma_seek_pos_concat(self.block_entries_at(i), self.entries_from(i + 1), key);
            assert(self.entries_from(i) == self.block_entries_at(i) + self.entries_from(i + 1));
        }
    }

    /// Law of point location: seeking the whole table lands where seeking
    /// inside the located block lands — the blocks before it hold only
    /// smaller keys, and the blocks after it only larger ones.
    pub proof fn lemma_seek_locate(&self, key: Seq<u8>)
        requires
            self.wf(),
            self.metas_spec().len() > 0,
        ensures
            0 <= Self::find_block_spec(self.metas_spec(), key) < self.metas_spec().len(),
            seek_pos(self.entries_from(Self::find_block_spec(self.metas_spec(), key)), key)
                == seek_pos(
                self.block_entries_at(Self::find_block_spec(self.metas_spec(), key)),
                key,
            ),
            seek_pos(self.sst_entries(), key) == self.sst_entries().len() - self.entries_from(
                Self::find_block_spec(self.metas_spec(), key),
            ).len() + seek_pos(
                self.block_entries_at(Self::find_block_spec(self.metas_spec(), key)),
                key,
            ),
    {
        let ms = self.metas_spec();
        let n = ms.len() as int;
        let p0 = Self::partition_point(ms, key);
        Self::lemma_partition_bounds(ms, key);
        let b = Self::find_block_spec(ms, key);
        let blk = self.block_entries_at(b);
        let q = seek_pos(blk, key);
        lemma_seek_pos_bounds(blk, key);
        assert forall|j: int| 0 <= j < b implies key_lt(
            (#[trigger] ms[j + 1].first_key)@,
            key,
        ) by {
            assert(j + 1 < p0);
        }
        let rest = self.entries_from(b + 1);
        lemma_seek_pos_concat(blk, rest, key);
        assert(self.entries_from(b) == blk + rest);
        if q == blk.len() {
            if rest.len() > 0 {
                assert(b + 1 < n) by {
                    if b + 1 >= n {
                        assert(self.entries_from(b + 1).len() == 0);
                    }
                }
                assert(rest == self.block_entries_at(b + 1) + self.entries_from(b + 2));
                assert(rest[0] == self.block_entries_at(b + 1)[0]);
                assert(self.metas_spec()[b + 1].first_key@ == self.block_entries_at(b + 1)[0].0);
                if p0 == 0 {
                    assert(!key_lt(ms[0].first_key@, key));
                    lemma_key_lt_total(ms[0].first_key@, key);
                    self.lemma_metas_ascend(0, 1);
                    lemma_key_le_lt_trans(key, ms[0].first_key@, ms[1].first_key@);
                } else {
                    assert(b + 1 == p0);
                    assert(!key_lt(ms[p0].first_key@, key));
                    lemma_key_lt_total(ms[p0].first_key@, key);
                }
                assert(key_le(key, rest[0].0));
            }
            assert(seek_pos(rest, key) == 0);
        }
        assert(seek_pos(self.entries_from(b), key) == q);
        self.lemma_seek_accum(key, 0, b);
    }

    /// The number of blocks.
    pub fn num_of_blocks(&self) -> (n: usize)
        ensures
            n == self.metas_spec().len(),
    {
        self.block_metas.len()
    }
}

} // verus!
