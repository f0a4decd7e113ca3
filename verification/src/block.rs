//! The block: the smallest unit of read and caching. A sorted run of
//! key/value entries, serialized as a 16-bit entry count, a table of 16-bit
//! entry offsets, and the entries back to back, all big-endian.
use vstd::prelude::*;

use crate::codec::{
    lemma_u16_be_parse, lemma_u16_be_round_trip, push_u16_be, read_u16_be, spec_u16_from_be,
    spec_u16_to_be,
};
use crate::Error;

verus! {

/// The key length field of the entry at byte offset `off` of the data
/// region.
pub open spec fn klen_at(data: Seq<u8>, off: int) -> int {
    spec_u16_from_be(data.subrange(off, off + 2)) as int
}

/// The key bytes of the entry at `off`.
pub open spec fn key_at(data: Seq<u8>, off: int) -> Seq<u8> {
    data.subrange(off + 2, off + 2 + klen_at(data, off))
}

/// The value length field of the entry at `off`.
pub open spec fn vlen_at(data: Seq<u8>, off: int) -> int {
    spec_u16_from_be(data.subrange(off + 2 + klen_at(data, off), off + 4 + klen_at(data, off)))
        as int
}

/// The value bytes of the entry at `off`.
pub open spec fn val_at(data: Seq<u8>, off: int) -> Seq<u8> {
    data.subrange(
        off + 4 + klen_at(data, off),
        off + 4 + klen_at(data, off) + vlen_at(data, off),
    )
}

/// The entry at `off` as a pair.
pub open spec fn entry_at(data: Seq<u8>, off: int) -> (Seq<u8>, Seq<u8>) {
    (key_at(data, off), val_at(data, off))
}

/// One past the last byte of the entry at `off`.
pub open spec fn entry_end(data: Seq<u8>, off: int) -> int {
    off + 4 + klen_at(data, off) + vlen_at(data, off)
}

/// Where the entry at index `i` must end: at the next entry's offset, or at
/// the end of the data region for the last entry.
pub open spec fn entry_bound(data: Seq<u8>, offsets: Seq<u16>, i: int) -> int {
    if i + 1 < offsets.len() {
        offsets[i + 1] as int
    } else {
        data.len() as int
    }
}

/// A consistent data region and offset table: the entry count fits its
/// 16-bit field, the first entry starts at byte zero, and the entries tile
/// the data region exactly.
pub open spec fn block_wf(data: Seq<u8>, offsets: Seq<u16>) -> bool {
    &&& offsets.len() <= 0xFFFF
    &&& (offsets.len() == 0 ==> data.len() == 0)
    &&& (offsets.len() > 0 ==> offsets[0] == 0)
    &&& forall|i: int|
        0 <= i < offsets.len() ==> #[trigger] entry_end(data, offsets[i] as int) == entry_bound(
            data,
            offsets,
            i,
        )
}

/// The entries a data region and offset table describe.
pub open spec fn entries_of(data: Seq<u8>, offsets: Seq<u16>) -> Seq<(Seq<u8>, Seq<u8>)> {
    Seq::new(offsets.len(), |i: int| entry_at(data, offsets[i] as int))
}

/// In a consistent block every entry lies inside the data region and the
/// offsets ascend.
pub proof fn lemma_entry_in_bounds(data: Seq<u8>, offsets: Seq<u16>, i: int)
    requires
        block_wf(data, offsets),
        0 <= i < offsets.len(),
    ensures
        offsets[i] + 4 + klen_at(data, offsets[i] as int) + vlen_at(data, offsets[i] as int)
            <= data.len(),
        i + 1 < offsets.len() ==> offsets[i] + 4 <= offsets[i + 1],
    decreases offsets.len() - i,
{
    assert(entry_end(data, offsets[i] as int) == entry_bound(data, offsets, i));
    if i + 1 < offsets.len() {
        lemma_entry_in_bounds(data, offsets, i + 1);
        assert(entry_end(data, offsets[i + 1] as int) == entry_bound(data, offsets, i + 1));
    }
}

/// Extending the data region does not disturb the entries already in it.
pub proof fn lemma_entry_stable(d1: Seq<u8>, d2: Seq<u8>, off: int)
    requires
        0 <= off,
        off + 2 <= d1.len(),
        d1.len() <= d2.len(),
        forall|i: int| 0 <= i < d1.len() ==> d1[i] == #[trigger] d2[i],
        entry_end(d1, off) <= d1.len(),
    ensures
        klen_at(d2, off) == klen_at(d1, off),
        vlen_at(d2, off) == vlen_at(d1, off),
        key_at(d2, off) == key_at(d1, off),
        val_at(d2, off) == val_at(d1, off),
        entry_end(d2, off) == entry_end(d1, off),
{
    assert(d2.subrange(off, off + 2) =~= d1.subrange(off, off + 2));
    let k = klen_at(d1, off);
    assert(d2.subrange(off + 2, off + 2 + k) =~= d1.subrange(off + 2, off + 2 + k));
    assert(d2.subrange(off + 2 + k, off + 4 + k) =~= d1.subrange(off + 2 + k, off + 4 + k));
    let v = vlen_at(d1, off);
    assert(d2.subrange(off + 4 + k, off + 4 + k + v) =~= d1.subrange(off + 4 + k, off + 4 + k + v));
}

/// In a consistent block the entry at index `i` starts at or after byte
/// `4 * i`: every entry occupies at least four bytes.
pub proof fn lemma_offset_min(data: Seq<u8>, offsets: Seq<u16>, i: int)
    requires
        block_wf(data, offsets),
        0 <= i < offsets.len(),
    ensures
        offsets[i] >= 4 * i,
    decreases i,
{
    if i > 0 {
        lemma_offset_min(data, offsets, i - 1);
        assert(entry_end(data, offsets[i - 1] as int) == entry_bound(data, offsets, i - 1));
    }
}

/// A consistent data region holds at least four bytes per entry.
pub proof fn lemma_data_len_min(data: Seq<u8>, offsets: Seq<u16>)
    requires
        block_wf(data, offsets),
    ensures
        data.len() >= 4 * offsets.len(),
{
    if offsets.len() > 0 {
        let last = offsets.len() - 1;
        lemma_offset_min(data, offsets, last);
        assert(entry_end(data, offsets[last] as int) == entry_bound(data, offsets, last));
    }
}

/// The serialized offset table: each offset as two big-endian bytes.
pub open spec fn offsets_bytes(offsets: Seq<u16>) -> Seq<u8>
    decreases offsets.len(),
{
    if offsets.len() == 0 {
        Seq::empty()
    } else {
        spec_u16_to_be(offsets[0]) + offsets_bytes(offsets.drop_first())
    }
}

/// The serialized block: entry count, offset table, data region.
pub open spec fn block_bytes(data: Seq<u8>, offsets: Seq<u16>) -> Seq<u8> {
    spec_u16_to_be(offsets.len() as u16) + offsets_bytes(offsets) + data
}

pub proof fn lemma_offsets_bytes_len(offsets: Seq<u16>)
    ensures
        offsets_bytes(offsets).len() == 2 * offsets.len(),
    decreases offsets.len(),
{
    if offsets.len() > 0 {
        lemma_offsets_bytes_len(offsets.drop_first());
    }
}

/// Byte `2 * i` and `2 * i + 1` of the offset table encode `offsets[i]`.
pub proof fn lemma_offsets_bytes_index(offsets: Seq<u16>, i: int)
    requires
        0 <= i < offsets.len(),
    ensures
        offsets_bytes(offsets).subrange(2 * i, 2 * i + 2) == spec_u16_to_be(offsets[i]),
    decreases i,
{
    lemma_offsets_bytes_len(offsets);
    lemma_offsets_bytes_len(offsets.drop_first());
    if i == 0 {
        assert(offsets_bytes(offsets).subrange(0, 2) =~= spec_u16_to_be(offsets[0]));
    } else {
        lemma_offsets_bytes_index(offsets.drop_first(), i - 1);
        assert(offsets_bytes(offsets).subrange(2 * i, 2 * i + 2) =~= offsets_bytes(
            offsets.drop_first(),
        ).subrange(2 * (i - 1), 2 * (i - 1) + 2));
        assert(offsets.drop_first()[i - 1] == offsets[i]);
    }
}

/// Appending a new offset appends its two bytes.
pub proof fn lemma_offsets_bytes_snoc(offsets: Seq<u16>)
    requires
        offsets.len() > 0,
    ensures
        offsets_bytes(offsets) == offsets_bytes(offsets.drop_last()) + spec_u16_to_be(
            offsets.last(),
        ),
    decreases offsets.len(),
{
    if offsets.len() == 1 {
        assert(offsets.drop_last() =~= Seq::<u16>::empty());
        assert(offsets.drop_first() =~= Seq::<u16>::empty());
        assert(offsets_bytes(Seq::<u16>::empty()) =~= Seq::<u8>::empty());
        assert(offsets.last() == offsets[0]);
        assert(offsets_bytes(offsets) =~= offsets_bytes(offsets.drop_last()) + spec_u16_to_be(
            offsets.last(),
        ));
    } else {
        lemma_offsets_bytes_snoc(offsets.drop_first());
        assert(offsets.drop_first().drop_last() =~= offsets.drop_last().drop_first());
        assert(offsets.drop_first().last() == offsets.last());
        assert(offsets.drop_last()[0] == offsets[0]);
        assert(offsets.drop_last().len() > 0);
        assert(offsets_bytes(offsets.drop_last()) == spec_u16_to_be(offsets.drop_last()[0])
            + offsets_bytes(offsets.drop_last().drop_first()));
        assert(offsets_bytes(offsets) == spec_u16_to_be(offsets[0]) + offsets_bytes(
            offsets.drop_first(),
        ));
        assert(offsets_bytes(offsets) =~= offsets_bytes(offsets.drop_last()) + spec_u16_to_be(
            offsets.last(),
        ));
    }
}

/// The deterministic parse of a serialized block: the entry count and
/// offsets are read back, the data region is the tail, and the result must
/// be consistent.
pub open spec fn parse_block(bytes: Seq<u8>) -> Option<(Seq<u8>, Seq<u16>)> {
    if bytes.len() < 2 {
        Option::None
    } else {
        let n = spec_u16_from_be(bytes.subrange(0, 2)) as int;
        if bytes.len() < 2 + 2 * n {
            Option::None
        } else {
            let offsets = Seq::new(
                n as nat,
                |i: int| spec_u16_from_be(bytes.subrange(2 + 2 * i, 4 + 2 * i)),
            );
            let data = bytes.skip(2 + 2 * n);
            if block_wf(data, offsets) {
                Option::Some((data, offsets))
            } else {
                Option::None
            }
        }
    }
}

/// Law of round-tripping, encode side: parsing a consistent block's bytes
/// recovers the block exactly.
pub proof fn lemma_parse_of_block_bytes(data: Seq<u8>, offsets: Seq<u16>)
    requires
        block_wf(data, offsets),
    ensures
        parse_block(block_bytes(data, offsets)) == Option::Some((data, offsets)),
{
    let bytes = block_bytes(data, offsets);
    let n = offsets.len() as int;
    lemma_offsets_bytes_len(offsets);
    assert(bytes.len() == 2 + 2 * n + data.len());
    assert(bytes.subrange(0, 2) =~= spec_u16_to_be(offsets.len() as u16));
    lemma_u16_be_round_trip(offsets.len() as u16);
    assert(spec_u16_from_be(bytes.subrange(0, 2)) as int == n);
    let parsed_offsets = Seq::new(
        n as nat,
        |i: int| spec_u16_from_be(bytes.subrange(2 + 2 * i, 4 + 2 * i)),
    );
    assert forall|i: int| 0 <= i < n implies parsed_offsets[i] == offsets[i] by {
        lemma_offsets_bytes_index(offsets, i);
        assert(bytes.subrange(2 + 2 * i, 4 + 2 * i) =~= offsets_bytes(offsets).subrange(
            2 * i,
            2 * i + 2,
        ));
        lemma_u16_be_round_trip(offsets[i]);
    }
    assert(parsed_offsets =~= offsets);
    assert(bytes.skip(2 + 2 * n) =~= data);
}

/// Law of round-tripping, decode side: a parseable byte string is exactly
/// the serialization of what it parses to.
pub proof fn lemma_block_bytes_of_parse(bytes: Seq<u8>)
    requires
        parse_block(bytes) is Some,
    ensures
        block_bytes(parse_block(bytes).unwrap().0, parse_block(bytes).unwrap().1) == bytes,
{
    let n = spec_u16_from_be(bytes.subrange(0, 2)) as int;
    let offsets = parse_block(bytes).unwrap().1;
    let data = parse_block(bytes).unwrap().0;
    lemma_u16_be_parse(bytes.subrange(0, 2));
    assert(spec_u16_to_be(offsets.len() as u16) == bytes.subrange(0, 2));
    lemma_offsets_bytes_len(offsets);
    assert forall|m: int| 0 <= m < 2 * n implies offsets_bytes(offsets)[m] == bytes[2 + m] by {
        let i = m / 2;
        lemma_offsets_bytes_index(offsets, i);
        lemma_u16_be_parse(bytes.subrange(2 + 2 * i, 4 + 2 * i));
        assert(spec_u16_to_be(offsets[i]) == bytes.subrange(2 + 2 * i, 4 + 2 * i));
        assert(offsets_bytes(offsets)[m] == offsets_bytes(offsets).subrange(2 * i, 2 * i + 2)[m - 2
            * i]);
        assert(bytes.subrange(2 + 2 * i, 4 + 2 * i)[m - 2 * i] == bytes[2 + m]);
    }
    assert(block_bytes(data, offsets) =~= bytes);
}

/// An immutable sorted run of key/value entries: the data region and the
/// offset of each entry within it.
pub struct Block {
    data: Vec<u8>,
    offsets: Vec<u16>,
}

impl Block {
    /// The data region.
    pub closed spec fn data_spec(&self) -> Seq<u8> {
        self.data@
    }

    /// The offset table.
    pub closed spec fn offsets_spec(&self) -> Seq<u16> {
        self.offsets@
    }

    /// Structural consistency; every block the builder or the decoder hands
    /// out satisfies it.
    pub open spec fn wf(&self) -> bool {
        block_wf(self.data_spec(), self.offsets_spec())
    }

    /// The entries, in storage order.
    pub open spec fn entries(&self) -> Seq<(Seq<u8>, Seq<u8>)> {
        entries_of(self.data_spec(), self.offsets_spec())
    }

    /// The serialized form.
    pub open spec fn bytes_spec(&self) -> Seq<u8> {
        block_bytes(self.data_spec(), self.offsets_spec())
    }

    pub(crate) fn from_parts(data: Vec<u8>, offsets: Vec<u16>) -> (b: Block)
        requires
            block_wf(data@, offsets@),
        ensures
            b.data_spec() == data@,
            b.offsets_spec() == offsets@,
            b.wf(),
    {
        Block { data, offsets }
    }

    /// The number of entries.
    pub fn num_entries(&self) -> (n: usize)
        ensures
            n == self.entries().len(),
    {
        self.offsets.len()
    }

    /// Copy out the key and value of entry `i`.
    pub fn read_entry(&self, i: usize) -> (kv: (Vec<u8>, Vec<u8>))
        requires
            self.wf(),
            i < self.entries().len(),
        ensures
            kv.0@ == self.entries()[i as int].0,
            kv.1@ == self.entries()[i as int].1,
    {
        proof {
            lemma_entry_in_bounds(self.data@, self.offsets@, i as int);
        }
        let off = self.offsets[i] as usize;
        let klen = read_u16_be(self.data[off], self.data[off + 1]) as usize;
        proof {
            assert(self.data@.subrange(off as int, off as int + 2) =~= seq![
                self.data@[off as int],
                self.data@[off as int + 1],
            ]);
            assert(klen == klen_at(self.data@, off as int));
        }
        let key = vstd::slice::slice_to_vec(
            vstd::slice::slice_subrange(self.data.as_slice(), off + 2, off + 2 + klen),
        );
        let vlen = read_u16_be(self.data[off + 2 + klen], self.data[off + 3 + klen]) as usize;
        proof {
            assert(self.data@.subrange(off + 2 + klen as int, off + 4 + klen as int) =~= seq![
                self.data@[off + 2 + klen as int],
                self.data@[off + 3 + klen as int],
            ]);
            assert(vlen == vlen_at(self.data@, off as int));
        }
        let value = vstd::slice::slice_to_vec(
            vstd::slice::slice_subrange(
                self.data.as_slice(),
                off + 4 + klen,
                off + 4 + klen + vlen,
            ),
        );
        (key, value)
    }

    /// Serialize: entry count, offset table, then the data region.
    pub fn encode(&self) -> (out: Vec<u8>)
        requires
            self.wf(),
        ensures
            out@ == self.bytes_spec(),
    {
        let mut out: Vec<u8> = Vec::new();
        push_u16_be(&mut out, self.offsets.len() as u16);
        let mut i: usize = 0;
        while i < self.offsets.len()
            invariant
                i <= self.offsets@.len(),
                self.offsets@.len() <= 0xFFFF,
                out@ == spec_u16_to_be(self.offsets@.len() as u16) + offsets_bytes(
                    self.offsets@.take(i as int),
                ),
            decreases self.offsets@.len() - i,
        {
            push_u16_be(&mut out, self.offsets[i]);
            i = i + 1;
            proof {
                let taken = self.offsets@.take(i as int);
                lemma_offsets_bytes_snoc(taken);
                assert(taken.drop_last() =~= self.offsets@.take(i as int - 1));
                assert(out@ =~= spec_u16_to_be(self.offsets@.len() as u16) + offsets_bytes(taken));
            }
        }
        out.extend_from_slice(self.data.as_slice());
        proof {
            assert(self.offsets@.take(self.offsets@.len() as int) =~= self.offsets@);
            assert(out@ =~= self.bytes_spec());
        }
        out
    }

    /// Parse a serialized block, verifying that the offsets and lengths tile
    /// the data region; anything inconsistent is reported, never read out of
    /// bounds.
    pub fn decode(input: &[u8]) -> (r: Result<Block, Error>)
        ensures
            r is Ok <==> parse_block(input@) is Some,
            r matches Ok(b) ==> b.wf() && b.data_spec() == parse_block(input@).unwrap().0
                && b.offsets_spec() == parse_block(input@).unwrap().1 && b.bytes_spec() == input@,
            r matches Err(e) ==> e == Error::Malformed,
    {
        if input.len() < 2 {
            return Err(Error::Malformed);
        }
        let n = read_u16_be(input[0], input[1]) as usize;
        proof {
            assert(input@.subrange(0, 2) =~= seq![input@[0], input@[1]]);
        }
        if (input.len() - 2) / 2 < n {
            proof {
                assert(input@.len() < 2 + 2 * n);
            }
            return Err(Error::Malformed);
        }
        assert(2 + 2 * n <= input.len());
        let mut offsets: Vec<u16> = Vec::new();
        let mut i: usize = 0;
        while i < n
            invariant
                i <= n,
                n <= 0xFFFF,
                2 + 2 * n <= input@.len(),
                offsets@.len() == i,
                forall|m: int|
                    0 <= m < i ==> #[trigger] offsets@[m] == spec_u16_from_be(
                        input@.subrange(2 + 2 * m, 4 + 2 * m),
                    ),
            decreases n - i,
        {
            let off = read_u16_be(input[2 + 2 * i], input[3 + 2 * i]);
            proof {
                assert(input@.subrange(2 + 2 * (i as int), 4 + 2 * (i as int)) =~= seq![
                    input@[2 + 2 * (i as int)],
                    input@[3 + 2 * (i as int)],
                ]);
            }
            offsets.push(off);
            i = i + 1;
        }
        let data_slice = vstd::slice::slice_subrange(input, 2 + 2 * n, input.len());
        let data = vstd::slice::slice_to_vec(data_slice);
        proof {
            assert(data@ =~= input@.skip(2 + 2 * (n as int)));
            assert(offsets@ =~= Seq::new(
                n as nat,
                |m: int| spec_u16_from_be(input@.subrange(2 + 2 * m, 4 + 2 * m)),
            ));
        }
        if !check_block_wf(&data, &offsets) {
            return Err(Error::Malformed);
        }
        let b = Block { data, offsets };
        proof {
            lemma_block_bytes_of_parse(input@);
        }
        Ok(b)
    }
}

/// Whether a data region and offset table are consistent, checked without
/// any out-of-bounds access.
fn check_block_wf(data: &Vec<u8>, offsets: &Vec<u16>) -> (r: bool)
    ensures
        r == block_wf(data@, offsets@),
{
    let n = offsets.len();
    if n > 0xFFFF {
        return false;
    }
    if n == 0 {
        return data.len() == 0;
    }
    if offsets[0] != 0 {
        return false;
    }
    let mut i: usize = 0;
    while i < n
        invariant
            i <= n,
            n == offsets@.len(),
            0 < n <= 0xFFFF,
            offsets@[0] == 0,
            forall|m: int|
                0 <= m < i ==> #[trigger] entry_end(data@, offsets@[m] as int) == entry_bound(
                    data@,
                    offsets@,
                    m,
                ),
        decreases n - i,
    {
        let off = offsets[i] as usize;
        if off + 4 > data.len() {
            proof {
                if block_wf(data@, offsets@) {
                    lemma_entry_in_bounds(data@, offsets@, i as int);
                }
            }
            return false;
        }
        let klen = read_u16_be(data[off], data[off + 1]) as usize;
        proof {
            assert(data@.subrange(off as int, off as int + 2) =~= seq![
                data@[off as int],
                data@[off as int + 1],
            ]);
            assert(klen == klen_at(data@, off as int));
        }
        if off + 4 + klen > data.len() {
            proof {
                if block_wf(data@, offsets@) {
                    lemma_entry_in_bounds(data@, offsets@, i as int);
                }
            }
            return false;
        }
        let vlen = read_u16_be(data[off + 2 + klen], data[off + 3 + klen]) as usize;
        proof {
            assert(data@.subrange(off + 2 + klen as int, off + 4 + klen as int) =~= seq![
                data@[off + 2 + klen as int],
                data@[off + 3 + klen as int],
            ]);
            assert(vlen == vlen_at(data@, off as int));
        }
        if vlen > data.len() - (off + 4 + klen) {
            proof {
                if block_wf(data@, offsets@) {
                    lemma_entry_in_bounds(data@, offsets@, i as int);
                }
            }
            return false;
        }
        let this_end = off + 4 + klen + vlen;
        let bound = if i + 1 < n {
            offsets[i + 1] as usize
        } else {
            data.len()
        };
        if this_end != bound {
            proof {
                if block_wf(data@, offsets@) {
                    assert(entry_end(data@, offsets@[i as int] as int) == entry_bound(
                        data@,
                        offsets@,
                        i as int,
                    ));
                }
            }
            return false;
        }
        i = i + 1;
    }
    true
}

} // verus!
