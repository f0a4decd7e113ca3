//! The in-memory tier: an ordered map from key to value with
//! last-writer-wins overwrites and ascending range scans, backed by a
//! concurrent skip list.
use std::ops::Bound;
use vstd::prelude::*;

use crossbeam_skiplist::SkipMap;

use crate::iterators::StorageIterator;
use crate::keys::{copy_key, entries_sorted, key_le, key_lt};
use crate::table_builder::SsTableBuilder;
use crate::Error;

verus! {

#[verifier::external_type_specification]
#[verifier::external_body]
#[verifier::reject_recursive_types(K)]
#[verifier::reject_recursive_types(V)]
pub struct ExSkipMap<K, V>(SkipMap<K, V>);

/// What a skip list holds, as a map from key bytes to value bytes.
pub uninterp spec fn skipmap_entries(m: SkipMap<Vec<u8>, Vec<u8>>) -> Map<Seq<u8>, Seq<u8>>;

/// One end of a scan range.
pub enum KeyBound {
    Included(Vec<u8>),
    Excluded(Vec<u8>),
    Unbounded,
}

/// Whether `k` lies at or above the lower bound.
pub open spec fn above_lower(b: KeyBound, k: Seq<u8>) -> bool {
    match b {
        KeyBound::Included(l) => key_le(l@, k),
        KeyBound::Excluded(l) => key_lt(l@, k),
        KeyBound::Unbounded => true,
    }
}

/// Whether `k` lies at or below the upper bound.
pub open spec fn below_upper(b: KeyBound, k: Seq<u8>) -> bool {
    match b {
        KeyBound::Included(u) => key_le(k, u@),
        KeyBound::Excluded(u) => key_lt(k, u@),
        KeyBound::Unbounded => true,
    }
}

/// Whether `k` lies inside the half-open-or-closed range the two bounds
/// describe.
pub open spec fn in_range(lower: KeyBound, upper: KeyBound, k: Seq<u8>) -> bool {
    above_lower(lower, k) && below_upper(upper, k)
}

/// Relies on crossbeam_skiplist::SkipMap::new: the new map is empty.
#[verifier::external_body]
fn map_new() -> (r: SkipMap<Vec<u8>, Vec<u8>>)
    ensures
        forall|k: Seq<u8>| !skipmap_entries(r).contains_key(k),
{
    SkipMap::new()
}

/// Relies on crossbeam_skiplist::SkipMap::insert: inserts the pair,
/// removing any existing entry with the same key first.
#[verifier::external_body]
fn map_insert(m: &mut SkipMap<Vec<u8>, Vec<u8>>, key: Vec<u8>, value: Vec<u8>)
    ensures
        skipmap_entries(*final(m)) == skipmap_entries(*old(m)).insert(key@, value@),
{
    m.insert(key, value);
}

/// Relies on crossbeam_skiplist::SkipMap::get: the entry at exactly this
/// key, by the byte-wise `Ord` on `Vec<u8>`.
#[verifier::external_body]
fn map_get(m: &SkipMap<Vec<u8>, Vec<u8>>, key: &Vec<u8>) -> (r: Option<Vec<u8>>)
    ensures
        match r {
            Option::Some(v) => skipmap_entries(*m).contains_key(key@) && v@ == skipmap_entries(
                *m,
            )[key@],
            Option::None => !skipmap_entries(*m).contains_key(key@),
        },
{
    match m.get(key) {
        Some(e) => Some(e.value().clone()),
        None => None,
    }
}

/// Relies on crossbeam_skiplist::SkipMap::range: exactly the entries whose
/// keys lie inside the bounds, in ascending key order.
#[verifier::external_body]
fn map_range_collect(m: &SkipMap<Vec<u8>, Vec<u8>>, lower: &KeyBound, upper: &KeyBound) -> (r: Vec<
    (Vec<u8>, Vec<u8>),
>)
    ensures
        forall|i: int, j: int| 0 <= i < j < r@.len() ==> key_lt(r@[i].0@, r@[j].0@),
        forall|i: int|
            0 <= i < r@.len() ==> skipmap_entries(*m).contains_key((#[trigger] r@[i]).0@)
                && r@[i].1@ == skipmap_entries(*m)[r@[i].0@] && in_range(*lower, *upper, r@[i].0@),
        forall|k: Seq<u8>|
            #[trigger] skipmap_entries(*m).contains_key(k) && in_range(*lower, *upper, k)
                ==> exists|i: int| 0 <= i < r@.len() && (#[trigger] r@[i]).0@ == k,
{
    let l = match lower { KeyBound::Included(k) => Bound::Included(k.clone()), KeyBound::Excluded(k) => Bound::Excluded(k.clone()), KeyBound::Unbounded => Bound::Unbounded };
    let u = match upper { KeyBound::Included(k) => Bound::Included(k.clone()), KeyBound::Excluded(k) => Bound::Excluded(k.clone()), KeyBound::Unbounded => Bound::Unbounded };
    m.range((l, u)).map(|e| (e.key().clone(), e.value().clone())).collect()
}

/// The in-memory table: an ordered map with last-writer-wins semantics.
pub struct MemTable {
    map: SkipMap<Vec<u8>, Vec<u8>>,
}

impl MemTable {
    /// What the table holds.
    pub closed spec fn contents(&self) -> Map<Seq<u8>, Seq<u8>> {
        skipmap_entries(self.map)
    }

    /// Every stored key and value fits the 16-bit length fields of the
    /// on-disk formats.
    pub open spec fn wf(&self) -> bool {
        forall|k: Seq<u8>|
            #[trigger] self.contents().contains_key(k) ==> k.len() <= 65535
                && self.contents()[k].len() <= 65535
    }

    /// A fresh, empty table.
    pub fn create() -> (r: Self)
        ensures
            r.wf(),
            r.contents() == Map::<Seq<u8>, Seq<u8>>::empty(),
    {
        let r = MemTable { map: map_new() };
        proof {
            assert(r.contents() =~= Map::<Seq<u8>, Seq<u8>>::empty());
        }
        r
    }

    /// Insert or overwrite: afterwards `key` maps to `value` and nothing
    /// else changes.
    pub fn put(&mut self, key: &[u8], value: &[u8])
        requires
            old(self).wf(),
            key@.len() <= 65535,
            value@.len() <= 65535,
        ensures
            final(self).wf(),
            final(self).contents() == old(self).contents().insert(key@, value@),
    {
        let k = copy_key(key);
        let v = copy_key(value);
        map_insert(&mut self.map, k, v);
    }

    /// The most recently stored value at `key`, or nothing.
    pub fn get(&self, key: &[u8]) -> (r: Option<Vec<u8>>)
        ensures
            match r {
                Option::Some(v) => self.contents().contains_key(key@) && v@
                    == self.contents()[key@],
                Option::None => !self.contents().contains_key(key@),
            },
    {
        let k = copy_key(key);
        map_get(&self.map, &k)
    }

    /// A snapshot cursor over the keys inside the bounds: it yields exactly
    /// the table's in-range entries, in strictly ascending key order.
    pub fn scan(&self, lower: KeyBound, upper: KeyBound) -> (it: MemTableIterator)
        ensures
            it.inv(),
            it.no_fail(),
            entries_sorted(it.remaining()),
            forall|i: int|
                0 <= i < it.remaining().len() ==> self.contents().contains_key(
                    (#[trigger] it.remaining()[i]).0,
                ) && it.remaining()[i].1 == self.contents()[it.remaining()[i].0] && in_range(
                    lower,
                    upper,
                    it.remaining()[i].0,
                ),
            forall|k: Seq<u8>|
                #[trigger] self.contents().contains_key(k) && in_range(lower, upper, k)
                    ==> exists|i: int|
                    0 <= i < it.remaining().len() && (#[trigger] it.remaining()[i]).0 == k,
    {
        let items = map_range_collect(&self.map, &lower, &upper);
        let ghost iv = items@;
        let it = MemTableIterator { items, pos: 0 };
        proof {
            assert(it.remaining() =~= it.items_spec());
            assert forall|k: Seq<u8>|
                #[trigger] self.contents().contains_key(k) && in_range(
                    lower,
                    upper,
                    k,
                ) implies exists|i: int|
                0 <= i < it.remaining().len() && (#[trigger] it.remaining()[i]).0 == k by {
                let w = choose|i: int| 0 <= i < iv.len() && (#[trigger] iv[i]).0@ == k;
                assert(it.remaining()[w].0 == k);
            }
        }
        it
    }

    /// Drain the table into a table builder: every stored entry, in
    /// strictly ascending key order, fed to the builder's `add`.
    pub fn flush(&self, builder: &mut SsTableBuilder) -> (r: Result<(), Error>)
        requires
            self.wf(),
            old(builder).wf(),
            old(builder).all_entries().len() == 0,
        ensures
            r is Ok,
            final(builder).wf(),
            final(builder).block_size_spec() == old(builder).block_size_spec(),
            entries_sorted(final(builder).all_entries()),
            forall|i: int|
                0 <= i < final(builder).all_entries().len() ==> self.contents().contains_key(
                    (#[trigger] final(builder).all_entries()[i]).0,
                ) && final(builder).all_entries()[i].1
                    == self.contents()[final(builder).all_entries()[i].0],
            forall|k: Seq<u8>|
                #[trigger] self.contents().contains_key(k) ==> exists|i: int|
                    0 <= i < final(builder).all_entries().len()
                        && (#[trigger] final(builder).all_entries()[i]).0 == k,
    {
        let items = map_range_collect(&self.map, &KeyBound::Unbounded, &KeyBound::Unbounded);
        let ghost iv = items@;
        let ghost views = Seq::new(iv.len(), |m: int| (iv[m].0@, iv[m].1@));
        let n = items.len();
        let mut i: usize = 0;
        while i < n
            invariant
                i <= n,
                n == iv.len(),
                items@ == iv,
                views == Seq::new(iv.len(), |m: int| (iv[m].0@, iv[m].1@)),
                self.wf(),
                builder.wf(),
                builder.block_size_spec() == old(builder).block_size_spec(),
                builder.all_entries() == views.take(i as int),
                forall|a: int, b: int| 0 <= a < b < iv.len() ==> key_lt(iv[a].0@, iv[b].0@),
                forall|a: int|
                    0 <= a < iv.len() ==> self.contents().contains_key((#[trigger] iv[a]).0@)
                        && iv[a].1@ == self.contents()[iv[a].0@],
                forall|k: Seq<u8>|
                    #[trigger] self.contents().contains_key(k) ==> exists|a: int|
                        0 <= a < iv.len() && (#[trigger] iv[a]).0@ == k,
            decreases n - i,
        {
            proof {
                if i > 0 {
                    assert(builder.all_entries().last() == views[i - 1]);
                    assert(key_lt(iv[i - 1].0@, iv[i as int].0@));
                }
            }
            let pair = &items[i];
            builder.add(pair.0.as_slice(), pair.1.as_slice());
            i = i + 1;
            proof {
                assert(builder.all_entries() =~= views.take(i as int));
            }
        }
        proof {
            assert(views.take(n as int) =~= views);
            assert forall|k: Seq<u8>|
                #[trigger] self.contents().contains_key(k) implies exists|m: int|
                0 <= m < builder.all_entries().len() && (#[trigger] builder.all_entries()[m]).0
                    == k by {
                let w = choose|a: int| 0 <= a < iv.len() && (#[trigger] iv[a]).0@ == k;
                assert(builder.all_entries()[w].0 == k);
            }
        }
        Ok(())
    }
}

/// A snapshot cursor over a range of a table: the materialized in-range
/// entries and a position.
pub struct MemTableIterator {
    items: Vec<(Vec<u8>, Vec<u8>)>,
    pos: usize,
}

impl MemTableIterator {
    /// The snapshot, as key/value byte strings.
    pub closed spec fn items_spec(&self) -> Seq<(Seq<u8>, Seq<u8>)> {
        Seq::new(self.items@.len(), |i: int| (self.items@[i].0@, self.items@[i].1@))
    }

    /// The position of the cursor within the snapshot.
    pub closed spec fn pos_spec(&self) -> int {
        self.pos as int
    }
}

impl StorageIterator for MemTableIterator {
    open spec fn no_fail(&self) -> bool {
        true
    }

    open spec fn inv(&self) -> bool {
        &&& 0 <= self.pos_spec() <= self.items_spec().len()
        &&& entries_sorted(self.items_spec())
    }

    open spec fn remaining(&self) -> Seq<(Seq<u8>, Seq<u8>)> {
        self.items_spec().skip(self.pos_spec())
    }

    proof fn lemma_remaining_sorted(&self) {
        let es = self.items_spec();
        let p = self.pos_spec();
        assert forall|i: int, j: int|
            0 <= i < j < self.remaining().len() implies key_lt(
            self.remaining()[i].0,
            self.remaining()[j].0,
        ) by {
            assert(self.remaining()[i] == es[p + i]);
            assert(self.remaining()[j] == es[p + j]);
        }
    }

    fn key(&self) -> (k: &[u8]) {
        proof {
            assert(self.remaining()[0] == self.items_spec()[self.pos_spec()]);
        }
        self.items[self.pos].0.as_slice()
    }

    fn value(&self) -> (v: &[u8]) {
        proof {
            assert(self.remaining()[0] == self.items_spec()[self.pos_spec()]);
        }
        self.items[self.pos].1.as_slice()
    }

    fn is_valid(&self) -> (r: bool) {
        self.pos < self.items.len()
    }

    fn next(&mut self) -> (r: Result<(), Error>) {
        if self.pos < self.items.len() {
            self.pos = self.pos + 1;
            proof {
                assert(final(self).remaining() =~= old(self).remaining().drop_first());
            }
        }
        Ok(())
    }
}

} // verus!
