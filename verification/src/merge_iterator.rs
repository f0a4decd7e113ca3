//! N-way merge over cursors of the same capability, with stable priority
//! tie-breaking: lower child indices win key ties.
use vstd::prelude::*;

use crate::iterators::StorageIterator;
use crate::keys::{
    entries_sorted, key_le, key_lt, lemma_key_le_lt_trans, lemma_key_lt_asym, lemma_key_lt_irrefl,
    lemma_key_lt_le_trans, lemma_key_lt_total, lemma_key_lt_trans,
};
use crate::keys::{eq_keys, lt_keys};
use crate::Error;

verus! {

/// The total number of entries left across all children.
pub open spec fn total_len(cs: Seq<Seq<(Seq<u8>, Seq<u8>)>>) -> nat
    decreases cs.len(),
{
    if cs.len() == 0 {
        0
    } else {
        cs[0].len() + total_len(cs.drop_first())
    }
}

/// Child `i` holds the next entry to emit: it is non-exhausted, no child
/// holds a smaller key, and no child with the same key has a smaller index.
pub open spec fn is_best(cs: Seq<Seq<(Seq<u8>, Seq<u8>)>>, i: int) -> bool {
    &&& 0 <= i < cs.len()
    &&& cs[i].len() > 0
    &&& forall|j: int|
        0 <= j < cs.len() && (#[trigger] cs[j]).len() > 0 ==> key_lt(cs[i][0].0, cs[j][0].0) || (
        cs[i][0].0 == cs[j][0].0 && i <= j)
}

/// Every child whose current key is `k` moves past it.
pub open spec fn advance_key(cs: Seq<Seq<(Seq<u8>, Seq<u8>)>>, k: Seq<u8>) -> Seq<
    Seq<(Seq<u8>, Seq<u8>)>,
> {
    Seq::new(
        cs.len(),
        |j: int|
            if cs[j].len() > 0 && cs[j][0].0 == k {
                cs[j].drop_first()
            } else {
                cs[j]
            },
    )
}

proof fn lemma_total_len_le(a: Seq<Seq<(Seq<u8>, Seq<u8>)>>, b: Seq<Seq<(Seq<u8>, Seq<u8>)>>)
    requires
        a.len() == b.len(),
        forall|j: int| 0 <= j < a.len() ==> (#[trigger] b[j]).len() <= a[j].len(),
    ensures
        total_len(b) <= total_len(a),
    decreases a.len(),
{
    if a.len() > 0 {
        assert(forall|j: int|
            0 <= j < a.drop_first().len() ==> (#[trigger] b.drop_first()[j]).len()
                <= a.drop_first()[j].len());
        lemma_total_len_le(a.drop_first(), b.drop_first());
    }
}

proof fn lemma_total_len_lt(
    a: Seq<Seq<(Seq<u8>, Seq<u8>)>>,
    b: Seq<Seq<(Seq<u8>, Seq<u8>)>>,
    w: int,
)
    requires
        a.len() == b.len(),
        forall|j: int| 0 <= j < a.len() ==> (#[trigger] b[j]).len() <= a[j].len(),
        0 <= w < a.len(),
        b[w].len() < a[w].len(),
    ensures
        total_len(b) < total_len(a),
    decreases a.len(),
{
    if w == 0 {
        lemma_total_len_le(a.drop_first(), b.drop_first());
    } else {
        assert(forall|j: int|
            0 <= j < a.drop_first().len() ==> (#[trigger] b.drop_first()[j]).len()
                <= a.drop_first()[j].len());
        lemma_total_len_lt(a.drop_first(), b.drop_first(), w - 1);
    }
}

/// The single ordered, deduplicated stream that a set of child streams
/// merges into. The head comes from the best child; every child holding the
/// emitted key is advanced past it.
pub open spec fn merge_streams(cs: Seq<Seq<(Seq<u8>, Seq<u8>)>>) -> Seq<(Seq<u8>, Seq<u8>)>
    decreases total_len(cs),
    when true
    via merge_streams_decreases
{
    if exists|i: int| is_best(cs, i) {
        let i = choose|i: int| is_best(cs, i);
        seq![cs[i][0]] + merge_streams(advance_key(cs, cs[i][0].0))
    } else {
        Seq::empty()
    }
}

#[via_fn]
proof fn merge_streams_decreases(cs: Seq<Seq<(Seq<u8>, Seq<u8>)>>) {
    if exists|i: int| is_best(cs, i) {
        let i = choose|i: int| is_best(cs, i);
        let k = cs[i][0].0;
        let cs2 = advance_key(cs, k);
        assert(forall|j: int| 0 <= j < cs.len() ==> (#[trigger] cs2[j]).len() <= cs[j].len());
        assert(cs2[i].len() < cs[i].len());
        lemma_total_len_lt(cs, cs2, i);
    }
}

/// Two best children are the same child.
pub proof fn lemma_best_unique(cs: Seq<Seq<(Seq<u8>, Seq<u8>)>>, i: int, j: int)
    requires
        is_best(cs, i),
        is_best(cs, j),
    ensures
        i == j,
{
    let ki = cs[i][0].0;
    let kj = cs[j][0].0;
    lemma_key_lt_asym(ki, kj);
    lemma_key_lt_irrefl(ki);
    lemma_key_lt_irrefl(kj);
}

/// Among non-exhausted children there is always a best one.
pub proof fn lemma_best_exists(cs: Seq<Seq<(Seq<u8>, Seq<u8>)>>) -> (i: int)
    requires
        exists|j: int| 0 <= j < cs.len() && (#[trigger] cs[j]).len() > 0,
    ensures
        is_best(cs, i),
    decreases cs.len(),
{
    let n = cs.len() as int;
    let front = cs.drop_last();
    if exists|j: int| 0 <= j < front.len() && (#[trigger] front[j]).len() > 0 {
        let b = lemma_best_exists(front);
        assert(cs[b] == front[b]);
        if cs[n - 1].len() == 0 {
            assert(forall|j: int| 0 <= j < n - 1 ==> cs[j] == front[j]);
            b
        } else {
            let kb = cs[b][0].0;
            let kl = cs[n - 1][0].0;
            lemma_key_lt_total(kb, kl);
            if key_le(kb, kl) {
                assert(forall|j: int| 0 <= j < n - 1 ==> cs[j] == front[j]);
                b
            } else {
                assert forall|j: int|
                    0 <= j < n && (#[trigger] cs[j]).len() > 0 implies key_lt(kl, cs[j][0].0) || (
                kl == cs[j][0].0 && n - 1 <= j) by {
                    if j < n - 1 {
                        assert(cs[j] == front[j]);
                        if kb == cs[j][0].0 {
                            assert(key_lt(kl, cs[j][0].0));
                        } else {
                            lemma_key_lt_trans(kl, kb, cs[j][0].0);
                        }
                    }
                }
                n - 1
            }
        }
    } else {
        assert(forall|j: int| 0 <= j < n - 1 ==> cs[j] == front[j]);
        assert(cs[n - 1].len() > 0);
        n - 1
    }
}

/// With every child exhausted, the merged stream is empty.
pub proof fn lemma_merge_empty(cs: Seq<Seq<(Seq<u8>, Seq<u8>)>>)
    requires
        forall|j: int| 0 <= j < cs.len() ==> (#[trigger] cs[j]).len() == 0,
    ensures
        merge_streams(cs) == Seq::<(Seq<u8>, Seq<u8>)>::empty(),
{
    assert(!exists|i: int| is_best(cs, i));
}

/// Law of priority: the merged stream starts with the best child's entry —
/// the smallest key, and on a key tie the smallest child index. Its tail is
/// the merge of the children advanced past that key.
pub proof fn lemma_merge_unfold(cs: Seq<Seq<(Seq<u8>, Seq<u8>)>>, i: int)
    requires
        is_best(cs, i),
    ensures
        merge_streams(cs).len() > 0,
        merge_streams(cs)[0] == cs[i][0],
        merge_streams(cs).drop_first() == merge_streams(advance_key(cs, cs[i][0].0)),
{
    let i0 = choose|b: int| is_best(cs, b);
    lemma_best_unique(cs, i, i0);
    let rest = merge_streams(advance_key(cs, cs[i][0].0));
    assert(merge_streams(cs) == seq![cs[i][0]] + rest);
    assert(merge_streams(cs).drop_first() =~= rest);
}

/// Law of priority, in full: when several children hold the minimal
/// pending key, the merged stream carries the entry of the one with the
/// smallest index — `is_best` names exactly that child — and carries that
/// key exactly once, so the other children's entries for it are never
/// emitted.
pub proof fn lemma_merge_priority(cs: Seq<Seq<(Seq<u8>, Seq<u8>)>>, i: int)
    requires
        forall|j: int| 0 <= j < cs.len() ==> entries_sorted(#[trigger] cs[j]),
        is_best(cs, i),
    ensures
        merge_streams(cs).len() > 0,
        merge_streams(cs)[0] == cs[i][0],
        forall|m: int|
            1 <= m < merge_streams(cs).len() ==> (#[trigger] merge_streams(cs)[m]).0 != cs[i][0].0,
{
    lemma_merge_unfold(cs, i);
    lemma_merge_sorted(cs);
    assert forall|m: int|
        1 <= m < merge_streams(cs).len() implies (#[trigger] merge_streams(cs)[m]).0
        != cs[i][0].0 by {
        assert(key_lt(merge_streams(cs)[0].0, merge_streams(cs)[m].0));
        lemma_key_lt_irrefl(cs[i][0].0);
    }
}

proof fn lemma_sorted_drop_first(es: Seq<(Seq<u8>, Seq<u8>)>)
    requires
        entries_sorted(es),
        es.len() > 0,
    ensures
        entries_sorted(es.drop_first()),
{
    assert forall|i: int, j: int|
        0 <= i < j < es.drop_first().len() implies key_lt(
        es.drop_first()[i].0,
        es.drop_first()[j].0,
    ) by {
        assert(es.drop_first()[i] == es[i + 1]);
        assert(es.drop_first()[j] == es[j + 1]);
    }
}

/// Law of ordering: when every child yields strictly ascending keys, so does
/// the merged stream — the output is non-decreasing and each key appears at
/// most once.
pub proof fn lemma_merge_sorted(cs: Seq<Seq<(Seq<u8>, Seq<u8>)>>)
    requires
        forall|j: int| 0 <= j < cs.len() ==> entries_sorted(#[trigger] cs[j]),
    ensures
        entries_sorted(merge_streams(cs)),
    decreases total_len(cs),
{
    if exists|i: int| is_best(cs, i) {
        let i = choose|b: int| is_best(cs, b);
        let k = cs[i][0].0;
        let cs2 = advance_key(cs, k);
        assert forall|j: int| 0 <= j < cs2.len() implies entries_sorted(#[trigger] cs2[j]) by {
            if cs[j].len() > 0 && cs[j][0].0 == k {
                lemma_sorted_drop_first(cs[j]);
            }
        }
        assert(forall|j: int| 0 <= j < cs.len() ==> (#[trigger] cs2[j]).len() <= cs[j].len());
        lemma_total_len_lt(cs, cs2, i);
        lemma_merge_sorted(cs2);
        lemma_merge_unfold(cs, i);
        let m = merge_streams(cs);
        let rest = merge_streams(cs2);
        if rest.len() > 0 {
            // The next emitted entry carries a key strictly above `k`.
            if !(exists|b: int| is_best(cs2, b)) {
                assert(rest =~= Seq::<(Seq<u8>, Seq<u8>)>::empty());
            }
            let i2 = choose|b: int| is_best(cs2, b);
            lemma_merge_unfold(cs2, i2);
            assert(rest[0] == cs2[i2][0]);
            if cs[i2].len() > 0 && cs[i2][0].0 == k {
                assert(cs2[i2] == cs[i2].drop_first());
                assert(cs2[i2][0] == cs[i2][1]);
                assert(key_lt(cs[i2][0].0, cs[i2][1].0));
            } else {
                assert(cs2[i2] == cs[i2]);
                assert(key_lt(k, cs2[i2][0].0) || (k == cs2[i2][0].0 && i <= i2));
            }
            assert(key_lt(k, rest[0].0));
        }
        assert forall|p: int, q: int| 0 <= p < q < m.len() implies key_lt(m[p].0, m[q].0) by {
            assert(m[q] == rest[q - 1]);
            if p == 0 {
                if q - 1 == 0 {
                    assert(key_lt(k, rest[0].0));
                } else {
                    assert(key_lt(rest[0].0, rest[q - 1].0));
                    lemma_key_lt_trans(k, rest[0].0, rest[q - 1].0);
                }
            } else {
                assert(m[p] == rest[p - 1]);
                assert(key_lt(rest[p - 1].0, rest[q - 1].0));
            }
        }
    }
}

/// Advancing a non-best child that duplicates the best key leaves the merged
/// stream unchanged: the duplicate was going to be suppressed anyway.
pub proof fn lemma_merge_dup_advance(cs: Seq<Seq<(Seq<u8>, Seq<u8>)>>, i: int, j: int)
    requires
        is_best(cs, i),
        0 <= j < cs.len(),
        j != i,
        cs[j].len() > 0,
        cs[j][0].0 == cs[i][0].0,
        entries_sorted(cs[j]),
    ensures
        merge_streams(cs.update(j, cs[j].drop_first())) == merge_streams(cs),
{
    let k = cs[i][0].0;
    let cs2 = cs.update(j, cs[j].drop_first());
    assert forall|m: int|
        0 <= m < cs2.len() && (#[trigger] cs2[m]).len() > 0 implies key_lt(cs2[i][0].0, cs2[m][0].0)
        || (cs2[i][0].0 == cs2[m][0].0 && i <= m) by {
        if m == j {
            assert(cs2[j] == cs[j].drop_first());
            assert(cs2[j][0] == cs[j][1]);
            assert(key_lt(cs[j][0].0, cs[j][1].0));
        }
    }
    assert(is_best(cs2, i));
    lemma_merge_unfold(cs, i);
    lemma_merge_unfold(cs2, i);
    assert forall|m: int|
        0 <= m < cs.len() implies advance_key(cs2, k)[m] == #[trigger] advance_key(cs, k)[m] by {
        if m == j {
            assert(cs2[j] == cs[j].drop_first());
            if cs2[j].len() > 0 {
                assert(cs2[j][0] == cs[j][1]);
                assert(key_lt(k, cs[j][1].0));
                lemma_key_lt_irrefl(k);
            }
        }
    }
    assert(advance_key(cs2, k) =~= advance_key(cs, k));
    assert(merge_streams(cs2) =~= merge_streams(cs));
}

/// Merge of several cursors into one ordered stream. Children are numbered
/// by their position in the construction vector; when two children hold the
/// same key, the one with the smaller index supplies the emitted entry and
/// the others' entries for that key are suppressed.
pub struct MergeIterator<I: StorageIterator> {
    iters: Vec<I>,
}

impl<I: StorageIterator> MergeIterator<I> {
    /// The children's remaining entries, in priority order.
    pub closed spec fn views(&self) -> Seq<Seq<(Seq<u8>, Seq<u8>)>> {
        Seq::new(self.iters@.len(), |j: int| self.iters@[j].remaining())
    }

    pub closed spec fn wf(&self) -> bool {
        forall|j: int| 0 <= j < self.iters@.len() ==> (#[trigger] self.iters@[j]).inv()
    }

    /// Whether every child's advance is failure-free.
    pub closed spec fn children_no_fail(&self) -> bool {
        forall|j: int| 0 <= j < self.iters@.len() ==> (#[trigger] self.iters@[j]).no_fail()
    }

    /// Wrap the children; lower indices take priority on key ties. An empty
    /// vector yields a permanently exhausted iterator.
    pub fn create(iters: Vec<Box<I>>) -> (r: Self)
        requires
            forall|j: int| 0 <= j < iters@.len() ==> (*#[trigger] iters@[j]).inv(),
        ensures
            r.wf(),
            r.views().len() == iters@.len(),
            forall|j: int|
                0 <= j < iters@.len() ==> r.views()[j] == (*#[trigger] iters@[j]).remaining(),
            (forall|j: int| 0 <= j < iters@.len() ==> (*#[trigger] iters@[j]).no_fail())
                ==> r.no_fail(),
    {
        let ghost orig = iters@;
        let mut v: Vec<I> = Vec::new();
        let mut rest = iters;
        while rest.len() > 0
            invariant
                v@.len() + rest@.len() == orig.len(),
                forall|m: int| 0 <= m < v@.len() ==> #[trigger] v@[m] == *orig[m],
                forall|m: int| 0 <= m < rest@.len() ==> #[trigger] rest@[m] == orig[v@.len() + m],
            decreases rest@.len(),
        {
            let b = rest.remove(0);
            v.push(*b);
        }
        let r = MergeIterator { iters: v };
        proof {
            assert(forall|j: int|
                0 <= j < orig.len() ==> r.views()[j] == (*#[trigger] orig[j]).remaining());
        }
        r
    }

    /// The index of the child holding the smallest key, smallest index on
    /// ties.
    fn best_child(&self) -> (b: usize)
        requires
            self.wf(),
            exists|j: int| 0 <= j < self.views().len() && (#[trigger] self.views()[j]).len() > 0,
        ensures
            is_best(self.views(), b as int),
    {
        let ghost cs = self.views();
        let n = self.iters.len();
        let mut best: usize = n;
        let mut j: usize = 0;
        while j < n
            invariant
                n == self.iters@.len(),
                j <= n,
                best <= n,
                self.wf(),
                cs == self.views(),
                best == n ==> forall|m: int| 0 <= m < j ==> (#[trigger] cs[m]).len() == 0,
                best < n ==> best < j && cs[best as int].len() > 0,
                best < n ==> forall|m: int|
                    0 <= m < j && (#[trigger] cs[m]).len() > 0 ==> key_lt(
                        cs[best as int][0].0,
                        cs[m][0].0,
                    ) || (cs[best as int][0].0 == cs[m][0].0 && best <= m),
            decreases n - j,
        {
            if self.iters[j].is_valid() {
                if best == n {
                    best = j;
                } else {
                    let kj = self.iters[j].key();
                    let kb = self.iters[best].key();
                    let smaller = lt_keys(kj, kb);
                    proof {
                        lemma_key_lt_total(cs[j as int][0].0, cs[best as int][0].0);
                        if smaller {
                            assert forall|m: int|
                                0 <= m < j && (#[trigger] cs[m]).len() > 0 implies key_lt(
                                cs[j as int][0].0,
                                cs[m][0].0,
                            ) || (cs[j as int][0].0 == cs[m][0].0 && j <= m) by {
                                lemma_key_lt_le_trans(
                                    cs[j as int][0].0,
                                    cs[best as int][0].0,
                                    cs[m][0].0,
                                );
                            }
                        }
                    }
                    if smaller {
                        best = j;
                    }
                }
            }
            j = j + 1;
        }
        proof {
            if best == n {
                let w = choose|m: int| 0 <= m < cs.len() && (#[trigger] cs[m]).len() > 0;
                assert(cs[w].len() == 0);
            }
        }
        best
    }

    /// Pointwise-equal children give the same failure-freedom verdict.
    proof fn lemma_children_no_fail_eq(&self, other: &Self)
        requires
            self.iters@.len() == other.iters@.len(),
            forall|m: int|
                0 <= m < self.iters@.len() ==> (#[trigger] self.iters@[m]).no_fail()
                    == other.iters@[m].no_fail(),
        ensures
            self.children_no_fail() == other.children_no_fail(),
    {
        if self.children_no_fail() {
            assert forall|m: int|
                0 <= m < other.iters@.len() implies (#[trigger] other.iters@[m]).no_fail() by {
                assert(self.iters@[m].no_fail());
            }
        }
        if other.children_no_fail() {
            assert forall|m: int|
                0 <= m < self.iters@.len() implies (#[trigger] self.iters@[m]).no_fail() by {
                assert(other.iters@[m].no_fail());
            }
        }
    }

    proof fn lemma_some_child(&self)
        requires
            self.wf(),
            merge_streams(self.views()).len() > 0,
        ensures
            exists|j: int| 0 <= j < self.views().len() && (#[trigger] self.views()[j]).len() > 0,
    {
        let cs = self.views();
        if !(exists|j: int| 0 <= j < cs.len() && (#[trigger] cs[j]).len() > 0) {
            assert(forall|j: int| 0 <= j < cs.len() ==> (#[trigger] cs[j]).len() == 0);
            lemma_merge_empty(cs);
        }
    }
}

impl<I: StorageIterator> StorageIterator for MergeIterator<I> {
    open spec fn no_fail(&self) -> bool {
        self.children_no_fail()
    }

    open spec fn inv(&self) -> bool {
        self.wf()
    }

    open spec fn remaining(&self) -> Seq<(Seq<u8>, Seq<u8>)> {
        merge_streams(self.views())
    }

    proof fn lemma_remaining_sorted(&self) {
        let cs = self.views();
        assert forall|j: int| 0 <= j < cs.len() implies entries_sorted(#[trigger] cs[j]) by {
            self.iters@[j].lemma_remaining_sorted();
        }
        lemma_merge_sorted(cs);
    }

    fn key(&self) -> (k: &[u8]) {
        proof {
            self.lemma_some_child();
        }
        let b = self.best_child();
        proof {
            lemma_merge_unfold(self.views(), b as int);
        }
        self.iters[b].key()
    }

    fn value(&self) -> (v: &[u8]) {
        proof {
            self.lemma_some_child();
        }
        let b = self.best_child();
        proof {
            lemma_merge_unfold(self.views(), b as int);
        }
        self.iters[b].value()
    }

    fn is_valid(&self) -> (r: bool) {
        let ghost cs = self.views();
        let n = self.iters.len();
        let mut j: usize = 0;
        while j < n
            invariant
                n == self.iters@.len(),
                j <= n,
                self.wf(),
                cs == self.views(),
                forall|m: int| 0 <= m < j ==> (#[trigger] cs[m]).len() == 0,
            decreases n - j,
        {
            if self.iters[j].is_valid() {
                proof {
                    assert(0 <= j < cs.len() && cs[j as int].len() > 0);
                    let b = lemma_best_exists(cs);
                    lemma_merge_unfold(cs, b);
                }
                return true;
            }
            j = j + 1;
        }
        proof {
            lemma_merge_empty(cs);
        }
        false
    }

    fn next(&mut self) -> (r: Result<(), Error>) {
        let ghost orig = self.views();
        if !self.is_valid() {
            return Ok(());
        }
        proof {
            self.lemma_some_child();
        }
        let best = self.best_child();
        let k: Vec<u8> = crate::keys::copy_key(self.iters[best].key());
        let ghost kk = orig[best as int][0].0;
        let n = self.iters.len();
        let mut j: usize = 0;
        while j < n
            invariant
                n == self.iters@.len(),
                n == old(self).iters@.len(),
                j <= n,
                best < n,
                self.wf(),
                orig == old(self).views(),
                k@ == kk,
                is_best(self.views(), best as int),
                kk == self.views()[best as int][0].0,
                merge_streams(self.views()) == merge_streams(orig),
                forall|m: int|
                    0 <= m < n && (m == best || j <= m) ==> #[trigger] self.views()[m] == orig[m],
                forall|m: int|
                    0 <= m < j && m != best ==> #[trigger] self.views()[m] == orig[m] || (
                    orig[m].len() > 0 && self.views()[m] == orig[m].drop_first()),
                forall|m: int|
                    0 <= m < j && m != best && (#[trigger] self.views()[m]).len() > 0 ==> self.views()[m][0].0
                        != kk,
                forall|m: int|
                    0 <= m < n ==> (#[trigger] self.iters@[m]).no_fail() == old(
                        self,
                    ).iters@[m].no_fail(),
            decreases n - j,
        {
            if j != best {
                if self.iters[j].is_valid() {
                    let dup = eq_keys(self.iters[j].key(), k.as_slice());
                    if dup {
                        let ghost before = self.views();
                        let ghost pre_nf = self.iters@[j as int].no_fail();
                        proof {
                            self.iters@[j as int].lemma_remaining_sorted();
                            lemma_merge_dup_advance(before, best as int, j as int);
                        }
                        let step = self.iters[j].next();
                        match step {
                            Ok(()) => {
                                proof {
                                    assert(self.views() =~= before.update(
                                        j as int,
                                        before[j as int].drop_first(),
                                    ));
                                    let now = self.views();
                                    assert forall|m: int|
                                        0 <= m < now.len() && (#[trigger] now[m]).len()
                                            > 0 implies key_lt(now[best as int][0].0, now[m][0].0)
                                        || (now[best as int][0].0 == now[m][0].0 && best <= m) by {
                                        if m == j {
                                            assert(now[m] == before[m].drop_first());
                                            assert(now[m][0] == before[m][1]);
                                            assert(key_lt(before[m][0].0, before[m][1].0));
                                        }
                                    }
                                    assert forall|m: int|
                                        0 <= m < j + 1 && m != best && (#[trigger] self.views()[m]).len()
                                            > 0 implies self.views()[m][0].0 != kk by {
                                        if m == j {
                                            assert(key_lt(kk, self.views()[m][0].0));
                                            lemma_key_lt_irrefl(kk);
                                        }
                                    }
                                }
                            },
                            Err(e) => {
                                proof {
                                    assert(forall|m: int|
                                        0 <= m < n && m != j ==> self.views()[m] == before[m]);
                                    assert(self.views()[j as int] == before[j as int]);
                                    assert(self.views() =~= before);
                                    assert(merge_streams(self.views()) == merge_streams(orig));
                                    if old(self).no_fail() {
                                        assert(old(self).iters@[j as int].no_fail());
                                        assert(pre_nf);
                                        assert(false);
                                    }
                                    assert forall|m: int|
                                        0 <= m < n implies (#[trigger] self.iters@[m]).no_fail()
                                        == old(self).iters@[m].no_fail() by {
                                        if m == j {
                                            assert(self.iters@[m].no_fail() == pre_nf);
                                        }
                                    }
                                    self.lemma_children_no_fail_eq(old(self));
                                }
                                return Err(e);
                            },
                        }
                    }
                }
            }
            j = j + 1;
        }
        let ghost loop_views = self.views();
        let ghost pre_nf = self.iters@[best as int].no_fail();
        let step = self.iters[best].next();
        match step {
            Ok(()) => {
                proof {
                    assert(self.views() =~= advance_key(loop_views, kk));
                    lemma_merge_unfold(loop_views, best as int);
                    assert(merge_streams(self.views()) =~= merge_streams(loop_views).drop_first());
                    assert(merge_streams(self.views()) =~= merge_streams(orig).drop_first());
                    assert forall|m: int|
                        0 <= m < n implies (#[trigger] self.iters@[m]).no_fail() == old(
                        self,
                    ).iters@[m].no_fail() by {
                        if m == best {
                            assert(self.iters@[m].no_fail() == pre_nf);
                        }
                    }
                    self.lemma_children_no_fail_eq(old(self));
                }
                Ok(())
            },
            Err(e) => {
                proof {
                    assert(self.views() =~= loop_views);
                    if old(self).no_fail() {
                        assert(old(self).iters@[best as int].no_fail());
                        assert(pre_nf);
                        assert(false);
                    }
                    assert forall|m: int|
                        0 <= m < n implies (#[trigger] self.iters@[m]).no_fail() == old(
                        self,
                    ).iters@[m].no_fail() by {
                        if m == best {
                            assert(self.iters@[m].no_fail() == pre_nf);
                        }
                    }
                    self.lemma_children_no_fail_eq(old(self));
                }
                Err(e)
            },
        }
    }
}

} // verus!
