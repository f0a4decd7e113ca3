//! Byte-lexicographic key order, and the lower-bound position used by every
//! seek operation.
use vstd::prelude::*;

verus! {

/// Strict byte-lexicographic order (unsigned byte comparison): `a` sorts
/// before `b`.
pub open spec fn key_lt(a: Seq<u8>, b: Seq<u8>) -> bool
    decreases a.len(),
{
    if b.len() == 0 {
        false
    } else if a.len() == 0 {
        true
    } else if a[0] < b[0] {
        true
    } else if a[0] > b[0] {
        false
    } else {
        key_lt(a.drop_first(), b.drop_first())
    }
}

/// Non-strict byte-lexicographic order.
pub open spec fn key_le(a: Seq<u8>, b: Seq<u8>) -> bool {
    key_lt(a, b) || a == b
}

pub proof fn lemma_key_lt_irrefl(a: Seq<u8>)
    ensures
        !key_lt(a, a),
    decreases a.len(),
{
    if a.len() > 0 {
        lemma_key_lt_irrefl(a.drop_first());
    }
}

/// Exactly one of `a < b`, `a == b`, `b < a` holds.
pub proof fn lemma_key_lt_total(a: Seq<u8>, b: Seq<u8>)
    ensures
        key_lt(a, b) || key_lt(b, a) || a == b,
    decreases a.len(),
{
    if a.len() == 0 && b.len() == 0 {
        assert(a =~= b);
    } else if a.len() > 0 && b.len() > 0 && a[0] == b[0] {
        lemma_key_lt_total(a.drop_first(), b.drop_first());
        if a.drop_first() == b.drop_first() {
            assert(a.drop_first().len() == b.drop_first().len());
            assert(a.len() == b.len());
            assert forall|i: int| 0 <= i < a.len() implies a[i] == b[i] by {
                if i > 0 {
                    assert(a.drop_first()[i - 1] == b.drop_first()[i - 1]);
                    assert(a[i] == a.drop_first()[i - 1]);
                    assert(b[i] == b.drop_first()[i - 1]);
                }
            }
            assert(a =~= b);
        }
    }
}

pub proof fn lemma_key_lt_asym(a: Seq<u8>, b: Seq<u8>)
    ensures
        !(key_lt(a, b) && key_lt(b, a)),
    decreases a.len(),
{
    if a.len() > 0 && b.len() > 0 && a[0] == b[0] {
        lemma_key_lt_asym(a.drop_first(), b.drop_first());
    }
}

pub proof fn lemma_key_lt_trans(a: Seq<u8>, b: Seq<u8>, c: Seq<u8>)
    requires
        key_lt(a, b),
        key_lt(b, c),
    ensures
        key_lt(a, c),
    decreases a.len(),
{
    if a.len() > 0 && b.len() > 0 && c.len() > 0 {
        if a[0] == b[0] && b[0] == c[0] {
            lemma_key_lt_trans(a.drop_first(), b.drop_first(), c.drop_first());
        }
    }
}

/// `key_le` chains with `key_lt` on the left.
pub proof fn lemma_key_le_lt_trans(a: Seq<u8>, b: Seq<u8>, c: Seq<u8>)
    requires
        key_le(a, b),
        key_lt(b, c),
    ensures
        key_lt(a, c),
{
    if key_lt(a, b) {
        lemma_key_lt_trans(a, b, c);
    }
}

/// `key_lt` chains with `key_le` on the right.
pub proof fn lemma_key_lt_le_trans(a: Seq<u8>, b: Seq<u8>, c: Seq<u8>)
    requires
        key_lt(a, b),
        key_le(b, c),
    ensures
        key_lt(a, c),
{
    if key_lt(b, c) {
        lemma_key_lt_trans(a, b, c);
    }
}

proof fn lemma_key_lt_common_prefix(a: Seq<u8>, b: Seq<u8>, i: int)
    requires
        0 <= i <= a.len(),
        i <= b.len(),
        forall|j: int| 0 <= j < i ==> a[j] == b[j],
    ensures
        key_lt(a, b) == key_lt(a.skip(i), b.skip(i)),
    decreases i,
{
    if i > 0 {
        assert(a.len() > 0 && b.len() > 0 && a[0] == b[0]);
        assert(a.drop_first().skip(i - 1) =~= a.skip(i));
        assert(b.drop_first().skip(i - 1) =~= b.skip(i));
        assert(forall|j: int| 0 <= j < i - 1 ==> a.drop_first()[j] == b.drop_first()[j]);
        lemma_key_lt_common_prefix(a.drop_first(), b.drop_first(), i - 1);
    } else {
        assert(a.skip(0) =~= a);
        assert(b.skip(0) =~= b);
    }
}

/// Three-way byte comparison: true exactly when `a` sorts strictly before `b`.
pub fn lt_keys(a: &[u8], b: &[u8]) -> (r: bool)
    ensures
        r == key_lt(a@, b@),
{
    let a_len: usize = a.len();
    let b_len: usize = b.len();
    let mut i: usize = 0;
    loop
        invariant
            0 <= i <= a_len,
            i <= b_len,
            a_len == a@.len(),
            b_len == b@.len(),
            forall|j: int| 0 <= j < i ==> a@[j] == b@[j],
        decreases a_len - i,
    {
        proof {
            lemma_key_lt_common_prefix(a@, b@, i as int);
        }
        if i == a_len || i == b_len {
            // One side is a prefix of the other: the shorter sorts first.
            return a_len < b_len;
        }
        if a[i] != b[i] {
            return a[i] < b[i];
        }
        i = i + 1;
    }
}

/// Byte-string equality.
pub fn eq_keys(a: &[u8], b: &[u8]) -> (r: bool)
    ensures
        r == (a@ == b@),
{
    let a_len: usize = a.len();
    let b_len: usize = b.len();
    if a_len != b_len {
        return false;
    }
    let mut i: usize = 0;
    while i < a_len
        invariant
            0 <= i <= a_len,
            a_len == a@.len(),
            a_len == b@.len(),
            forall|j: int| 0 <= j < i ==> a@[j] == b@[j],
        decreases a_len - i,
    {
        if a[i] != b[i] {
            return false;
        }
        i = i + 1;
    }
    proof {
        assert(a@ =~= b@);
    }
    true
}

/// An owned copy of a byte string.
pub fn copy_key(s: &[u8]) -> (r: Vec<u8>)
    ensures
        r@ == s@,
{
    let mut r: Vec<u8> = Vec::new();
    let mut i: usize = 0;
    while i < s.len()
        invariant
            i <= s@.len(),
            r@ == s@.subrange(0, i as int),
        decreases s@.len() - i,
    {
        r.push(s[i]);
        i = i + 1;
        proof {
            assert(r@ =~= s@.subrange(0, i as int));
        }
    }
    proof {
        assert(r@ =~= s@);
    }
    r
}

/// The entries of a cursor or block, keyed in strictly ascending order.
pub open spec fn entries_sorted(es: Seq<(Seq<u8>, Seq<u8>)>) -> bool {
    forall|i: int, j: int| 0 <= i < j < es.len() ==> key_lt(es[i].0, es[j].0)
}

/// The least index whose key is `>= k`; `es.len()` when every key is below
/// `k`. This is the position every seek-to-key operation lands on.
pub open spec fn seek_pos(es: Seq<(Seq<u8>, Seq<u8>)>, k: Seq<u8>) -> int
    decreases es.len(),
{
    if es.len() == 0 {
        0
    } else if key_le(k, es[0].0) {
        0
    } else {
        1 + seek_pos(es.drop_first(), k)
    }
}

pub proof fn lemma_seek_pos_bounds(es: Seq<(Seq<u8>, Seq<u8>)>, k: Seq<u8>)
    ensures
        0 <= seek_pos(es, k) <= es.len(),
        forall|i: int| 0 <= i < seek_pos(es, k) ==> key_lt(#[trigger] es[i].0, k),
        seek_pos(es, k) < es.len() ==> key_le(k, es[seek_pos(es, k)].0),
    decreases es.len(),
{
    if es.len() > 0 && !key_le(k, es[0].0) {
        lemma_key_lt_total(es[0].0, k);
        lemma_seek_pos_bounds(es.drop_first(), k);
        assert(forall|i: int| 1 <= i < seek_pos(es, k) ==> es[i] == es.drop_first()[i - 1]);
    }
}

/// The seek position is the unique index below which every key is smaller
/// than `k` and at which (if in range) the key is at least `k`.
pub proof fn lemma_seek_pos_unique(es: Seq<(Seq<u8>, Seq<u8>)>, k: Seq<u8>, p: int)
    requires
        0 <= p <= es.len(),
        forall|m: int| 0 <= m < p ==> key_lt(#[trigger] es[m].0, k),
        p < es.len() ==> key_le(k, es[p].0),
    ensures
        seek_pos(es, k) == p,
    decreases es.len(),
{
    if es.len() > 0 {
        if p == 0 {
        } else {
            assert(key_lt(es[0].0, k));
            if key_le(k, es[0].0) {
                lemma_key_lt_le_trans(es[0].0, k, es[0].0);
                lemma_key_lt_irrefl(es[0].0);
            }
            assert(forall|m: int|
                0 <= m < p - 1 ==> #[trigger] es.drop_first()[m] == es[m + 1]);
            if p - 1 < es.drop_first().len() {
                assert(es.drop_first()[p - 1] == es[p]);
            }
            lemma_seek_pos_unique(es.drop_first(), k, p - 1);
        }
    }
}

/// Seeking a concatenation: land inside the front part if it has a key at
/// or above `k`, else skip it whole and seek the back part.
pub proof fn lemma_seek_pos_concat(a: Seq<(Seq<u8>, Seq<u8>)>, b: Seq<(Seq<u8>, Seq<u8>)>, k: Seq<
    u8,
>)
    ensures
        seek_pos(a + b, k) == if seek_pos(a, k) < a.len() {
            seek_pos(a, k)
        } else {
            a.len() + seek_pos(b, k)
        },
    decreases a.len(),
{
    lemma_seek_pos_bounds(a, k);
    if a.len() == 0 {
        assert(a + b =~= b);
    } else {
        assert((a + b)[0] == a[0]);
        assert((a + b).len() > 0);
        if !key_le(k, a[0].0) {
            lemma_seek_pos_concat(a.drop_first(), b, k);
            assert((a + b).drop_first() =~= a.drop_first() + b);
        }
    }
}

/// Skipping stays within the front part of a concatenation.
pub proof fn lemma_concat_skip(
    es: Seq<(Seq<u8>, Seq<u8>)>,
    rest: Seq<(Seq<u8>, Seq<u8>)>,
    q: int,
)
    requires
        0 <= q <= es.len(),
    ensures
        (es + rest).skip(q) == es.skip(q) + rest,
{
    assert((es + rest).skip(q) =~= es.skip(q) + rest);
}

/// Two skips compose.
pub proof fn lemma_skip_skip(s: Seq<(Seq<u8>, Seq<u8>)>, a: int, b: int)
    requires
        0 <= a,
        0 <= b,
        a + b <= s.len(),
    ensures
        s.skip(a).skip(b) == s.skip(a + b),
{
    assert(s.skip(a).skip(b) =~= s.skip(a + b));
}

/// Dropping the head of a suffix-plus-tail concatenation steps the suffix.
pub proof fn lemma_concat_skip_step(
    es: Seq<(Seq<u8>, Seq<u8>)>,
    rest: Seq<(Seq<u8>, Seq<u8>)>,
    p: int,
)
    requires
        0 <= p < es.len(),
    ensures
        (es.skip(p) + rest).drop_first() == es.skip(p + 1) + rest,
{
    assert((es.skip(p) + rest).drop_first() =~= es.skip(p + 1) + rest);
}

/// When the suffix holds a single entry, dropping it leaves the tail.
pub proof fn lemma_concat_skip_last(
    es: Seq<(Seq<u8>, Seq<u8>)>,
    rest: Seq<(Seq<u8>, Seq<u8>)>,
    p: int,
)
    requires
        0 <= p,
        p == es.len() - 1,
    ensures
        (es.skip(p) + rest).drop_first() == rest,
{
    assert((es.skip(p) + rest).drop_first() =~= rest);
}

/// On a sorted run, seeking to a key that is present lands exactly on it.
pub proof fn lemma_seek_pos_found(es: Seq<(Seq<u8>, Seq<u8>)>, k: Seq<u8>, j: int)
    requires
        entries_sorted(es),
        0 <= j < es.len(),
        es[j].0 == k,
    ensures
        seek_pos(es, k) < es.len(),
        es[seek_pos(es, k)].0 == k,
{
    let p = seek_pos(es, k);
    lemma_seek_pos_bounds(es, k);
    lemma_key_lt_irrefl(k);
    assert(p <= j);
    if p < j {
        lemma_key_le_lt_trans(k, es[p].0, es[j].0);
    }
}

/// Seeking past every stored key yields the end position.
pub proof fn lemma_seek_pos_all_below(es: Seq<(Seq<u8>, Seq<u8>)>, k: Seq<u8>)
    requires
        forall|i: int| 0 <= i < es.len() ==> key_lt(#[trigger] es[i].0, k),
    ensures
        seek_pos(es, k) == es.len(),
{
    let p = seek_pos(es, k);
    lemma_seek_pos_bounds(es, k);
    if p < es.len() {
        lemma_key_le_lt_trans(k, es[p].0, k);
        lemma_key_lt_irrefl(k);
    }
}

} // verus!
