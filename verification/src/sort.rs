//! Stable sorting by keys: the order in which a list is to be read so that
//! its keys do not decrease, equal keys keeping their original order.
use vstd::prelude::*;

verus! {

/// A key type with a total preorder.
pub trait SortKey: Sized {
    spec fn key_le(&self, other: &Self) -> bool;

    proof fn lemma_total(a: &Self, b: &Self)
        ensures
            a.key_le(b) || b.key_le(a),
    ;

    proof fn lemma_trans(a: &Self, b: &Self, c: &Self)
        requires
            a.key_le(b),
            b.key_le(c),
        ensures
            a.key_le(c),
    ;

    fn le(&self, other: &Self) -> (r: bool)
        ensures
            r == self.key_le(other),
    ;
}

/// Lexicographic order of character sequences by code point, which is the
/// order `String` compares in (UTF-8 keeps code point order).
pub open spec fn chars_le(a: Seq<char>, b: Seq<char>) -> bool
    decreases a.len(),
{
    if a.len() == 0 {
        true
    } else if b.len() == 0 {
        false
    } else if a[0] < b[0] {
        true
    } else if a[0] > b[0] {
        false
    } else {
        chars_le(a.drop_first(), b.drop_first())
    }
}

pub proof fn lemma_chars_le_total(a: Seq<char>, b: Seq<char>)
    ensures
        chars_le(a, b) || chars_le(b, a),
    decreases a.len(),
{
    if a.len() > 0 && b.len() > 0 && a[0] == b[0] {
        lemma_chars_le_total(a.drop_first(), b.drop_first());
    }
}

pub proof fn lemma_chars_le_trans(a: Seq<char>, b: Seq<char>, c: Seq<char>)
    requires
        chars_le(a, b),
        chars_le(b, c),
    ensures
        chars_le(a, c),
    decreases a.len(),
{
    if a.len() > 0 && b.len() > 0 && c.len() > 0 && a[0] == b[0] && b[0]
        == c[0] {
        lemma_chars_le_trans(a.drop_first(), b.drop_first(), c.drop_first());
    }
}

impl SortKey for String {
    open spec fn key_le(&self, other: &Self) -> bool {
        chars_le(self@, other@)
    }

    proof fn lemma_total(a: &Self, b: &Self) {
        lemma_chars_le_total(a@, b@);
    }

    proof fn lemma_trans(a: &Self, b: &Self, c: &Self) {
        lemma_chars_le_trans(a@, b@, c@);
    }

    fn le(&self, other: &Self) -> (r: bool) {
        let a = crate::text::chars_of(self.as_str());
        let b = crate::text::chars_of(other.as_str());
        let mut i: usize = 0;
        assert(a@.skip(0) == a@);
        assert(b@.skip(0) == b@);
        while i < a.len() && i < b.len() && a[i] == b[i]
            invariant
                i <= a.len(),
                i <= b.len(),
                a@ == self@,
                b@ == other@,
                chars_le(self@, other@) == chars_le(a@.skip(i as int), b@.skip(i as int)),
            decreases a.len() - i,
        {
            proof {
                assert(a@.skip(i as int)[0] == a@[i as int]);
                assert(b@.skip(i as int)[0] == b@[i as int]);
                assert(a@.skip(i as int).drop_first() == a@.skip(i + 1));
                assert(b@.skip(i as int).drop_first() == b@.skip(i + 1));
            }
            i += 1;
        }
        proof {
            if i < a.len() {
                assert(a@.skip(i as int)[0] == a@[i as int]);
            }
            if i < b.len() {
                assert(b@.skip(i as int)[0] == b@[i as int]);
            }
            if i < a.len() && i < b.len() {
                assert(a@[i as int] != b@[i as int]);
            }
            if i == a.len() {
                assert(a@.skip(i as int).len() == 0);
            }
        }
        if i == a.len() {
            true
        } else if i == b.len() {
            false
        } else {
            a[i] < b[i]
        }
    }
}

impl SortKey for (usize, usize) {
    open spec fn key_le(&self, other: &Self) -> bool {
        self.0 < other.0 || (self.0 == other.0 && self.1 <= other.1)
    }

    proof fn lemma_total(a: &Self, b: &Self) {
    }

    proof fn lemma_trans(a: &Self, b: &Self, c: &Self) {
    }

    fn le(&self, other: &Self) -> (r: bool) {
        self.0 < other.0 || (self.0 == other.0 && self.1 <= other.1)
    }
}

/// `order` lists each index below `n` exactly once.
pub open spec fn is_permutation(order: Seq<usize>, n: nat) -> bool {
    &&& order.len() == n
    &&& forall|i: int| 0 <= i < order.len() ==> #[trigger] order[i] < n
    &&& forall|i: int, j: int| 0 <= i < j < order.len() ==> order[i] != order[j]
}

/// Read in `order`, the keys do not decrease, and equal keys keep the order
/// they had: the one result of a stable sort.
pub open spec fn is_stable_order<K: SortKey>(keys: Seq<K>, order: Seq<usize>) -> bool {
    &&& is_permutation(order, keys.len())
    &&& forall|i: int, j: int|
        #![trigger order[i], order[j]]
        0 <= i < j < order.len() ==> keys[order[i] as int].key_le(&keys[order[j] as int])
    &&& forall|i: int, j: int|
        #![trigger order[i], order[j]]
        0 <= i < j < order.len() && keys[order[j] as int].key_le(&keys[order[i] as int])
            ==> order[i] < order[j]
}

/// The stable sorting order of `keys` (insertion sort).
#[verifier::rlimit(40)]
pub fn stable_order<K: SortKey>(keys: &Vec<K>) -> (order: Vec<usize>)
    ensures
        is_stable_order(keys@, order@),
{
    let mut order: Vec<usize> = Vec::new();
    let mut n: usize = 0;
    while n < keys.len()
        invariant
            n <= keys.len(),
            is_stable_order(keys@.take(n as int), order@),
        decreases keys.len() - n,
    {
        let ghost pre = keys@.take(n as int);
        // insert index n after every entry whose key is not greater
        let mut p: usize = order.len();
        while p > 0 && keys[n].le(&keys[order[p - 1]]) && !keys[order[p - 1]].le(&keys[n])
            invariant
                p <= order.len(),
                n < keys.len(),
                is_stable_order(pre, order@),
                pre == keys@.take(n as int),
                forall|t: int|
                    p <= t < order.len() ==> keys@[n as int].key_le(&keys@[order@[t] as int])
                        && !keys@[order@[t] as int].key_le(&keys@[n as int]),
            decreases p,
        {
            assert(order@[p - 1] < n);
            assert(pre[order@[p - 1] as int] == keys@[order@[p - 1] as int]);
            p -= 1;
        }
        let ghost old_order = order@;
        proof {
            assert forall|t: int| 0 <= t < old_order.len() implies old_order[t] < n by {
                assert(old_order[t] < pre.len());
            }
            if p > 0 {
                let q = old_order[p - 1];
                assert(pre[q as int] == keys@[q as int]);
                K::lemma_total(&keys@[n as int], &keys@[q as int]);
                // keys[q] <= keys[n]
                assert(keys@[q as int].key_le(&keys@[n as int]));
            }
        }
        order.insert(p, n);
        proof {
            let ks = keys@.take(n + 1);
            assert forall|t: int| 0 <= t < order@.len() implies #[trigger] order@[t] < ks.len() by {
                if t < p {
                    assert(order@[t] == old_order[t]);
                } else if t > p {
                    assert(order@[t] == old_order[t - 1]);
                }
            }
            assert forall|i: int, j: int|
                #![trigger order@[i], order@[j]]
                0 <= i < j < order@.len() implies order@[i] != order@[j] by {
                if i < p && j < p {
                    assert(order@[i] == old_order[i] && order@[j] == old_order[j]);
                } else if i < p && j == p {
                    assert(order@[i] == old_order[i]);
                } else if i < p {
                    assert(order@[i] == old_order[i] && order@[j] == old_order[j - 1]);
                } else if i == p {
                    assert(order@[j] == old_order[j - 1]);
                } else {
                    assert(order@[i] == old_order[i - 1] && order@[j] == old_order[j - 1]);
                }
            }
            assert forall|i: int, j: int|
                #![trigger order@[i], order@[j]]
                0 <= i < j < order@.len() implies ks[order@[i] as int].key_le(
                &ks[order@[j] as int],
            ) by {
                let oi = order@[i];
                let oj = order@[j];
                assert(ks[oi as int] == keys@[oi as int]);
                assert(ks[oj as int] == keys@[oj as int]);
                if i < p && j < p {
                    assert(oi == old_order[i] && oj == old_order[j]);
                    assert(pre[oi as int] == keys@[oi as int]);
                    assert(pre[oj as int] == keys@[oj as int]);
                } else if i < p && j == p {
                    assert(oi == old_order[i]);
                    assert(pre[oi as int] == keys@[oi as int]);
                    let q = old_order[p - 1];
                    assert(pre[q as int] == keys@[q as int]);
                    if i < p - 1 {
                        K::lemma_trans(&keys@[oi as int], &keys@[q as int], &keys@[n as int]);
                    }
                } else if i < p {
                    assert(oi == old_order[i] && oj == old_order[j - 1]);
                    assert(pre[oi as int] == keys@[oi as int]);
                    assert(pre[oj as int] == keys@[oj as int]);
                } else if i == p {
                    assert(oj == old_order[j - 1]);
                } else {
                    assert(oi == old_order[i - 1] && oj == old_order[j - 1]);
                    assert(pre[oi as int] == keys@[oi as int]);
                    assert(pre[oj as int] == keys@[oj as int]);
                }
            }
            assert forall|i: int, j: int|
                #![trigger order@[i], order@[j]]
                0 <= i < j < order@.len() && ks[order@[j] as int].key_le(&ks[order@[i] as int])
                    implies order@[i] < order@[j] by {
                let oi = order@[i];
                let oj = order@[j];
                assert(ks[oi as int] == keys@[oi as int]);
                assert(ks[oj as int] == keys@[oj as int]);
                if i < p && j < p {
                    assert(oi == old_order[i] && oj == old_order[j]);
                    assert(pre[oi as int] == keys@[oi as int]);
                    assert(pre[oj as int] == keys@[oj as int]);
                } else if i < p && j == p {
                    assert(oi == old_order[i]);
                } else if i < p {
                    assert(oi == old_order[i] && oj == old_order[j - 1]);
                    assert(pre[oi as int] == keys@[oi as int]);
                    assert(pre[oj as int] == keys@[oj as int]);
                } else if i == p {
                    assert(oj == old_order[j - 1]);
                    // keys[n] < keys[oj] strictly, so keys[oj] <= keys[n] is false
                    assert(!keys@[oj as int].key_le(&keys@[n as int]));
                } else {
                    assert(oi == old_order[i - 1] && oj == old_order[j - 1]);
                    assert(pre[oi as int] == keys@[oi as int]);
                    assert(pre[oj as int] == keys@[oj as int]);
                }
            }
        }
        n += 1;
    }
    assert(keys@.take(keys.len() as int) == keys@);
    order
}

/// Every index below `n` occurs in a permutation of them.
#[verifier::rlimit(40)]
pub proof fn lemma_permutation_onto(order: Seq<usize>, n: nat, x: int)
    requires
        is_permutation(order, n),
        0 <= x < n,
    ensures
        exists|k: int| 0 <= k < order.len() && order[k] as int == x,
{
    let oi = order.map_values(|v: usize| v as int);
    assert(oi.no_duplicates()) by {
        assert forall|i: int, j: int| 0 <= i < oi.len() && 0 <= j < oi.len() && i != j implies oi[i]
            != oi[j] by {
            if i < j {
                assert(order[i] != order[j]);
            } else {
                assert(order[j] != order[i]);
            }
        }
    }
    oi.unique_seq_to_set();
    vstd::seq_lib::seq_to_set_is_finite(oi);
    vstd::set_lib::lemma_int_range(0, n as int);
    let range = vstd::set_lib::set_int_range(0, n as int);
    assert(oi.to_set().subset_of(range)) by {
        assert forall|v: int| oi.to_set().contains(v) implies range.contains(v) by {
            assert(oi.contains(v));
            let k = choose|k: int| 0 <= k < oi.len() && oi[k] == v;
            assert(order[k] < n);
        }
    }
    vstd::set_lib::lemma_subset_equality(oi.to_set(), range);
    assert(range.contains(x));
    assert(oi.to_set().contains(x));
    assert(oi.contains(x));
    let k = choose|k: int| 0 <= k < oi.len() && oi[k] == x;
    assert(order[k] as int == x);
}

#[verifier::rlimit(40)]
proof fn lemma_stable_prefix<K: SortKey>(keys: Seq<K>, o1: Seq<usize>, o2: Seq<usize>, i: int)
    requires
        is_stable_order(keys, o1),
        is_stable_order(keys, o2),
        0 <= i <= o1.len(),
    ensures
        forall|j: int| 0 <= j < i ==> o1[j] == o2[j],
    decreases i,
{
    if i > 0 {
        lemma_stable_prefix(keys, o1, o2, i - 1);
        let j = i - 1;
        let a = o1[j];
        let b = o2[j];
        if a != b {
            lemma_permutation_onto(o1, keys.len(), b as int);
            let k = choose|k: int| 0 <= k < o1.len() && o1[k] as int == b as int;
            if k < j {
                assert(o1[k] == o2[k]);
                assert(o2[k] != o2[j]);
            }
            assert(k > j);
            lemma_permutation_onto(o2, keys.len(), a as int);
            let m = choose|m: int| 0 <= m < o2.len() && o2[m] as int == a as int;
            if m < j {
                assert(o1[m] == o2[m]);
                assert(o1[m] != o1[j]);
            }
            assert(m > j);
            assert(keys[o1[j] as int].key_le(&keys[o1[k] as int]));
            assert(keys[o2[j] as int].key_le(&keys[o2[m] as int]));
            assert(o1[j] < o1[k]);
            assert(o2[j] < o2[m]);
            assert(false);
        }
    }
}

/// Law: a list has one stable sorting order; so a stable sort's result is
/// determined by the keys.
pub proof fn law_stable_order_unique<K: SortKey>(keys: Seq<K>, o1: Seq<usize>, o2: Seq<usize>)
    requires
        is_stable_order(keys, o1),
        is_stable_order(keys, o2),
    ensures
        o1 == o2,
{
    lemma_stable_prefix(keys, o1, o2, o1.len() as int);
    assert(o1 =~= o2);
}

} // verus!
