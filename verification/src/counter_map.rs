//! Maps from identifiers to counters, where a missing identifier counts as
//! zero: the shared mathematics of vector clocks and grow-only counters.

use vstd::prelude::*;
use crate::id_map::strictly_increasing;

verus! {

/// The counter of `k` in `m`; an absent key counts as zero.
pub open spec fn count_of(m: Map<u64, u64>, k: u64) -> u64 {
    if m.contains_key(k) {
        m[k]
    } else {
        0
    }
}

/// Component-wise maximum of two counter maps, over the union of their keys.
pub open spec fn pointwise_max(a: Map<u64, u64>, b: Map<u64, u64>) -> Map<u64, u64> {
    Map::new(
        |k: u64| a.contains_key(k) || b.contains_key(k),
        |k: u64|
            if count_of(a, k) >= count_of(b, k) {
                count_of(a, k)
            } else {
                count_of(b, k)
            },
    )
}

/// Some component of `a` is strictly below the same component of `b`.
pub open spec fn has_lower(a: Map<u64, u64>, b: Map<u64, u64>) -> bool {
    exists|k: u64| count_of(a, k) < count_of(b, k)
}

/// Every component of `a` is at most the same component of `b`.
pub open spec fn dominated_by(a: Map<u64, u64>, b: Map<u64, u64>) -> bool {
    forall|k: u64| count_of(a, k) <= count_of(b, k)
}

/// Sum of a sequence of counts.
pub open spec fn sum_of(s: Seq<u64>) -> int
    decreases s.len(),
{
    if s.len() == 0 {
        0
    } else {
        sum_of(s.drop_last()) + s.last()
    }
}

/// Sum of all the counts of a counter map.
pub open spec fn total_of(m: Map<u64, u64>) -> int {
    m.dom().fold(0int, |acc: int, k: u64| acc + m[k])
}

/// The set of the listed keys.
spec fn key_set(keys: Seq<u64>) -> Set<u64>
    decreases keys.len(),
{
    if keys.len() == 0 {
        Set::empty()
    } else {
        key_set(keys.drop_last()).insert(keys.last())
    }
}

proof fn lemma_key_set(keys: Seq<u64>)
    ensures
        key_set(keys).finite(),
        forall|k: u64| #[trigger] key_set(keys).contains(k) <==> keys.contains(k),
    decreases keys.len(),
{
    if keys.len() > 0 {
        let rest = keys.drop_last();
        lemma_key_set(rest);
        assert forall|k: u64| #[trigger] key_set(keys).contains(k) <==> keys.contains(k) by {
            if keys.contains(k) && k != keys.last() {
                let p = choose|p: int| 0 <= p < keys.len() && keys[p] == k;
                assert(rest[p] == k);
            }
            if rest.contains(k) {
                let p = choose|p: int| 0 <= p < rest.len() && rest[p] == k;
                assert(keys[p] == k);
            }
            if k == keys.last() {
                assert(keys[keys.len() - 1] == k);
            }
        }
    }
}

proof fn lemma_fold_listing(m: Map<u64, u64>, keys: Seq<u64>, vals: Seq<u64>)
    requires
        keys.len() == vals.len(),
        strictly_increasing(keys),
        forall|i: int| 0 <= i < keys.len() ==> m[#[trigger] keys[i]] == vals[i],
    ensures
        key_set(keys).fold(0int, |acc: int, k: u64| acc + m[k]) == sum_of(vals),
    decreases keys.len(),
{
    let f = |acc: int, k: u64| acc + m[k];
    assert(vstd::set::fold::is_fun_commutative(f));
    if keys.len() == 0 {
        vstd::set::fold::lemma_fold_empty(0int, f);
    } else {
        let rest = keys.drop_last();
        assert forall|i: int| 0 <= i < rest.len() implies m[#[trigger] rest[i]] == vals.drop_last()[i] by {
            assert(rest[i] == keys[i]);
        }
        lemma_fold_listing(m, rest, vals.drop_last());
        lemma_key_set(rest);
        if rest.contains(keys.last()) {
            let p = choose|p: int| 0 <= p < rest.len() && rest[p] == keys.last();
            assert(keys[p] < keys[keys.len() - 1]);
        }
        vstd::set::fold::lemma_fold_insert(key_set(rest), 0int, f, keys.last());
        assert(m[keys[keys.len() - 1]] == vals[vals.len() - 1]);
    }
}

/// Summing the counts of a counter map listed by its keys in ascending
/// order gives its total.
pub proof fn lemma_total_of_listing(m: Map<u64, u64>, keys: Seq<u64>, vals: Seq<u64>)
    requires
        keys.len() == vals.len(),
        strictly_increasing(keys),
        forall|i: int| 0 <= i < keys.len() ==> #[trigger] m.contains_key(keys[i]) && m[keys[i]] == vals[i],
        forall|k: u64| #[trigger] m.contains_key(k) ==> keys.contains(k),
    ensures
        sum_of(vals) == total_of(m),
{
    lemma_key_set(keys);
    assert forall|i: int| 0 <= i < keys.len() implies m[#[trigger] keys[i]] == vals[i] by {
        assert(m.contains_key(keys[i]));
    }
    lemma_fold_listing(m, keys, vals);
    assert forall|k: u64| #[trigger] m.dom().contains(k) <==> key_set(keys).contains(k) by {
        if keys.contains(k) {
            let p = choose|p: int| 0 <= p < keys.len() && keys[p] == k;
            assert(m.contains_key(keys[p]));
        }
    }
    assert(m.dom() =~= key_set(keys));
}

proof fn lemma_fold_agree(s: Set<u64>, a: Map<u64, u64>, b: Map<u64, u64>)
    requires
        s.finite(),
        forall|k: u64| #[trigger] s.contains(k) ==> a[k] == b[k],
    ensures
        s.fold(0int, |acc: int, k: u64| acc + a[k]) == s.fold(0int, |acc: int, k: u64| acc + b[k]),
    decreases s.len(),
{
    let fa = |acc: int, k: u64| acc + a[k];
    let fb = |acc: int, k: u64| acc + b[k];
    assert(vstd::set::fold::is_fun_commutative(fa));
    assert(vstd::set::fold::is_fun_commutative(fb));
    if s.len() == 0 {
        assert(s =~= Set::<u64>::empty());
        vstd::set::fold::lemma_fold_empty(0int, fa);
        vstd::set::fold::lemma_fold_empty(0int, fb);
    } else {
        let k = s.choose();
        let rest = s.remove(k);
        assert(rest.insert(k) =~= s);
        lemma_fold_agree(rest, a, b);
        vstd::set::fold::lemma_fold_insert(rest, 0int, fa, k);
        vstd::set::fold::lemma_fold_insert(rest, 0int, fb, k);
    }
}

/// An empty counter map totals zero.
pub proof fn lemma_total_of_empty()
    ensures
        total_of(Map::<u64, u64>::empty()) == 0,
{
    let m = Map::<u64, u64>::empty();
    assert(m.dom() =~= Set::<u64>::empty());
    vstd::set::fold::lemma_fold_empty(0int, |acc: int, k: u64| acc + m[k]);
}

/// Setting the count of `k` to `v` changes the total by the difference
/// between the new and the old count.
pub proof fn lemma_total_of_insert(m: Map<u64, u64>, k: u64, v: u64)
    requires
        m.dom().finite(),
    ensures
        total_of(m.insert(k, v)) == total_of(m) - count_of(m, k) + v,
{
    let n = m.insert(k, v);
    let fm = |acc: int, j: u64| acc + m[j];
    let fn_ = |acc: int, j: u64| acc + n[j];
    assert(vstd::set::fold::is_fun_commutative(fm));
    assert(vstd::set::fold::is_fun_commutative(fn_));
    let rest = m.dom().remove(k);
    lemma_fold_agree(rest, m, n);
    assert(n.dom() =~= rest.insert(k));
    vstd::set::fold::lemma_fold_insert(rest, 0int, fn_, k);
    if m.contains_key(k) {
        assert(m.dom() =~= rest.insert(k));
        vstd::set::fold::lemma_fold_insert(rest, 0int, fm, k);
    } else {
        assert(m.dom() =~= rest);
    }
}

/// Counts of the maximum agree with the maximum of the counts.
pub proof fn lemma_count_of_max(a: Map<u64, u64>, b: Map<u64, u64>, k: u64)
    ensures
        count_of(pointwise_max(a, b), k) == if count_of(a, k) >= count_of(b, k) {
            count_of(a, k)
        } else {
            count_of(b, k)
        },
{
}

/// Two counter maps with the same keys and the same counts are equal.
pub proof fn lemma_counts_determine(a: Map<u64, u64>, b: Map<u64, u64>)
    requires
        a.dom() == b.dom(),
        forall|k: u64| count_of(a, k) == count_of(b, k),
    ensures
        a == b,
{
    assert forall|k: u64| a.contains_key(k) implies a[k] == b[k] by {
        assert(count_of(a, k) == count_of(b, k));
    }
    assert(a =~= b);
}

/// Merging is commutative, associative and idempotent: replicas that
/// exchange states in any order, any number of times, agree.
pub proof fn lemma_merge_laws(a: Map<u64, u64>, b: Map<u64, u64>, c: Map<u64, u64>)
    ensures
        pointwise_max(a, b) == pointwise_max(b, a),
        pointwise_max(pointwise_max(a, b), c) == pointwise_max(a, pointwise_max(b, c)),
        pointwise_max(a, a) == a,
{
    assert(pointwise_max(a, b) =~= pointwise_max(b, a));
    assert(pointwise_max(pointwise_max(a, b), c) =~= pointwise_max(a, pointwise_max(b, c)));
    assert(pointwise_max(a, a) =~= a);
}

/// Merging only grows: each side is dominated by the merge.
pub proof fn lemma_merge_dominates(a: Map<u64, u64>, b: Map<u64, u64>)
    ensures
        dominated_by(a, pointwise_max(a, b)),
        dominated_by(b, pointwise_max(a, b)),
{
}

} // verus!
