//! Ordered maps and sets keyed by integer identifiers.
//!
//! The entries live in a `BTreeMap` (members in a `BTreeSet`), beside the
//! strictly increasing list of the keys, so walking the collection by
//! position visits the keys in ascending order.

use vstd::prelude::*;

verus! {

broadcast use vstd::std_specs::btree::group_btree_axioms, vstd::laws_cmp::group_laws_cmp;

/// The keys of `s` strictly increase from left to right.
pub open spec fn strictly_increasing(s: Seq<u64>) -> bool {
    forall|i: int, j: int| 0 <= i < j < s.len() ==> s[i] < s[j]
}

/// Extending a prefix by one element adds exactly that element.
pub proof fn lemma_take_push_contains<A>(s: Seq<A>, i: int)
    requires
        0 <= i < s.len(),
    ensures
        s.take(i + 1) == s.take(i).push(s[i]),
        forall|k: A| #[trigger] s.take(i + 1).contains(k) <==> (s.take(i).contains(k) || k == s[i]),
{
    assert(s.take(i + 1) == s.take(i).push(s[i]));
    let t1 = s.take(i + 1);
    let t0 = s.take(i);
    assert forall|k: A| #[trigger] t1.contains(k) <==> (t0.contains(k) || k == s[i]) by {
        if t1.contains(k) {
            let j = choose|j: int| 0 <= j < t1.len() && t1[j] == k;
            if j < i {
                assert(t0[j] == k);
            }
        }
        if t0.contains(k) {
            let j = choose|j: int| 0 <= j < t0.len() && t0[j] == k;
            assert(t1[j] == k);
        }
        if k == s[i] {
            assert(t1[i] == k);
        }
    }
}

/// In a strictly increasing sequence, the position of an element is the
/// index at which it stands.
pub proof fn lemma_index_of_increasing(s: Seq<u64>, i: int)
    requires
        strictly_increasing(s),
        0 <= i < s.len(),
    ensures
        s.index_of(s[i]) == i,
{
    let j = s.index_of(s[i]);
    assert(0 <= j < s.len() && s[j] == s[i]);
    if j < i {
        assert(s[j] < s[i]);
    } else if i < j {
        assert(s[i] < s[j]);
    }
}

/// How many elements of `s` satisfy `p`.
pub open spec fn count_where(s: Seq<u64>, p: spec_fn(u64) -> bool) -> nat
    decreases s.len(),
{
    if s.len() == 0 {
        0
    } else {
        count_where(s.drop_last(), p) + if p(s.last()) {
            1nat
        } else {
            0nat
        }
    }
}

/// Counts of two predicates that never hold together add up to at most the
/// length counted over.
pub proof fn lemma_count_where_disjoint(s: Seq<u64>, p: spec_fn(u64) -> bool, q: spec_fn(u64) -> bool)
    requires
        forall|x: u64| !(#[trigger] p(x) && q(x)),
    ensures
        count_where(s, p) + count_where(s, q) <= s.len(),
    decreases s.len(),
{
    if s.len() > 0 {
        lemma_count_where_disjoint(s.drop_last(), p, q);
        assert(!(p(s.last()) && q(s.last())));
    }
}

/// A count can only grow when the predicate is widened on the counted
/// elements.
pub proof fn lemma_count_where_mono(s: Seq<u64>, p: spec_fn(u64) -> bool, q: spec_fn(u64) -> bool)
    requires
        forall|i: int| 0 <= i < s.len() && #[trigger] p(s[i]) ==> q(s[i]),
    ensures
        count_where(s, p) <= count_where(s, q),
    decreases s.len(),
{
    if s.len() > 0 {
        let r = s.drop_last();
        assert forall|i: int| 0 <= i < r.len() && #[trigger] p(r[i]) implies q(r[i]) by {
            assert(r[i] == s[i]);
        }
        lemma_count_where_mono(r, p, q);
        assert(s.last() == s[s.len() - 1]);
    }
}

/// A count never exceeds the length counted over.
pub proof fn lemma_count_where_bound(s: Seq<u64>, p: spec_fn(u64) -> bool)
    ensures
        count_where(s, p) <= s.len(),
    decreases s.len(),
{
    if s.len() > 0 {
        lemma_count_where_bound(s.drop_last(), p);
    }
}

/// A finite map keyed by `u64`: the entries live in a `BTreeMap`, beside
/// the ascending list of its keys, which gives positional access.
#[derive(Clone, Debug, PartialEq, Eq)]
pub struct IdMap<V> {
    keys: Vec<u64>,
    map: std::collections::BTreeMap<u64, V>,
}

impl<V> View for IdMap<V> {
    type V = Map<u64, V>;

    closed spec fn view(&self) -> Map<u64, V> {
        self.map@
    }
}

impl<V> IdMap<V> {
    /// The keys, in ascending order.
    pub closed spec fn key_seq(&self) -> Seq<u64> {
        self.keys@
    }

    /// The values, in the order of their keys.
    pub closed spec fn val_seq(&self) -> Seq<V> {
        self.keys@.map_values(|k: u64| self.map@[k])
    }

    /// The map is well formed: the key sequence is the ascending list of
    /// the map's domain and the value sequence lines up with it.
    pub open spec fn inv(&self) -> bool {
        &&& self.key_seq().len() == self.val_seq().len()
        &&& strictly_increasing(self.key_seq())
        &&& self@.dom().finite()
        &&& self@.len() == self.key_seq().len()
        &&& forall|i: int|
            0 <= i < self.key_seq().len() ==> #[trigger] self@.contains_key(self.key_seq()[i])
                && self@[self.key_seq()[i]] == self.val_seq()[i]
        &&& forall|k: u64| #[trigger] self@.contains_key(k) ==> self.key_seq().contains(k)
    }

    /// A map held in memory lists at most `usize::MAX` keys.
    pub proof fn lemma_len_bound(&self)
        ensures
            self.key_seq().len() <= usize::MAX,
    {
        assert(self.keys.len() == self.keys@.len());
    }

    proof fn lemma_inv(&self)
        requires
            strictly_increasing(self.keys@),
            forall|k: u64| #[trigger] self.map@.contains_key(k) <==> self.keys@.contains(k),
        ensures
            self.inv(),
    {
        assert forall|i: int| 0 <= i < self.key_seq().len() implies #[trigger] self@.contains_key(
            self.key_seq()[i],
        ) && self@[self.key_seq()[i]] == self.val_seq()[i] by {
            assert(self.keys@.contains(self.keys@[i]));
        }
        assert(self@.dom() =~= self.keys@.to_set());
        self.keys@.unique_seq_to_set();
    }

    /// An empty map.
    pub fn new() -> (m: Self)
        ensures
            m.inv(),
            m@ == Map::<u64, V>::empty(),
    {
        let m = IdMap { keys: Vec::new(), map: std::collections::BTreeMap::new() };
        proof {
            m.lemma_inv();
        }
        m
    }

    /// Number of keys.
    pub fn len(&self) -> (n: usize)
        requires
            self.inv(),
        ensures
            n == self@.len(),
            n == self.key_seq().len(),
    {
        self.keys.len()
    }

    /// The key at a position of the ascending order.
    pub fn key_at(&self, i: usize) -> (k: u64)
        requires
            self.inv(),
            i < self.key_seq().len(),
        ensures
            k == self.key_seq()[i as int],
    {
        self.keys[i]
    }

    /// The value at a position of the ascending order.
    pub fn value_at(&self, i: usize) -> (v: &V)
        requires
            self.inv(),
            i < self.key_seq().len(),
        ensures
            *v == self.val_seq()[i as int],
            *v == self@[self.key_seq()[i as int]],
    {
        let k = self.keys[i];
        proof {
            assert(self@.contains_key(self.key_seq()[i as int]));
        }
        self.map.get(&k).unwrap()
    }

    /// The first position whose key is at least `k` (the length when none is).
    pub fn lower_bound(&self, k: u64) -> (i: usize)
        requires
            self.inv(),
        ensures
            i <= self.key_seq().len(),
            forall|j: int| 0 <= j < i ==> self.key_seq()[j] < k,
            forall|j: int| i <= j < self.key_seq().len() ==> self.key_seq()[j] >= k,
    {
        let mut i: usize = 0;
        while i < self.keys.len()
            invariant
                i <= self.keys@.len(),
                strictly_increasing(self.keys@),
                forall|j: int| 0 <= j < i ==> self.keys@[j] < k,
            decreases self.keys@.len() - i,
        {
            if self.keys[i] >= k {
                return i;
            }
            i = i + 1;
        }
        i
    }

    /// Whether the key is present.
    pub fn contains_key(&self, k: u64) -> (b: bool)
        requires
            self.inv(),
        ensures
            b == self@.contains_key(k),
    {
        self.map.contains_key(&k)
    }

    /// The value stored under a key.
    pub fn get(&self, k: u64) -> (r: Option<&V>)
        requires
            self.inv(),
        ensures
            match r {
                Some(v) => self@.contains_key(k) && *v == self@[k],
                None => !self@.contains_key(k),
            },
    {
        self.map.get(&k)
    }

    /// Stores `v` under `k` and hands back what was stored there before.
    pub fn insert(&mut self, k: u64, v: V) -> (old_v: Option<V>)
        requires
            old(self).inv(),
        ensures
            final(self).inv(),
            final(self)@ == old(self)@.insert(k, v),
            old(self)@.contains_key(k) ==> final(self).key_seq() == old(self).key_seq(),
            match old_v {
                Some(w) => old(self)@.contains_key(k) && w == old(self)@[k],
                None => !old(self)@.contains_key(k),
            },
    {
        if !self.map.contains_key(&k) {
            sorted_insert(&mut self.keys, k);
        }
        let w = self.map.insert(k, v);
        proof {
            self.lemma_inv();
        }
        w
    }

    /// Removes a key and hands back its value.
    pub fn remove(&mut self, k: u64) -> (old_v: Option<V>)
        requires
            old(self).inv(),
        ensures
            final(self).inv(),
            final(self)@ == old(self)@.remove(k),
            match old_v {
                Some(w) => old(self)@.contains_key(k) && w == old(self)@[k],
                None => !old(self)@.contains_key(k),
            },
    {
        if self.map.contains_key(&k) {
            sorted_remove(&mut self.keys, k);
        }
        let w = self.map.remove(&k);
        proof {
            self.lemma_inv();
        }
        w
    }
}

impl<V: Copy> IdMap<V> {
    /// An independent copy of the map.
    pub fn duplicate(&self) -> (r: Self)
        requires
            self.inv(),
        ensures
            r.inv(),
            r@ == self@,
            r.key_seq() == self.key_seq(),
    {
        let mut keys: Vec<u64> = Vec::new();
        let mut i: usize = 0;
        while i < self.keys.len()
            invariant
                i <= self.keys@.len(),
                keys@ == self.keys@.take(i as int),
            decreases self.keys@.len() - i,
        {
            keys.push(self.keys[i]);
            proof {
                assert(self.keys@.take(i + 1) == self.keys@.take(i as int).push(self.keys@[i as int]));
            }
            i = i + 1;
        }
        proof {
            assert(self.keys@.take(i as int) == self.keys@);
        }
        let r = IdMap { keys, map: self.map.clone() };
        proof {
            r.lemma_inv();
        }
        r
    }
}

/// Position of the first key of `keys` that is at least `k`.
fn sorted_position(keys: &Vec<u64>, k: u64) -> (i: usize)
    requires
        strictly_increasing(keys@),
    ensures
        i <= keys@.len(),
        forall|j: int| 0 <= j < i ==> keys@[j] < k,
        forall|j: int| i <= j < keys@.len() ==> keys@[j] >= k,
{
    let mut i: usize = 0;
    while i < keys.len()
        invariant
            i <= keys@.len(),
            strictly_increasing(keys@),
            forall|j: int| 0 <= j < i ==> keys@[j] < k,
        decreases keys@.len() - i,
    {
        if keys[i] >= k {
            return i;
        }
        i = i + 1;
    }
    i
}

/// Inserts a new key into an ascending list of keys, keeping it ascending.
fn sorted_insert(keys: &mut Vec<u64>, k: u64)
    requires
        strictly_increasing(old(keys)@),
        !old(keys)@.contains(k),
    ensures
        strictly_increasing(final(keys)@),
        forall|x: u64| #[trigger] final(keys)@.contains(x) <==> (old(keys)@.contains(x) || x == k),
{
    let i = sorted_position(keys, k);
    let ghost old_keys = keys@;
    proof {
        if i < old_keys.len() {
            assert(old_keys[i as int] != k) by {
                assert(old_keys.contains(old_keys[i as int]));
            }
        }
    }
    keys.insert(i, k);
    proof {
        assert forall|a: int, b: int| 0 <= a < b < keys@.len() implies keys@[a] < keys@[b] by {
            if a < i && b > i {
                assert(keys@[b] == old_keys[b - 1]);
            }
        }
        assert forall|x: u64| #[trigger] keys@.contains(x) <==> (old_keys.contains(x) || x == k) by {
            if x == k {
                assert(keys@[i as int] == k);
            } else if old_keys.contains(x) {
                let j = choose|j: int| 0 <= j < old_keys.len() && old_keys[j] == x;
                if j < i {
                    assert(keys@[j] == x);
                } else {
                    assert(keys@[j + 1] == x);
                }
            } else if keys@.contains(x) {
                let j = choose|j: int| 0 <= j < keys@.len() && keys@[j] == x;
                if j < i {
                    assert(old_keys[j] == x);
                } else if j > i {
                    assert(old_keys[j - 1] == x);
                }
            }
        }
    }
}

/// Removes a present key from an ascending list of keys.
fn sorted_remove(keys: &mut Vec<u64>, k: u64)
    requires
        strictly_increasing(old(keys)@),
        old(keys)@.contains(k),
    ensures
        strictly_increasing(final(keys)@),
        forall|x: u64| #[trigger] final(keys)@.contains(x) <==> (old(keys)@.contains(x) && x != k),
{
    let i = sorted_position(keys, k);
    let ghost old_keys = keys@;
    proof {
        let j = choose|j: int| 0 <= j < old_keys.len() && old_keys[j] == k;
        if j > i {
            assert(old_keys[i as int] < old_keys[j]);
        }
        assert(j == i);
    }
    keys.remove(i);
    proof {
        assert forall|a: int, b: int| 0 <= a < b < keys@.len() implies keys@[a] < keys@[b] by {
            if a < i && b >= i {
                assert(keys@[b] == old_keys[b + 1]);
            }
        }
        assert forall|x: u64| #[trigger] keys@.contains(x) <==> (old_keys.contains(x) && x != k) by {
            if old_keys.contains(x) && x != k {
                let j = choose|j: int| 0 <= j < old_keys.len() && old_keys[j] == x;
                if j < i {
                    assert(keys@[j] == x);
                } else {
                    assert(j != i);
                    assert(keys@[j - 1] == x);
                }
            }
            if keys@.contains(x) {
                let j = choose|j: int| 0 <= j < keys@.len() && keys@[j] == x;
                if j < i {
                    assert(old_keys[j] == x);
                } else {
                    assert(old_keys[j + 1] == x);
                    assert(old_keys[i as int] < old_keys[j + 1]);
                }
            }
        }
    }
}

/// A finite set of `u64`: the members live in a `BTreeSet`, beside their
/// ascending list, which gives positional access.
#[derive(Clone, Debug, PartialEq, Eq)]
pub struct IdSet {
    keys: Vec<u64>,
    set: std::collections::BTreeSet<u64>,
}

impl View for IdSet {
    type V = Set<u64>;

    closed spec fn view(&self) -> Set<u64> {
        self.set@
    }
}

impl IdSet {
    /// The members, in ascending order.
    pub closed spec fn elem_seq(&self) -> Seq<u64> {
        self.keys@
    }

    /// The list and the set hold the same members, the list in ascending
    /// order.
    pub closed spec fn wf(&self) -> bool {
        &&& strictly_increasing(self.keys@)
        &&& forall|k: u64| #[trigger] self.set@.contains(k) <==> self.keys@.contains(k)
    }

    /// The set is well formed: the member sequence is its ascending list.
    pub open spec fn inv(&self) -> bool {
        &&& self.wf()
        &&& strictly_increasing(self.elem_seq())
        &&& self@.finite()
        &&& self@.len() == self.elem_seq().len()
        &&& forall|i: int| 0 <= i < self.elem_seq().len() ==> #[trigger] self@.contains(self.elem_seq()[i])
        &&& forall|k: u64| #[trigger] self@.contains(k) ==> self.elem_seq().contains(k)
    }

    proof fn lemma_inv(&self)
        requires
            self.wf(),
        ensures
            self.inv(),
    {
        assert forall|i: int| 0 <= i < self.elem_seq().len() implies #[trigger] self@.contains(
            self.elem_seq()[i],
        ) by {
            assert(self.keys@.contains(self.keys@[i]));
        }
        assert(self@ =~= self.keys@.to_set());
        self.keys@.unique_seq_to_set();
    }

    /// A set held in memory has at most `usize::MAX` members.
    pub proof fn lemma_len_bound(&self)
        requires
            self.inv(),
        ensures
            self@.len() <= usize::MAX,
    {
        assert(self.keys.len() == self.keys@.len());
    }

    /// An empty set.
    pub fn new() -> (s: Self)
        ensures
            s.inv(),
            s@ == Set::<u64>::empty(),
    {
        let s = IdSet { keys: Vec::new(), set: std::collections::BTreeSet::new() };
        proof {
            s.lemma_inv();
        }
        s
    }

    /// Number of members.
    pub fn len(&self) -> (n: usize)
        requires
            self.inv(),
        ensures
            n == self@.len(),
    {
        self.keys.len()
    }

    /// The member at a position of the ascending order.
    pub fn at(&self, i: usize) -> (k: u64)
        requires
            self.inv(),
            i < self.elem_seq().len(),
        ensures
            k == self.elem_seq()[i as int],
    {
        self.keys[i]
    }

    /// Whether `k` is a member.
    pub fn contains(&self, k: u64) -> (b: bool)
        requires
            self.inv(),
        ensures
            b == self@.contains(k),
    {
        self.set.contains(&k)
    }

    /// An independent copy of the set.
    pub fn duplicate(&self) -> (r: Self)
        requires
            self.inv(),
        ensures
            r.inv(),
            r@ == self@,
            r.elem_seq() == self.elem_seq(),
    {
        let mut keys: Vec<u64> = Vec::new();
        let mut i: usize = 0;
        while i < self.keys.len()
            invariant
                i <= self.keys@.len(),
                keys@ == self.keys@.take(i as int),
            decreases self.keys@.len() - i,
        {
            keys.push(self.keys[i]);
            proof {
                assert(self.keys@.take(i + 1) == self.keys@.take(i as int).push(self.keys@[i as int]));
            }
            i = i + 1;
        }
        proof {
            assert(self.keys@.take(i as int) == self.keys@);
        }
        let r = IdSet { keys, set: self.set.clone() };
        proof {
            r.lemma_inv();
        }
        r
    }

    /// Whether every member of this set is a member of `other`.
    pub fn is_subset_of(&self, other: &IdSet) -> (b: bool)
        requires
            self.inv(),
            other.inv(),
        ensures
            b == self@.subset_of(other@),
    {
        let n = self.len();
        let mut i: usize = 0;
        while i < n
            invariant
                i <= n,
                n == self.elem_seq().len(),
                self.inv(),
                other.inv(),
                forall|j: int| 0 <= j < i ==> other@.contains(#[trigger] self.elem_seq()[j]),
            decreases n - i,
        {
            let k = self.at(i);
            if !other.contains(k) {
                return false;
            }
            i = i + 1;
        }
        proof {
            assert forall|k: u64| self@.contains(k) implies other@.contains(k) by {
                let j = choose|j: int| 0 <= j < self.elem_seq().len() && self.elem_seq()[j] == k;
                assert(other@.contains(self.elem_seq()[j]));
            }
        }
        true
    }

    /// Whether both sets have the same members.
    pub fn same_members(&self, other: &IdSet) -> (b: bool)
        requires
            self.inv(),
            other.inv(),
        ensures
            b == (self@ == other@),
    {
        let r = self.is_subset_of(other) && other.is_subset_of(self);
        proof {
            if r {
                assert(self@ =~= other@);
            }
        }
        r
    }

    /// Adds `k`; tells whether it was new.
    pub fn insert(&mut self, k: u64) -> (added: bool)
        requires
            old(self).inv(),
        ensures
            final(self).inv(),
            final(self)@ == old(self)@.insert(k),
            added == !old(self)@.contains(k),
    {
        if self.set.contains(&k) {
            proof {
                assert(self@ =~= old(self)@.insert(k));
            }
            return false;
        }
        sorted_insert(&mut self.keys, k);
        self.set.insert(k);
        proof {
            self.lemma_inv();
        }
        true
    }

    /// Removes `k`; tells whether it was a member.
    pub fn remove(&mut self, k: u64) -> (removed: bool)
        requires
            old(self).inv(),
        ensures
            final(self).inv(),
            final(self)@ == old(self)@.remove(k),
            removed == old(self)@.contains(k),
    {
        if !self.set.contains(&k) {
            proof {
                assert(self@ =~= old(self)@.remove(k));
            }
            return false;
        }
        sorted_remove(&mut self.keys, k);
        self.set.remove(&k);
        proof {
            self.lemma_inv();
        }
        true
    }
}

} // verus!
