//! Vector clocks: partial causal order between distributed events.
//!
//! A clock maps each node to the number of its events observed; a node
//! missing from the clock counts as zero.

use vstd::prelude::*;
use crate::counter_map::{count_of, pointwise_max, has_lower};
use crate::id_map::{IdMap, IdSet};

verus! {

/// Stable node identifier.
#[derive(Clone, Copy, Debug, PartialEq, Eq, PartialOrd, Ord, Hash)]
pub struct NodeId(pub u64);

/// Logical counter observed for a node.
#[derive(Clone, Copy, Debug, Default, PartialEq, Eq, PartialOrd, Ord, Hash)]
pub struct Counter(pub u64);

/// Observable causal relation between two clocks.
#[derive(Clone, Copy, Debug, PartialEq, Eq)]
pub enum CausalRelation {
    /// Both clocks hold the same causal knowledge.
    Equal,
    /// The left clock is strictly contained in the right one.
    Before,
    /// The left clock strictly contains the right one.
    After,
    /// Neither clock contains the other.
    Concurrent,
}

/// The causal relation of clock `a` to clock `b`.
pub open spec fn causal_relation(a: Map<u64, u64>, b: Map<u64, u64>) -> CausalRelation {
    match (has_lower(a, b), has_lower(b, a)) {
        (false, false) => CausalRelation::Equal,
        (true, false) => CausalRelation::Before,
        (false, true) => CausalRelation::After,
        (true, true) => CausalRelation::Concurrent,
    }
}

/// Deterministic vector clock.
#[derive(Clone, Debug, PartialEq, Eq)]
pub struct VectorClock {
    counters: IdMap<u64>,
}

impl View for VectorClock {
    type V = Map<u64, u64>;

    closed spec fn view(&self) -> Map<u64, u64> {
        self.counters@
    }
}

impl Default for VectorClock {
    fn default() -> (c: Self)
        ensures
            c.wf(),
            c@ == Map::<u64, u64>::empty(),
    {
        VectorClock { counters: IdMap::new() }
    }
}

impl VectorClock {
    /// The clock's internal map is well formed.
    pub closed spec fn wf(&self) -> bool {
        self.counters.inv()
    }

    /// An empty clock.
    pub fn new() -> (c: Self)
        ensures
            c.wf(),
            c@ == Map::<u64, u64>::empty(),
    {
        VectorClock { counters: IdMap::new() }
    }

    /// The counter observed for a node; an absent node counts as zero.
    pub fn counter(&self, node: NodeId) -> (c: Counter)
        requires
            self.wf(),
        ensures
            c.0 == count_of(self@, node.0),
    {
        match self.counters.get(node.0) {
            Some(c) => Counter(*c),
            None => Counter(0),
        }
    }

    /// Advances the node's own counter and returns its new value.
    pub fn increment(&mut self, node: NodeId) -> (c: Counter)
        requires
            old(self).wf(),
            count_of(old(self)@, node.0) < u64::MAX,
        ensures
            final(self).wf(),
            c.0 == count_of(old(self)@, node.0) + 1,
            final(self)@ == old(self)@.insert(node.0, c.0),
    {
        let current = self.counter(node);
        let next = current.0 + 1;
        self.counters.insert(node.0, next);
        Counter(next)
    }

    /// Merges another clock in, keeping the maximum of each component.
    pub fn merge(&mut self, other: &Self)
        requires
            old(self).wf(),
            other.wf(),
        ensures
            final(self).wf(),
            final(self)@ == pointwise_max(old(self)@, other@),
    {
        let ghost start = self@;
        let n = other.counters.len();
        let mut i: usize = 0;
        while i < n
            invariant
                i <= n,
                n == other.counters.key_seq().len(),
                other.wf(),
                self.wf(),
                forall|k: u64|
                    #[trigger] self@.contains_key(k) <==> start.contains_key(k)
                        || other.counters.key_seq().take(i as int).contains(k),
                forall|k: u64|
                    #[trigger] count_of(self@, k) == if other.counters.key_seq().take(
                        i as int,
                    ).contains(k) {
                        count_of(pointwise_max(start, other@), k)
                    } else {
                        count_of(start, k)
                    },
            decreases n - i,
        {
            let ghost old_self = self@;
            let node = other.counters.key_at(i);
            let theirs = *other.counters.value_at(i);
            let mine = self.counter(NodeId(node));
            let merged = if mine.0 >= theirs {
                mine.0
            } else {
                theirs
            };
            self.counters.insert(node, merged);
            proof {
                let ks = other.counters.key_seq();
                crate::id_map::lemma_take_push_contains(ks, i as int);
                assert(count_of(other@, node) == theirs);
                if ks.take(i as int).contains(node) {
                    let t = ks.take(i as int);
                    let j = choose|j: int| 0 <= j < t.len() && t[j] == node;
                    assert(ks[j] == ks[i as int]);
                }
                assert(!ks.take(i as int).contains(node));
                assert(count_of(pointwise_max(start, other@), node) == merged);
                assert forall|k: u64| #[trigger] count_of(self@, k) == if ks.take(i + 1).contains(k) {
                    count_of(pointwise_max(start, other@), k)
                } else {
                    count_of(start, k)
                } by {
                    if k != node {
                        assert(count_of(self@, k) == count_of(old_self, k));
                    }
                }
            }
            i = i + 1;
        }
        proof {
            let ks = other.counters.key_seq();
            assert(ks.take(i as int) == ks);
            assert(self@.dom() =~= pointwise_max(start, other@).dom());
            crate::counter_map::lemma_counts_determine(self@, pointwise_max(start, other@));
        }
    }

    /// A new clock holding the merge of both clocks; neither input changes.
    pub fn merged(&self, other: &Self) -> (m: Self)
        requires
            self.wf(),
            other.wf(),
        ensures
            m.wf(),
            m@ == pointwise_max(self@, other@),
    {
        let mut merged = VectorClock { counters: self.counters.duplicate() };
        merged.merge(other);
        merged
    }

    /// The causal relation of this clock to another.
    pub fn compare(&self, other: &Self) -> (r: CausalRelation)
        requires
            self.wf(),
            other.wf(),
        ensures
            r == causal_relation(self@, other@),
    {
        let mut lower = false;
        let mut higher = false;
        let nodes = self.nodes_seen_with(other);
        let n = nodes.len();
        let mut i: usize = 0;
        while i < n
            invariant
                i <= n,
                n == nodes.elem_seq().len(),
                nodes.inv(),
                self.wf(),
                other.wf(),
                lower == exists|j: int|
                    0 <= j < i && count_of(self@, #[trigger] nodes.elem_seq()[j]) < count_of(
                        other@,
                        nodes.elem_seq()[j],
                    ),
                higher == exists|j: int|
                    0 <= j < i && count_of(self@, #[trigger] nodes.elem_seq()[j]) > count_of(
                        other@,
                        nodes.elem_seq()[j],
                    ),
            decreases n - i,
        {
            let node = nodes.at(i);
            let mine = self.counter(NodeId(node));
            let theirs = other.counter(NodeId(node));
            if mine.0 < theirs.0 {
                lower = true;
            } else if mine.0 > theirs.0 {
                higher = true;
            }
            i = i + 1;
        }
        proof {
            let s = nodes.elem_seq();
            if has_lower(self@, other@) {
                let k = choose|k: u64| count_of(self@, k) < count_of(other@, k);
                assert(nodes@.contains(k));
                let j = choose|j: int| 0 <= j < s.len() && s[j] == k;
                assert(count_of(self@, s[j]) < count_of(other@, s[j]));
            }
            if has_lower(other@, self@) {
                let k = choose|k: u64| count_of(other@, k) < count_of(self@, k);
                assert(nodes@.contains(k));
                let j = choose|j: int| 0 <= j < s.len() && s[j] == k;
                assert(count_of(self@, s[j]) > count_of(other@, s[j]));
            }
        }
        match (lower, higher) {
            (false, false) => CausalRelation::Equal,
            (true, false) => CausalRelation::Before,
            (false, true) => CausalRelation::After,
            (true, true) => CausalRelation::Concurrent,
        }
    }

    fn nodes_seen_with(&self, other: &Self) -> (nodes: IdSet)
        requires
            self.wf(),
            other.wf(),
        ensures
            nodes.inv(),
            forall|k: u64| #[trigger] nodes@.contains(k) <==> self@.contains_key(k) || other@.contains_key(k),
    {
        let mut nodes = IdSet::new();
        let mut i: usize = 0;
        while i < self.counters.len()
            invariant
                i <= self.counters.key_seq().len(),
                self.wf(),
                nodes.inv(),
                forall|k: u64| #[trigger] nodes@.contains(k) <==> self.counters.key_seq().take(i as int).contains(k),
            decreases self.counters.key_seq().len() - i,
        {
            let k = self.counters.key_at(i);
            nodes.insert(k);
            proof {
                crate::id_map::lemma_take_push_contains(self.counters.key_seq(), i as int);
            }
            i = i + 1;
        }
        proof {
            assert(self.counters.key_seq().take(i as int) == self.counters.key_seq());
        }
        let mut j: usize = 0;
        while j < other.counters.len()
            invariant
                j <= other.counters.key_seq().len(),
                self.wf(),
                other.wf(),
                nodes.inv(),
                forall|k: u64| #[trigger] nodes@.contains(k) <==> self.counters.key_seq().contains(k)
                    || other.counters.key_seq().take(j as int).contains(k),
            decreases other.counters.key_seq().len() - j,
        {
            let k = other.counters.key_at(j);
            nodes.insert(k);
            proof {
                crate::id_map::lemma_take_push_contains(other.counters.key_seq(), j as int);
            }
            j = j + 1;
        }
        proof {
            assert(self.counters.key_seq().take(self.counters.key_seq().len() as int) == self.counters.key_seq());
            assert(other.counters.key_seq().take(j as int) == other.counters.key_seq());
        }
        nodes
    }
}

/// A clock stands in the relation `Equal` to itself; `Before` and `After`
/// mirror each other and `Concurrent` is symmetric; a clock is `Equal` to
/// another exactly when every component agrees.
pub proof fn lemma_relation_laws(a: Map<u64, u64>, b: Map<u64, u64>)
    ensures
        causal_relation(a, a) == CausalRelation::Equal,
        causal_relation(a, b) == CausalRelation::Before <==> causal_relation(b, a)
            == CausalRelation::After,
        causal_relation(a, b) == CausalRelation::Concurrent <==> causal_relation(b, a)
            == CausalRelation::Concurrent,
        causal_relation(a, b) == CausalRelation::Equal <==> forall|k: u64|
            count_of(a, k) == count_of(b, k),
{
    if causal_relation(a, b) != CausalRelation::Equal {
        if has_lower(a, b) {
            let k = choose|k: u64| count_of(a, k) < count_of(b, k);
            assert(count_of(a, k) != count_of(b, k));
        } else {
            let k = choose|k: u64| count_of(b, k) < count_of(a, k);
            assert(count_of(a, k) != count_of(b, k));
        }
    }
    if !(forall|k: u64| count_of(a, k) == count_of(b, k)) {
        let k = choose|k: u64| count_of(a, k) != count_of(b, k);
        if count_of(a, k) < count_of(b, k) {
            assert(has_lower(a, b));
        } else {
            assert(has_lower(b, a));
        }
    }
}

/// After a merge, each input clock happened before the merged clock or
/// equals it.
pub proof fn lemma_merge_is_upper_bound(a: Map<u64, u64>, b: Map<u64, u64>)
    ensures
        causal_relation(a, pointwise_max(a, b)) == CausalRelation::Equal || causal_relation(
            a,
            pointwise_max(a, b),
        ) == CausalRelation::Before,
        causal_relation(b, pointwise_max(a, b)) == CausalRelation::Equal || causal_relation(
            b,
            pointwise_max(a, b),
        ) == CausalRelation::Before,
{
    if has_lower(pointwise_max(a, b), a) {
        let k = choose|k: u64| count_of(pointwise_max(a, b), k) < count_of(a, k);
        assert(false);
    }
    if has_lower(pointwise_max(a, b), b) {
        let k = choose|k: u64| count_of(pointwise_max(a, b), k) < count_of(b, k);
        assert(false);
    }
}

/// An increment moves a clock strictly forward in causal order.
pub proof fn lemma_increment_advances(a: Map<u64, u64>, node: u64)
    requires
        count_of(a, node) < u64::MAX,
    ensures
        causal_relation(a, a.insert(node, (count_of(a, node) + 1) as u64)) == CausalRelation::Before,
{
    let b = a.insert(node, (count_of(a, node) + 1) as u64);
    assert(count_of(a, node) < count_of(b, node));
    if has_lower(b, a) {
        let k = choose|k: u64| count_of(b, k) < count_of(a, k);
        assert(false);
    }
}

} // verus!
