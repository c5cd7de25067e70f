//! A state-based grow-only counter (G-Counter).
//!
//! Each replica increments its own component; merging keeps the maximum
//! observed per replica; the value is the sum of all components. There are
//! no decrements.

use vstd::prelude::*;
use crate::counter_map::{count_of, pointwise_max, has_lower, sum_of, total_of};
use crate::id_map::{IdMap, IdSet};

verus! {

/// Stable replica identifier.
#[derive(Clone, Copy, Debug, PartialEq, Eq, PartialOrd, Ord, Hash)]
pub struct ReplicaId(pub u64);

/// Non-negative logical count.
#[derive(Clone, Copy, Debug, Default, PartialEq, Eq, PartialOrd, Ord, Hash)]
pub struct Count(pub u64);

/// Observable partial order between two counter states.
#[derive(Clone, Copy, Debug, PartialEq, Eq)]
pub enum StateRelation {
    /// Both states hold the same knowledge.
    Equal,
    /// The left state is strictly contained in the right one.
    Before,
    /// The left state strictly contains the right one.
    After,
    /// Neither state contains the other.
    Concurrent,
}

/// The relation of state `a` to state `b`.
pub open spec fn state_relation(a: Map<u64, u64>, b: Map<u64, u64>) -> StateRelation {
    match (has_lower(a, b), has_lower(b, a)) {
        (false, false) => StateRelation::Equal,
        (true, false) => StateRelation::Before,
        (false, true) => StateRelation::After,
        (true, true) => StateRelation::Concurrent,
    }
}

/// `a + b`, capped at `u64::MAX`.
pub open spec fn saturating_sum(a: int, b: int) -> int {
    if a + b > u64::MAX {
        u64::MAX as int
    } else {
        a + b
    }
}

/// Deterministic grow-only counter.
#[derive(Clone, Debug, PartialEq, Eq)]
pub struct GCounter {
    counts: IdMap<u64>,
}

impl View for GCounter {
    type V = Map<u64, u64>;

    closed spec fn view(&self) -> Map<u64, u64> {
        self.counts@
    }
}

impl Default for GCounter {
    fn default() -> (c: Self)
        ensures
            c.wf(),
            c@ == Map::<u64, u64>::empty(),
    {
        GCounter { counts: IdMap::new() }
    }
}

impl GCounter {
    /// The counter's internal map is well formed.
    pub closed spec fn wf(&self) -> bool {
        self.counts.inv()
    }

    /// An empty counter.
    pub fn new() -> (c: Self)
        ensures
            c.wf(),
            c@ == Map::<u64, u64>::empty(),
    {
        GCounter { counts: IdMap::new() }
    }

    /// The count observed for a replica; an absent replica counts as zero.
    pub fn count(&self, replica: ReplicaId) -> (c: Count)
        requires
            self.wf(),
        ensures
            c.0 == count_of(self@, replica.0),
    {
        match self.counts.get(replica.0) {
            Some(c) => Count(*c),
            None => Count(0),
        }
    }

    /// Increments the replica's own component by one.
    pub fn increment(&mut self, replica: ReplicaId) -> (c: Count)
        requires
            old(self).wf(),
        ensures
            final(self).wf(),
            c.0 == saturating_sum(count_of(old(self)@, replica.0) as int, 1),
            final(self)@ == old(self)@.insert(replica.0, c.0),
    {
        self.increment_by(replica, Count(1))
    }

    /// Increments the replica's own component by `amount`, saturating at
    /// `u64::MAX`. An amount of zero changes nothing and creates no
    /// component.
    pub fn increment_by(&mut self, replica: ReplicaId, amount: Count) -> (c: Count)
        requires
            old(self).wf(),
        ensures
            final(self).wf(),
            c.0 == saturating_sum(count_of(old(self)@, replica.0) as int, amount.0 as int),
            amount.0 == 0 ==> final(self)@ == old(self)@,
            amount.0 != 0 ==> final(self)@ == old(self)@.insert(replica.0, c.0),
    {
        if amount.0 == 0 {
            return self.count(replica);
        }
        let current = self.count(replica).0;
        let next = if current > u64::MAX - amount.0 {
            u64::MAX
        } else {
            current + amount.0
        };
        self.counts.insert(replica.0, next);
        Count(next)
    }

    /// The value: the sum of all components, saturating at `u64::MAX`.
    pub fn value(&self) -> (v: Count)
        requires
            self.wf(),
        ensures
            v.0 == if total_of(self@) > u64::MAX {
                u64::MAX as int
            } else {
                total_of(self@)
            },
    {
        let n = self.counts.len();
        let mut total: u64 = 0;
        let mut i: usize = 0;
        while i < n
            invariant
                i <= n,
                n == self.counts.val_seq().len(),
                self.wf(),
                total == if sum_of(self.counts.val_seq().take(i as int)) > u64::MAX {
                    u64::MAX as int
                } else {
                    sum_of(self.counts.val_seq().take(i as int))
                },
            decreases n - i,
        {
            let c = *self.counts.value_at(i);
            proof {
                let vs = self.counts.val_seq();
                assert(vs.take(i + 1).drop_last() == vs.take(i as int));
            }
            total = if total > u64::MAX - c {
                u64::MAX
            } else {
                total + c
            };
            i = i + 1;
        }
        proof {
            assert(self.counts.val_seq().take(i as int) == self.counts.val_seq());
            crate::counter_map::lemma_total_of_listing(
                self.counts@,
                self.counts.key_seq(),
                self.counts.val_seq(),
            );
        }
        Count(total)
    }

    /// Merges another state in, keeping the maximum of each component.
    pub fn merge(&mut self, other: &Self)
        requires
            old(self).wf(),
            other.wf(),
        ensures
            final(self).wf(),
            final(self)@ == pointwise_max(old(self)@, other@),
    {
        let ghost start = self@;
        let n = other.counts.len();
        let mut i: usize = 0;
        while i < n
            invariant
                i <= n,
                n == other.counts.key_seq().len(),
                other.wf(),
                self.wf(),
                forall|k: u64|
                    #[trigger] self@.contains_key(k) <==> start.contains_key(k)
                        || other.counts.key_seq().take(i as int).contains(k),
                forall|k: u64|
                    #[trigger] count_of(self@, k) == if other.counts.key_seq().take(
                        i as int,
                    ).contains(k) {
                        count_of(pointwise_max(start, other@), k)
                    } else {
                        count_of(start, k)
                    },
            decreases n - i,
        {
            let ghost old_self = self@;
            let replica = other.counts.key_at(i);
            let theirs = *other.counts.value_at(i);
            let mine = self.count(ReplicaId(replica));
            let merged = if mine.0 >= theirs {
                mine.0
            } else {
                theirs
            };
            self.counts.insert(replica, merged);
            proof {
                let ks = other.counts.key_seq();
                crate::id_map::lemma_take_push_contains(ks, i as int);
                if ks.take(i as int).contains(replica) {
                    let t = ks.take(i as int);
                    let j = choose|j: int| 0 <= j < t.len() && t[j] == replica;
                    assert(ks[j] == ks[i as int]);
                }
                assert(!ks.take(i as int).contains(replica));
                assert(count_of(pointwise_max(start, other@), replica) == merged);
                assert forall|k: u64| #[trigger] count_of(self@, k) == if ks.take(i + 1).contains(
                    k,
                ) {
                    count_of(pointwise_max(start, other@), k)
                } else {
                    count_of(start, k)
                } by {
                    if k != replica {
                        assert(count_of(self@, k) == count_of(old_self, k));
                    }
                }
            }
            i = i + 1;
        }
        proof {
            let ks = other.counts.key_seq();
            assert(ks.take(i as int) == ks);
            assert(self@.dom() =~= pointwise_max(start, other@).dom());
            crate::counter_map::lemma_counts_determine(self@, pointwise_max(start, other@));
        }
    }

    /// A new counter holding the merge of both states; neither input changes.
    pub fn merged(&self, other: &Self) -> (m: Self)
        requires
            self.wf(),
            other.wf(),
        ensures
            m.wf(),
            m@ == pointwise_max(self@, other@),
    {
        let mut merged = GCounter { counts: self.counts.duplicate() };
        merged.merge(other);
        merged
    }

    /// The partial-order relation of this state to another.
    pub fn compare(&self, other: &Self) -> (r: StateRelation)
        requires
            self.wf(),
            other.wf(),
        ensures
            r == state_relation(self@, other@),
    {
        let mut lower = false;
        let mut higher = false;
        let replicas = self.replicas_seen_with(other);
        let n = replicas.len();
        let mut i: usize = 0;
        while i < n
            invariant
                i <= n,
                n == replicas.elem_seq().len(),
                replicas.inv(),
                self.wf(),
                other.wf(),
                lower == exists|j: int|
                    0 <= j < i && count_of(self@, #[trigger] replicas.elem_seq()[j]) < count_of(
                        other@,
                        replicas.elem_seq()[j],
                    ),
                higher == exists|j: int|
                    0 <= j < i && count_of(self@, #[trigger] replicas.elem_seq()[j]) > count_of(
                        other@,
                        replicas.elem_seq()[j],
                    ),
            decreases n - i,
        {
            let replica = replicas.at(i);
            let mine = self.count(ReplicaId(replica));
            let theirs = other.count(ReplicaId(replica));
            if mine.0 < theirs.0 {
                lower = true;
            } else if mine.0 > theirs.0 {
                higher = true;
            }
            i = i + 1;
        }
        proof {
            let s = replicas.elem_seq();
            if has_lower(self@, other@) {
                let k = choose|k: u64| count_of(self@, k) < count_of(other@, k);
                assert(replicas@.contains(k));
                let j = choose|j: int| 0 <= j < s.len() && s[j] == k;
                assert(count_of(self@, s[j]) < count_of(other@, s[j]));
            }
            if has_lower(other@, self@) {
                let k = choose|k: u64| count_of(other@, k) < count_of(self@, k);
                assert(replicas@.contains(k));
                let j = choose|j: int| 0 <= j < s.len() && s[j] == k;
                assert(count_of(self@, s[j]) > count_of(other@, s[j]));
            }
        }
        match (lower, higher) {
            (false, false) => StateRelation::Equal,
            (true, false) => StateRelation::Before,
            (false, true) => StateRelation::After,
            (true, true) => StateRelation::Concurrent,
        }
    }

    fn replicas_seen_with(&self, other: &Self) -> (replicas: IdSet)
        requires
            self.wf(),
            other.wf(),
        ensures
            replicas.inv(),
            forall|k: u64| #[trigger] replicas@.contains(k) <==> self@.contains_key(k)
                || other@.contains_key(k),
    {
        let mut replicas = IdSet::new();
        let mut i: usize = 0;
        while i < self.counts.len()
            invariant
                i <= self.counts.key_seq().len(),
                self.wf(),
                replicas.inv(),
                forall|k: u64| #[trigger] replicas@.contains(k) <==> self.counts.key_seq().take(
                    i as int,
                ).contains(k),
            decreases self.counts.key_seq().len() - i,
        {
            let k = self.counts.key_at(i);
            replicas.insert(k);
            proof {
                crate::id_map::lemma_take_push_contains(self.counts.key_seq(), i as int);
            }
            i = i + 1;
        }
        proof {
            assert(self.counts.key_seq().take(i as int) == self.counts.key_seq());
        }
        let mut j: usize = 0;
        while j < other.counts.len()
            invariant
                j <= other.counts.key_seq().len(),
                self.wf(),
                other.wf(),
                replicas.inv(),
                forall|k: u64| #[trigger] replicas@.contains(k) <==> self.counts.key_seq().contains(
                    k,
                ) || other.counts.key_seq().take(j as int).contains(k),
            decreases other.counts.key_seq().len() - j,
        {
            let k = other.counts.key_at(j);
            replicas.insert(k);
            proof {
                crate::id_map::lemma_take_push_contains(other.counts.key_seq(), j as int);
            }
            j = j + 1;
        }
        proof {
            assert(other.counts.key_seq().take(j as int) == other.counts.key_seq());
        }
        replicas
    }
}

/// Two counters holding the same state compare `Equal`; `Before` and
/// `After` mirror each other; a state is `Before` or `Equal` to any merge it
/// took part in.
pub proof fn lemma_state_relation_laws(a: Map<u64, u64>, b: Map<u64, u64>)
    ensures
        state_relation(a, a) == StateRelation::Equal,
        state_relation(a, b) == StateRelation::Before <==> state_relation(b, a)
            == StateRelation::After,
        state_relation(a, pointwise_max(a, b)) == StateRelation::Equal || state_relation(
            a,
            pointwise_max(a, b),
        ) == StateRelation::Before,
{
    if has_lower(pointwise_max(a, b), a) {
        let k = choose|k: u64| count_of(pointwise_max(a, b), k) < count_of(a, k);
        assert(false);
    }
}

} // verus!
