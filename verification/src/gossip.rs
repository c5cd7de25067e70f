//! A push gossip protocol run in deterministic rounds.
//!
//! In each round every available node that knows something sends a snapshot
//! of what it knew at the start of the round to at most `fanout` available
//! peers, taken in ring order after itself. Facts received during a round
//! are passed on from the next round.

use vstd::prelude::*;
use crate::id_map::{IdMap, IdSet, count_where, strictly_increasing};

verus! {

/// Stable identifier of a cluster node.
#[derive(Clone, Copy, Debug, PartialEq, Eq, PartialOrd, Ord, Hash)]
pub struct GossipNodeId(pub u64);

/// A fact that gossip spreads.
#[derive(Clone, Copy, Debug, PartialEq, Eq, PartialOrd, Ord, Hash)]
pub struct GossipFact(pub u64);

/// Maximum number of peers each node contacts in a round.
#[derive(Clone, Copy, Debug, PartialEq, Eq)]
pub struct Fanout(pub usize);

/// A contact made during a round.
#[derive(Clone, Debug, PartialEq, Eq)]
pub struct GossipContact {
    /// Node sending its knowledge.
    pub from: GossipNodeId,
    /// Node receiving the message.
    pub to: GossipNodeId,
    /// Number of facts in the message.
    pub facts_sent: usize,
}

impl GossipContact {
    /// A gossip contact.
    pub fn new(from: GossipNodeId, to: GossipNodeId, facts_sent: usize) -> (c: Self)
        ensures
            c.from == from,
            c.to == to,
            c.facts_sent == facts_sent,
    {
        GossipContact { from, to, facts_sent }
    }
}

/// Summary of a propagation round.
#[derive(Clone, Debug, PartialEq, Eq)]
pub struct GossipRoundReport {
    /// Messages sent during the round.
    pub messages_sent: usize,
    /// Facts that receivers did not know before.
    pub facts_delivered: usize,
    /// Contacts made, in order.
    pub contacts: Vec<GossipContact>,
}

impl Default for GossipRoundReport {
    fn default() -> (r: Self)
        ensures
            r.messages_sent == 0,
            r.facts_delivered == 0,
            r.contacts@ == Seq::<GossipContact>::empty(),
    {
        GossipRoundReport { messages_sent: 0, facts_delivered: 0, contacts: Vec::new() }
    }
}

/// A gossip node: whether it is reachable and what it knows.
#[derive(Clone, Debug, PartialEq, Eq)]
pub struct GossipNode {
    available: bool,
    facts: IdSet,
}

/// Mathematical value of a [`GossipNode`].
pub struct GossipNodeView {
    /// Whether the node takes part in rounds.
    pub available: bool,
    /// The facts the node knows.
    pub facts: Set<u64>,
}

impl View for GossipNode {
    type V = GossipNodeView;

    closed spec fn view(&self) -> GossipNodeView {
        GossipNodeView { available: self.available, facts: self.facts@ }
    }
}

impl GossipNode {
    /// The node's fact set is well formed.
    pub closed spec fn wf(&self) -> bool {
        self.facts.inv()
    }
}

impl Default for GossipNode {
    fn default() -> (n: Self)
        ensures
            n.wf(),
            n@.available,
            n@.facts == Set::<u64>::empty(),
    {
        GossipNode { available: true, facts: IdSet::new() }
    }
}

/// The available nodes among `keys`, in order.
pub open spec fn available_in(m: Map<u64, GossipNodeView>, keys: Seq<u64>) -> Seq<u64>
    decreases keys.len(),
{
    if keys.len() == 0 {
        Seq::empty()
    } else {
        let rest = available_in(m, keys.drop_last());
        if m[keys.last()].available {
            rest.push(keys.last())
        } else {
            rest
        }
    }
}

/// The peers of `from` among `ids`, starting right after it and wrapping
/// around, each other identifier once (all of `ids` but the last, starting
/// at the front, when `from` is not among them).
pub open spec fn peers_after(from: u64, ids: Seq<u64>) -> Seq<u64> {
    if ids.len() <= 1 {
        Seq::empty()
    } else {
        let start = if ids.contains(from) {
            ids.index_of(from) + 1
        } else {
            0
        };
        Seq::new(
            (ids.len() - 1) as nat,
            |o: int|
                if start + o < ids.len() {
                    ids[start + o]
                } else {
                    ids[start + o - ids.len()]
                },
        )
    }
}

/// The contacts a sender makes in a round.
pub open spec fn sender_contacts(
    m: Map<u64, GossipNodeView>,
    avail: Seq<u64>,
    from: u64,
    fanout: nat,
) -> Seq<GossipContact> {
    if m[from].facts.len() == 0 {
        Seq::empty()
    } else {
        let peers = peers_after(from, avail);
        let n = if fanout <= peers.len() {
            fanout as int
        } else {
            peers.len() as int
        };
        peers.take(n).map_values(
            |to: u64|
                GossipContact {
                    from: GossipNodeId(from),
                    to: GossipNodeId(to),
                    facts_sent: m[from].facts.len() as usize,
                },
        )
    }
}

/// The contacts made by the given senders, in order.
pub open spec fn round_contacts(
    m: Map<u64, GossipNodeView>,
    avail: Seq<u64>,
    senders: Seq<u64>,
    fanout: nat,
) -> Seq<GossipContact>
    decreases senders.len(),
{
    if senders.len() == 0 {
        Seq::empty()
    } else {
        round_contacts(m, avail, senders.drop_last(), fanout) + sender_contacts(
            m,
            avail,
            senders.last(),
            fanout,
        )
    }
}

/// Some contact brought fact `f` to node `x`.
pub open spec fn received(m: Map<u64, GossipNodeView>, contacts: Seq<GossipContact>, x: u64, f: u64) -> bool {
    exists|j: int|
        0 <= j < contacts.len() && #[trigger] contacts[j].to.0 == x && m[contacts[j].from.0].facts.contains(f)
}

/// Total number of facts known, summed over the nodes in `keys`.
pub open spec fn fact_total(m: Map<u64, GossipNodeView>, keys: Seq<u64>) -> int
    decreases keys.len(),
{
    if keys.len() == 0 {
        0
    } else {
        fact_total(m, keys.drop_last()) + m[keys.last()].facts.len()
    }
}

/// Total number of facts carried by the contacts.
pub open spec fn sent_total(contacts: Seq<GossipContact>) -> int
    decreases contacts.len(),
{
    if contacts.len() == 0 {
        0
    } else {
        sent_total(contacts.drop_last()) + contacts.last().facts_sent
    }
}

/// The contacts of one round with the given fanout: every available node,
/// in ascending order, sends to its peers among the available nodes.
pub open spec fn contacts_of_round(m: Map<u64, GossipNodeView>, keys: Seq<u64>, fanout: nat) -> Seq<GossipContact> {
    let avail = available_in(m, keys);
    round_contacts(m, avail, avail, fanout)
}

/// The cluster after one round: every node keeps what it knew and learns
/// every fact that a contact brought it.
pub open spec fn after_round(m: Map<u64, GossipNodeView>, keys: Seq<u64>, fanout: nat) -> Map<u64, GossipNodeView> {
    let contacts = contacts_of_round(m, keys, fanout);
    Map::new(
        |x: u64| m.contains_key(x),
        |x: u64|
            GossipNodeView {
                available: m[x].available,
                facts: m[x].facts.union(Set::new(|f: u64| received(m, contacts, x, f))),
            },
    )
}

/// Number of contacts sent by node `x`.
pub open spec fn sent_by(contacts: Seq<GossipContact>, x: u64) -> nat
    decreases contacts.len(),
{
    if contacts.len() == 0 {
        0
    } else {
        sent_by(contacts.drop_last(), x) + if contacts.last().from.0 == x {
            1nat
        } else {
            0nat
        }
    }
}

/// All available nodes know the same facts.
pub open spec fn converged(m: Map<u64, GossipNodeView>) -> bool {
    forall|x: u64, y: u64|
        #![trigger m[x].facts, m[y].facts]
        m.contains_key(x) && m[x].available && m.contains_key(y) && m[y].available ==> m[x].facts
            == m[y].facts
}

proof fn lemma_round_contacts_without_fanout(m: Map<u64, GossipNodeView>, avail: Seq<u64>, senders: Seq<u64>)
    ensures
        round_contacts(m, avail, senders, 0) == Seq::<GossipContact>::empty(),
    decreases senders.len(),
{
    if senders.len() > 0 {
        lemma_round_contacts_without_fanout(m, avail, senders.drop_last());
        assert(sender_contacts(m, avail, senders.last(), 0) =~= Seq::<GossipContact>::empty());
        assert(round_contacts(m, avail, senders, 0) =~= Seq::<GossipContact>::empty());
    }
}

proof fn lemma_available_in(m: Map<u64, GossipNodeView>, keys: Seq<u64>)
    requires
        strictly_increasing(keys),
    ensures
        strictly_increasing(available_in(m, keys)),
        forall|j: int|
            0 <= j < available_in(m, keys).len() ==> keys.contains(
                #[trigger] available_in(m, keys)[j],
            ) && m[available_in(m, keys)[j]].available,
        forall|x: u64| keys.contains(x) && m[x].available ==> #[trigger] available_in(m, keys).contains(x),
    decreases keys.len(),
{
    if keys.len() > 0 {
        let rest = keys.drop_last();
        lemma_available_in(m, rest);
        let a = available_in(m, keys);
        let r = available_in(m, rest);
        assert forall|j: int| 0 <= j < a.len() implies keys.contains(#[trigger] a[j]) && m[a[j]].available by {
            if j < r.len() {
                assert(rest.contains(r[j]));
                let p = choose|p: int| 0 <= p < rest.len() && rest[p] == r[j];
                assert(keys[p] == r[j]);
            } else {
                assert(keys[keys.len() - 1] == keys.last());
            }
        }
        assert forall|x: u64| keys.contains(x) && m[x].available implies #[trigger] a.contains(x) by {
            let p = choose|p: int| 0 <= p < keys.len() && keys[p] == x;
            if p < keys.len() - 1 {
                assert(rest[p] == x);
                assert(r.contains(x));
                let q = choose|q: int| 0 <= q < r.len() && r[q] == x;
                assert(a[q] == x);
            } else {
                assert(a[a.len() - 1] == x);
            }
        }
        if m[keys.last()].available {
            assert forall|i: int, j: int| 0 <= i < j < a.len() implies a[i] < a[j] by {
                if j == a.len() - 1 {
                    assert(rest.contains(r[i]));
                    let p = choose|p: int| 0 <= p < rest.len() && rest[p] == r[i];
                    assert(keys[p] < keys[keys.len() - 1]);
                }
            }
        }
    }
}

proof fn lemma_fact_total_update(m: Map<u64, GossipNodeView>, keys: Seq<u64>, x: u64, v: GossipNodeView)
    requires
        strictly_increasing(keys),
        keys.contains(x),
    ensures
        fact_total(m.insert(x, v), keys) == fact_total(m, keys) - m[x].facts.len() + v.facts.len(),
    decreases keys.len(),
{
    let rest = keys.drop_last();
    if keys.last() == x {
        assert forall|y: u64| rest.contains(y) implies y != x by {
            let p = choose|p: int| 0 <= p < rest.len() && rest[p] == y;
            assert(keys[p] == y);
            assert(keys[p] < keys[keys.len() - 1]);
        }
        lemma_fact_total_unchanged(m, rest, x, v);
    } else {
        let p = choose|p: int| 0 <= p < keys.len() && keys[p] == x;
        assert(rest[p] == x);
        assert(strictly_increasing(rest));
        lemma_fact_total_update(m, rest, x, v);
        assert(m.insert(x, v)[keys.last()] == m[keys.last()]);
    }
}

proof fn lemma_fact_total_unchanged(m: Map<u64, GossipNodeView>, keys: Seq<u64>, x: u64, v: GossipNodeView)
    requires
        forall|y: u64| keys.contains(y) ==> y != x,
    ensures
        fact_total(m.insert(x, v), keys) == fact_total(m, keys),
    decreases keys.len(),
{
    if keys.len() > 0 {
        let rest = keys.drop_last();
        assert(keys.contains(keys.last()));
        assert forall|y: u64| rest.contains(y) implies y != x by {
            let p = choose|p: int| 0 <= p < rest.len() && rest[p] == y;
            assert(keys[p] == y);
            assert(keys.contains(y));
        }
        lemma_fact_total_unchanged(m, rest, x, v);
    }
}

proof fn lemma_round_contacts_push(
    m: Map<u64, GossipNodeView>,
    avail: Seq<u64>,
    senders: Seq<u64>,
    i: int,
    fanout: nat,
)
    requires
        0 <= i < senders.len(),
    ensures
        round_contacts(m, avail, senders.take(i + 1), fanout) == round_contacts(
            m,
            avail,
            senders.take(i),
            fanout,
        ) + sender_contacts(m, avail, senders[i], fanout),
{
    assert(senders.take(i + 1).drop_last() == senders.take(i));
}

proof fn lemma_sent_total_prefix(a: Seq<GossipContact>, i: int)
    requires
        0 <= i <= a.len(),
    ensures
        sent_total(a.take(i)) <= sent_total(a),
    decreases a.len(),
{
    if i < a.len() {
        let r = a.drop_last();
        lemma_sent_total_prefix(r, i);
        assert(r.take(i) == a.take(i));
    } else {
        assert(a.take(i) == a);
    }
}

proof fn lemma_peers_after_members(from: u64, ids: Seq<u64>)
    requires
        strictly_increasing(ids),
        ids.contains(from),
    ensures
        forall|o: int|
            0 <= o < peers_after(from, ids).len() ==> ids.contains(#[trigger] peers_after(from, ids)[o])
                && peers_after(from, ids)[o] != from,
{
    if ids.len() > 1 {
        let p = ids.index_of(from);
        let peers = peers_after(from, ids);
        assert forall|o: int| 0 <= o < peers.len() implies ids.contains(#[trigger] peers[o]) && peers[o] != from by {
            let idx = if p + 1 + o < ids.len() {
                p + 1 + o
            } else {
                p + 1 + o - ids.len()
            };
            assert(peers[o] == ids[idx]);
            if idx < p {
                assert(ids[idx] < ids[p]);
            } else {
                assert(ids[p] < ids[idx]);
            }
        }
    }
}

proof fn lemma_sent_by_append(a: Seq<GossipContact>, b: Seq<GossipContact>, x: u64)
    ensures
        sent_by(a + b, x) == sent_by(a, x) + sent_by(b, x),
    decreases b.len(),
{
    if b.len() == 0 {
        assert(a + b == a);
    } else {
        assert((a + b).drop_last() == a + b.drop_last());
        lemma_sent_by_append(a, b.drop_last(), x);
    }
}

proof fn lemma_sent_by_uniform(c: Seq<GossipContact>, x: u64)
    ensures
        (forall|j: int| 0 <= j < c.len() ==> (#[trigger] c[j]).from.0 != x) ==> sent_by(c, x) == 0,
        (forall|j: int| 0 <= j < c.len() ==> (#[trigger] c[j]).from.0 == x) ==> sent_by(c, x) == c.len(),
    decreases c.len(),
{
    if c.len() > 0 {
        lemma_sent_by_uniform(c.drop_last(), x);
        if forall|j: int| 0 <= j < c.len() ==> (#[trigger] c[j]).from.0 != x {
            assert forall|j: int| 0 <= j < c.drop_last().len() implies (#[trigger] c.drop_last()[j]).from.0 != x by {
                assert(c.drop_last()[j] == c[j]);
            }
            assert(c.last() == c[c.len() - 1]);
        }
        if forall|j: int| 0 <= j < c.len() ==> (#[trigger] c[j]).from.0 == x {
            assert forall|j: int| 0 <= j < c.drop_last().len() implies (#[trigger] c.drop_last()[j]).from.0 == x by {
                assert(c.drop_last()[j] == c[j]);
            }
            assert(c.last() == c[c.len() - 1]);
        }
    }
}

proof fn lemma_sender_contacts(m: Map<u64, GossipNodeView>, avail: Seq<u64>, from: u64, fanout: nat)
    requires
        strictly_increasing(avail),
        avail.contains(from),
    ensures
        sender_contacts(m, avail, from, fanout).len() <= fanout,
        forall|j: int|
            0 <= j < sender_contacts(m, avail, from, fanout).len() ==> {
                let c = #[trigger] sender_contacts(m, avail, from, fanout)[j];
                &&& c.from.0 == from
                &&& c.to.0 != from
                &&& avail.contains(c.to.0)
            },
{
    lemma_peers_after_members(from, avail);
}

proof fn lemma_round_contacts_members(
    m: Map<u64, GossipNodeView>,
    avail: Seq<u64>,
    senders: Seq<u64>,
    fanout: nat,
)
    requires
        strictly_increasing(avail),
        strictly_increasing(senders),
        forall|s: u64| #[trigger] senders.contains(s) ==> avail.contains(s),
    ensures
        forall|j: int|
            0 <= j < round_contacts(m, avail, senders, fanout).len() ==> {
                let c = #[trigger] round_contacts(m, avail, senders, fanout)[j];
                &&& senders.contains(c.from.0)
                &&& avail.contains(c.to.0)
                &&& c.to.0 != c.from.0
            },
        forall|x: u64| #[trigger] sent_by(round_contacts(m, avail, senders, fanout), x) <= fanout,
    decreases senders.len(),
{
    if senders.len() > 0 {
        let rest = senders.drop_last();
        let last = senders.last();
        assert forall|s: u64| #[trigger] rest.contains(s) implies avail.contains(s) && senders.contains(s) && s < last by {
            let p = choose|p: int| 0 <= p < rest.len() && rest[p] == s;
            assert(senders[p] == s);
            assert(senders.contains(s));
            assert(avail.contains(s));
            assert(senders[p] < senders[senders.len() - 1]);
        }
        assert(senders.contains(last)) by {
            assert(senders[senders.len() - 1] == last);
        }
        lemma_round_contacts_members(m, avail, rest, fanout);
        lemma_sender_contacts(m, avail, last, fanout);
        let prefix = round_contacts(m, avail, rest, fanout);
        let sc = sender_contacts(m, avail, last, fanout);
        let c = round_contacts(m, avail, senders, fanout);
        assert(c == prefix + sc);
        assert forall|j: int| 0 <= j < c.len() implies {
            let k = #[trigger] c[j];
            &&& senders.contains(k.from.0)
            &&& avail.contains(k.to.0)
            &&& k.to.0 != k.from.0
        } by {
            if j < prefix.len() {
                assert(c[j] == prefix[j]);
            } else {
                assert(c[j] == sc[j - prefix.len()]);
            }
        }
        assert forall|x: u64| #[trigger] sent_by(c, x) <= fanout by {
            lemma_sent_by_append(prefix, sc, x);
            lemma_sent_by_uniform(prefix, x);
            lemma_sent_by_uniform(sc, x);
            if x == last {
                assert forall|j: int| 0 <= j < prefix.len() implies (#[trigger] prefix[j]).from.0 != x by {
                    assert(rest.contains(prefix[j].from.0));
                }
            } else {
                assert forall|j: int| 0 <= j < sc.len() implies (#[trigger] sc[j]).from.0 != x by {}
            }
        }
    }
}

/// Law of a round's contacts: each one goes from an available node of the
/// cluster to another available node of the cluster, and no node makes more
/// contacts than the fanout allows.
pub proof fn lemma_contacts_respect_availability_and_fanout(
    m: Map<u64, GossipNodeView>,
    keys: Seq<u64>,
    fanout: nat,
)
    requires
        strictly_increasing(keys),
    ensures
        forall|j: int|
            0 <= j < contacts_of_round(m, keys, fanout).len() ==> {
                let c = #[trigger] contacts_of_round(m, keys, fanout)[j];
                &&& c.from != c.to
                &&& keys.contains(c.from.0) && m[c.from.0].available
                &&& keys.contains(c.to.0) && m[c.to.0].available
            },
        forall|x: u64| #[trigger] sent_by(contacts_of_round(m, keys, fanout), x) <= fanout,
{
    let avail = available_in(m, keys);
    lemma_available_in(m, keys);
    lemma_round_contacts_members(m, avail, avail, fanout);
    let c = contacts_of_round(m, keys, fanout);
    assert forall|j: int| 0 <= j < c.len() implies {
        let k = #[trigger] c[j];
        &&& k.from != k.to
        &&& keys.contains(k.from.0) && m[k.from.0].available
        &&& keys.contains(k.to.0) && m[k.to.0].available
    } by {
        let k = c[j];
        let p = choose|p: int| 0 <= p < avail.len() && avail[p] == k.from.0;
        let q = choose|q: int| 0 <= q < avail.len() && avail[q] == k.to.0;
        assert(keys.contains(avail[p]) && m[avail[p]].available);
        assert(keys.contains(avail[q]) && m[avail[q]].available);
    }
}

/// Law: a node that is unavailable during a round neither sends nor
/// receives, so it ends the round exactly as it began.
pub proof fn lemma_unavailable_node_is_untouched(
    m: Map<u64, GossipNodeView>,
    keys: Seq<u64>,
    fanout: nat,
    x: u64,
)
    requires
        strictly_increasing(keys),
        m.contains_key(x),
        !m[x].available,
    ensures
        forall|j: int|
            0 <= j < contacts_of_round(m, keys, fanout).len() ==> (#[trigger] contacts_of_round(
                m,
                keys,
                fanout,
            )[j]).from.0 != x && contacts_of_round(m, keys, fanout)[j].to.0 != x,
        after_round(m, keys, fanout)[x] == m[x],
{
    lemma_contacts_respect_availability_and_fanout(m, keys, fanout);
    let c = contacts_of_round(m, keys, fanout);
    assert forall|f: u64| !received(m, c, x, f) by {}
    assert(m[x].facts.union(Set::new(|f: u64| received(m, c, x, f))) =~= m[x].facts);
}

/// Law: a round keeps the same nodes with the same availability and never
/// takes a fact away from any of them.
pub proof fn lemma_round_only_adds_facts(m: Map<u64, GossipNodeView>, keys: Seq<u64>, fanout: nat)
    ensures
        forall|x: u64| #[trigger] after_round(m, keys, fanout).contains_key(x) <==> m.contains_key(x),
        forall|x: u64|
            #[trigger] m.contains_key(x) ==> after_round(m, keys, fanout)[x].available == m[x].available
                && m[x].facts.subset_of(after_round(m, keys, fanout)[x].facts),
{
}

/// Law: once all available nodes know the same facts, a round leaves the
/// cluster exactly as it was.
pub proof fn lemma_converged_round_changes_nothing(m: Map<u64, GossipNodeView>, keys: Seq<u64>, fanout: nat)
    requires
        strictly_increasing(keys),
        forall|x: u64| #[trigger] m.contains_key(x) <==> keys.contains(x),
        converged(m),
    ensures
        after_round(m, keys, fanout) == m,
{
    lemma_contacts_respect_availability_and_fanout(m, keys, fanout);
    let c = contacts_of_round(m, keys, fanout);
    assert forall|x: u64| #[trigger] m.contains_key(x) implies after_round(m, keys, fanout)[x] == m[x] by {
        assert forall|f: u64| received(m, c, x, f) implies m[x].facts.contains(f) by {
            let j = choose|j: int| 0 <= j < c.len() && #[trigger] c[j].to.0 == x && m[c[j].from.0].facts.contains(f);
            let k = c[j];
            assert(m.contains_key(k.from.0) && m[k.from.0].available);
            assert(m.contains_key(k.to.0) && m[k.to.0].available);
            assert(m[k.from.0].facts == m[k.to.0].facts);
        }
        assert(m[x].facts.union(Set::new(|f: u64| received(m, c, x, f))) =~= m[x].facts);
    }
    assert(after_round(m, keys, fanout) =~= m);
}

/// The cluster after `r` rounds with the same fanout, with no node joining,
/// failing or recovering in between.
pub open spec fn rounds(m: Map<u64, GossipNodeView>, keys: Seq<u64>, fanout: nat, r: nat) -> Map<u64, GossipNodeView>
    decreases r,
{
    if r == 0 {
        m
    } else {
        after_round(rounds(m, keys, fanout, (r - 1) as nat), keys, fanout)
    }
}

/// The facts known by the available nodes among `keys`.
pub open spec fn known_by_available(m: Map<u64, GossipNodeView>, keys: Seq<u64>) -> Set<u64>
    decreases keys.len(),
{
    if keys.len() == 0 {
        Set::empty()
    } else {
        let rest = known_by_available(m, keys.drop_last());
        if m[keys.last()].available {
            rest.union(m[keys.last()].facts)
        } else {
            rest
        }
    }
}

/// Position `d` steps before position `i` on a ring of `n` positions.
pub open spec fn ring_back(i: int, d: int, n: int) -> int {
    if i >= d {
        i - d
    } else {
        i - d + n
    }
}

proof fn lemma_known_by_available(m: Map<u64, GossipNodeView>, keys: Seq<u64>)
    requires
        forall|x: u64| #[trigger] keys.contains(x) ==> m[x].facts.finite(),
    ensures
        known_by_available(m, keys).finite(),
        forall|f: u64|
            #[trigger] known_by_available(m, keys).contains(f) <==> exists|x: u64|
                #[trigger] keys.contains(x) && m[x].available && m[x].facts.contains(f),
    decreases keys.len(),
{
    if keys.len() > 0 {
        let rest = keys.drop_last();
        let last = keys.last();
        assert(keys.contains(last)) by {
            assert(keys[keys.len() - 1] == last);
        }
        assert forall|x: u64| #[trigger] rest.contains(x) implies keys.contains(x) by {
            let p = choose|p: int| 0 <= p < rest.len() && rest[p] == x;
            assert(keys[p] == x);
        }
        lemma_known_by_available(m, rest);
        assert forall|f: u64|
            #[trigger] known_by_available(m, keys).contains(f) <==> exists|x: u64|
                #[trigger] keys.contains(x) && m[x].available && m[x].facts.contains(f) by {
            if exists|x: u64| #[trigger] keys.contains(x) && m[x].available && m[x].facts.contains(f) {
                let x = choose|x: u64| #[trigger] keys.contains(x) && m[x].available && m[x].facts.contains(f);
                if x != last {
                    let p = choose|p: int| 0 <= p < keys.len() && keys[p] == x;
                    assert(rest[p] == x);
                    assert(rest.contains(x));
                }
            }
        }
    }
}

proof fn lemma_available_in_same(m: Map<u64, GossipNodeView>, m2: Map<u64, GossipNodeView>, keys: Seq<u64>)
    requires
        forall|x: u64| #[trigger] keys.contains(x) ==> m2[x].available == m[x].available,
    ensures
        available_in(m2, keys) == available_in(m, keys),
    decreases keys.len(),
{
    if keys.len() > 0 {
        let rest = keys.drop_last();
        assert forall|x: u64| #[trigger] rest.contains(x) implies m2[x].available == m[x].available by {
            let p = choose|p: int| 0 <= p < rest.len() && rest[p] == x;
            assert(keys[p] == x);
            assert(keys.contains(x));
        }
        assert(keys.contains(keys.last())) by {
            assert(keys[keys.len() - 1] == keys.last());
        }
        lemma_available_in_same(m, m2, rest);
    }
}

proof fn lemma_rounds_shape(m: Map<u64, GossipNodeView>, keys: Seq<u64>, fanout: nat, r: nat)
    requires
        strictly_increasing(keys),
    ensures
        forall|x: u64| #[trigger] rounds(m, keys, fanout, r).contains_key(x) <==> m.contains_key(x),
        forall|x: u64|
            #[trigger] m.contains_key(x) ==> rounds(m, keys, fanout, r)[x].available == m[x].available,
        forall|x: u64|
            #[trigger] m.contains_key(x) && !m[x].available ==> rounds(m, keys, fanout, r)[x] == m[x],
        forall|x: u64|
            #[trigger] m.contains_key(x) ==> m[x].facts.subset_of(rounds(m, keys, fanout, r)[x].facts),
    decreases r,
{
    if r > 0 {
        let prev = rounds(m, keys, fanout, (r - 1) as nat);
        lemma_rounds_shape(m, keys, fanout, (r - 1) as nat);
        lemma_round_only_adds_facts(prev, keys, fanout);
        assert forall|x: u64| #[trigger] m.contains_key(x) && !m[x].available implies rounds(
            m,
            keys,
            fanout,
            r,
        )[x] == m[x] by {
            lemma_unavailable_node_is_untouched(prev, keys, fanout, x);
        }
    }
}

proof fn lemma_rounds_within_known(m: Map<u64, GossipNodeView>, keys: Seq<u64>, fanout: nat, r: nat)
    requires
        strictly_increasing(keys),
        forall|x: u64| #[trigger] m.contains_key(x) <==> keys.contains(x),
        forall|x: u64| #[trigger] m.contains_key(x) ==> m[x].facts.finite(),
    ensures
        forall|x: u64|
            #[trigger] m.contains_key(x) && m[x].available ==> rounds(m, keys, fanout, r)[x].facts.subset_of(
                known_by_available(m, keys),
            ),
        forall|x: u64| #[trigger] m.contains_key(x) ==> rounds(m, keys, fanout, r)[x].facts.finite(),
    decreases r,
{
    let known = known_by_available(m, keys);
    assert forall|x: u64| #[trigger] keys.contains(x) implies m[x].facts.finite() by {
        assert(m.contains_key(x));
    }
    lemma_known_by_available(m, keys);
    lemma_rounds_shape(m, keys, fanout, r);
    if r == 0 {
        assert forall|x: u64| #[trigger] m.contains_key(x) && m[x].available implies m[x].facts.subset_of(known) by {
            assert forall|f: u64| m[x].facts.contains(f) implies known.contains(f) by {
                assert(keys.contains(x));
            }
        }
    } else {
        let prev = rounds(m, keys, fanout, (r - 1) as nat);
        let c = contacts_of_round(prev, keys, fanout);
        lemma_rounds_within_known(m, keys, fanout, (r - 1) as nat);
        lemma_rounds_shape(m, keys, fanout, (r - 1) as nat);
        lemma_contacts_respect_availability_and_fanout(prev, keys, fanout);
        assert forall|x: u64| #[trigger] m.contains_key(x) && m[x].available implies rounds(
            m,
            keys,
            fanout,
            r,
        )[x].facts.subset_of(known) by {
            assert forall|f: u64| rounds(m, keys, fanout, r)[x].facts.contains(f) implies known.contains(f) by {
                if !prev[x].facts.contains(f) {
                    assert(received(prev, c, x, f));
                    let j = choose|j: int| 0 <= j < c.len() && #[trigger] c[j].to.0 == x && prev[c[j].from.0].facts.contains(f);
                    let s = c[j].from.0;
                    assert(keys.contains(s) && prev[s].available);
                    assert(m.contains_key(s));
                }
            }
        }
        assert forall|x: u64| #[trigger] m.contains_key(x) implies rounds(m, keys, fanout, r)[x].facts.finite() by {
            if m[x].available {
                vstd::set_lib::lemma_set_subset_finite(known, rounds(m, keys, fanout, r)[x].facts);
            }
        }
    }
}

proof fn lemma_round_contacts_include(
    m: Map<u64, GossipNodeView>,
    avail: Seq<u64>,
    senders: Seq<u64>,
    fanout: nat,
    k: int,
    t: int,
)
    requires
        0 <= k < senders.len(),
        0 <= t < sender_contacts(m, avail, senders[k], fanout).len(),
    ensures
        exists|j: int|
            0 <= j < round_contacts(m, avail, senders, fanout).len() && #[trigger] round_contacts(
                m,
                avail,
                senders,
                fanout,
            )[j] == sender_contacts(m, avail, senders[k], fanout)[t],
    decreases senders.len(),
{
    let rest = senders.drop_last();
    let prefix = round_contacts(m, avail, rest, fanout);
    let sc = sender_contacts(m, avail, senders.last(), fanout);
    let c = round_contacts(m, avail, senders, fanout);
    assert(c == prefix + sc);
    if k == senders.len() - 1 {
        assert(c[prefix.len() + t] == sc[t]);
    } else {
        assert(rest[k] == senders[k]);
        lemma_round_contacts_include(m, avail, rest, fanout, k, t);
        let j = choose|j: int| 0 <= j < prefix.len() && #[trigger] prefix[j] == sender_contacts(m, avail, rest[k], fanout)[t];
        assert(c[j] == prefix[j]);
    }
}

proof fn lemma_neighbour_receives(m: Map<u64, GossipNodeView>, keys: Seq<u64>, fanout: nat, i: int)
    requires
        strictly_increasing(keys),
        fanout >= 1,
        available_in(m, keys).len() >= 2,
        0 <= i < available_in(m, keys).len(),
        m[available_in(m, keys)[ring_back(i, 1, available_in(m, keys).len() as int)]].facts.finite(),
        m.contains_key(available_in(m, keys)[i]),
    ensures
        m[available_in(m, keys)[ring_back(i, 1, available_in(m, keys).len() as int)]].facts.subset_of(
            after_round(m, keys, fanout)[available_in(m, keys)[i]].facts,
        ),
{
    let a = available_in(m, keys);
    let n = a.len() as int;
    let j = ring_back(i, 1, n);
    let from = a[j];
    let to = a[i];
    let c = contacts_of_round(m, keys, fanout);
    lemma_available_in(m, keys);
    if m[from].facts.len() != 0 {
        crate::id_map::lemma_index_of_increasing(a, j);
        assert(a.contains(from));
        let peers = peers_after(from, a);
        assert(peers[0] == to);
        let sc = sender_contacts(m, a, from, fanout);
        assert(sc[0] == GossipContact {
            from: GossipNodeId(from),
            to: GossipNodeId(to),
            facts_sent: m[from].facts.len() as usize,
        });
        lemma_round_contacts_include(m, a, a, fanout, j, 0);
        let e = choose|e: int| 0 <= e < c.len() && #[trigger] c[e] == sc[0];
        assert forall|f: u64| m[from].facts.contains(f) implies after_round(m, keys, fanout)[to].facts.contains(f) by {
            assert(c[e].to.0 == to && m[c[e].from.0].facts.contains(f));
            assert(received(m, c, to, f));
        }
    } else {
        assert(m[from].facts =~= Set::<u64>::empty());
    }
}

proof fn lemma_rounds_spread(m: Map<u64, GossipNodeView>, keys: Seq<u64>, fanout: nat, r: nat)
    requires
        strictly_increasing(keys),
        forall|x: u64| #[trigger] m.contains_key(x) <==> keys.contains(x),
        forall|x: u64| #[trigger] m.contains_key(x) ==> m[x].facts.finite(),
        fanout >= 1,
    ensures
        forall|i: int, d: int|
            0 <= i < available_in(m, keys).len() && 0 <= d <= r && d < available_in(m, keys).len() ==> #[trigger] m[available_in(
                m,
                keys,
            )[ring_back(i, d, available_in(m, keys).len() as int)]].facts.subset_of(
                #[trigger] rounds(m, keys, fanout, r)[available_in(m, keys)[i]].facts,
            ),
    decreases r,
{
    let a = available_in(m, keys);
    let n = a.len() as int;
    lemma_available_in(m, keys);
    lemma_rounds_shape(m, keys, fanout, r);
    if r == 0 {
        assert forall|i: int, d: int| 0 <= i < n && 0 <= d <= r && d < n implies #[trigger] m[a[ring_back(i, d, n)]].facts.subset_of(
            #[trigger] rounds(m, keys, fanout, r)[a[i]].facts,
        ) by {}
    } else {
        let prev = rounds(m, keys, fanout, (r - 1) as nat);
        lemma_rounds_spread(m, keys, fanout, (r - 1) as nat);
        lemma_rounds_shape(m, keys, fanout, (r - 1) as nat);
        lemma_rounds_within_known(m, keys, fanout, (r - 1) as nat);
        lemma_round_only_adds_facts(prev, keys, fanout);
        assert forall|x: u64| #[trigger] keys.contains(x) implies prev[x].available == m[x].available by {
            assert(m.contains_key(x));
        }
        lemma_available_in_same(m, prev, keys);
        assert forall|i: int, d: int| 0 <= i < n && 0 <= d <= r && d < n implies #[trigger] m[a[ring_back(i, d, n)]].facts.subset_of(
            #[trigger] rounds(m, keys, fanout, r)[a[i]].facts,
        ) by {
            assert(keys.contains(a[i]) && m.contains_key(a[i]));
            if d < r {
                assert(m[a[ring_back(i, d, n)]].facts.subset_of(prev[a[i]].facts));
            } else {
                let j = ring_back(i, 1, n);
                assert(ring_back(j, d - 1, n) == ring_back(i, d, n));
                assert(m[a[ring_back(j, d - 1, n)]].facts.subset_of(prev[a[j]].facts));
                assert(keys.contains(a[j]) && m.contains_key(a[j]));
                lemma_neighbour_receives(prev, keys, fanout, i);
            }
        }
    }
}

/// Law of eventual convergence: with a fanout of at least one and no node
/// joining, failing or recovering, after one round fewer than there are
/// available nodes every available node knows exactly the facts that some
/// available node knew at the start, so the available nodes have converged.
pub proof fn lemma_rounds_converge(m: Map<u64, GossipNodeView>, keys: Seq<u64>, fanout: nat, r: nat)
    requires
        strictly_increasing(keys),
        forall|x: u64| #[trigger] m.contains_key(x) <==> keys.contains(x),
        forall|x: u64| #[trigger] m.contains_key(x) ==> m[x].facts.finite(),
        fanout >= 1,
        r + 1 >= available_in(m, keys).len(),
    ensures
        forall|x: u64|
            #[trigger] m.contains_key(x) && m[x].available ==> rounds(m, keys, fanout, r)[x].facts
                == known_by_available(m, keys),
        converged(rounds(m, keys, fanout, r)),
{
    let a = available_in(m, keys);
    let n = a.len() as int;
    let known = known_by_available(m, keys);
    let last = rounds(m, keys, fanout, r);
    lemma_available_in(m, keys);
    assert forall|x: u64| #[trigger] keys.contains(x) implies m[x].facts.finite() by {
        assert(m.contains_key(x));
    }
    lemma_known_by_available(m, keys);
    lemma_rounds_shape(m, keys, fanout, r);
    lemma_rounds_within_known(m, keys, fanout, r);
    lemma_rounds_spread(m, keys, fanout, r);
    assert forall|x: u64| #[trigger] m.contains_key(x) && m[x].available implies last[x].facts == known by {
        assert(keys.contains(x));
        assert(a.contains(x));
        let i = choose|i: int| 0 <= i < n && a[i] == x;
        assert forall|f: u64| known.contains(f) implies last[x].facts.contains(f) by {
            let y = choose|y: u64| #[trigger] keys.contains(y) && m[y].available && m[y].facts.contains(f);
            assert(a.contains(y));
            let k = choose|k: int| 0 <= k < n && a[k] == y;
            let d = if i >= k {
                i - k
            } else {
                i - k + n
            };
            assert(ring_back(i, d, n) == k);
            assert(m[a[ring_back(i, d, n)]].facts.subset_of(last[a[i]].facts));
        }
        assert(last[x].facts =~= known);
    }
    assert forall|x: u64, y: u64|
        last.contains_key(x) && last[x].available && last.contains_key(y) && last[y].available implies #[trigger] last[x].facts
            == #[trigger] last[y].facts by {
        assert(m.contains_key(x) && m[x].available);
        assert(m.contains_key(y) && m[y].available);
    }
}

proof fn lemma_sent_total_append(a: Seq<GossipContact>, b: Seq<GossipContact>)
    ensures
        sent_total(a + b) == sent_total(a) + sent_total(b),
    decreases b.len(),
{
    if b.len() == 0 {
        assert(a + b == a);
    } else {
        assert((a + b).drop_last() == a + b.drop_last());
        lemma_sent_total_append(a, b.drop_last());
    }
}

proof fn lemma_sent_total_uniform(c: Seq<GossipContact>, v: nat)
    requires
        forall|j: int| 0 <= j < c.len() ==> (#[trigger] c[j]).facts_sent == v,
    ensures
        sent_total(c) == c.len() * v,
    decreases c.len(),
{
    if c.len() > 0 {
        let r = c.drop_last();
        assert forall|j: int| 0 <= j < r.len() implies (#[trigger] r[j]).facts_sent == v by {
            assert(r[j] == c[j]);
        }
        lemma_sent_total_uniform(r, v);
        assert(c.last() == c[c.len() - 1]);
        let n = r.len();
        assert(n * v + v == (n + 1) * v) by (nonlinear_arith);
    }
}

proof fn lemma_round_traffic(m: Map<u64, GossipNodeView>, avail: Seq<u64>, senders: Seq<u64>, fanout: nat)
    requires
        forall|j: int| 0 <= j < senders.len() ==> m[#[trigger] senders[j]].facts.len() <= usize::MAX,
    ensures
        sent_total(round_contacts(m, avail, senders, fanout)) <= fanout * fact_total(m, senders),
    decreases senders.len(),
{
    if senders.len() > 0 {
        let rest = senders.drop_last();
        let x = senders.last();
        assert forall|j: int| 0 <= j < rest.len() implies m[#[trigger] rest[j]].facts.len() <= usize::MAX by {
            assert(rest[j] == senders[j]);
        }
        lemma_round_traffic(m, avail, rest, fanout);
        let sc = sender_contacts(m, avail, x, fanout);
        lemma_sent_total_append(round_contacts(m, avail, rest, fanout), sc);
        let v = m[x].facts.len();
        assert(senders[senders.len() - 1] == x);
        if v == 0 {
            assert(sc =~= Seq::<GossipContact>::empty());
        } else {
            assert forall|j: int| 0 <= j < sc.len() implies (#[trigger] sc[j]).facts_sent == v by {}
            lemma_sent_total_uniform(sc, v);
            let n = sc.len();
            assert(n <= fanout);
            assert(n * v <= fanout * v) by (nonlinear_arith)
                requires
                    n <= fanout,
            ;
        }
        let a = fact_total(m, rest);
        assert(a >= 0) by {
            lemma_fact_total_nonneg(m, rest);
        }
        assert(fanout * a + fanout * v == fanout * (a + v)) by (nonlinear_arith);
    }
}

proof fn lemma_fact_total_nonneg(m: Map<u64, GossipNodeView>, keys: Seq<u64>)
    ensures
        fact_total(m, keys) >= 0,
    decreases keys.len(),
{
    if keys.len() > 0 {
        lemma_fact_total_nonneg(m, keys.drop_last());
    }
}

proof fn lemma_fact_total_available(m: Map<u64, GossipNodeView>, keys: Seq<u64>)
    ensures
        fact_total(m, available_in(m, keys)) <= fact_total(m, keys),
    decreases keys.len(),
{
    if keys.len() > 0 {
        let rest = keys.drop_last();
        lemma_fact_total_available(m, rest);
        let a = available_in(m, rest);
        if m[keys.last()].available {
            assert(a.push(keys.last()).drop_last() == a);
        }
    }
}

/// Bound on the traffic of a round: the facts carried by all its contacts
/// add up to at most the fanout times the number of facts the nodes know
/// in all, which is what `run_round` needs to fit in a `usize`.
pub proof fn lemma_round_traffic_bound(m: Map<u64, GossipNodeView>, keys: Seq<u64>, fanout: nat)
    requires
        forall|x: u64| #[trigger] keys.contains(x) ==> m[x].facts.len() <= usize::MAX,
    ensures
        sent_total(contacts_of_round(m, keys, fanout)) <= fanout * fact_total(m, keys),
{
    let avail = available_in(m, keys);
    lemma_available_in_members(m, keys);
    assert forall|j: int| 0 <= j < avail.len() implies m[#[trigger] avail[j]].facts.len() <= usize::MAX by {
        assert(keys.contains(avail[j]));
    }
    lemma_round_traffic(m, avail, avail, fanout);
    lemma_fact_total_available(m, keys);
    lemma_fact_total_nonneg(m, keys);
    lemma_fact_total_nonneg(m, avail);
    let a = fact_total(m, avail);
    let b = fact_total(m, keys);
    assert(fanout * a <= fanout * b) by (nonlinear_arith)
        requires
            0 <= a <= b,
    ;
}

proof fn lemma_available_in_members(m: Map<u64, GossipNodeView>, keys: Seq<u64>)
    ensures
        forall|j: int| 0 <= j < available_in(m, keys).len() ==> keys.contains(#[trigger] available_in(m, keys)[j]),
    decreases keys.len(),
{
    if keys.len() > 0 {
        let rest = keys.drop_last();
        lemma_available_in_members(m, rest);
        let a = available_in(m, keys);
        let r = available_in(m, rest);
        assert forall|j: int| 0 <= j < a.len() implies keys.contains(#[trigger] a[j]) by {
            if j < r.len() {
                assert(rest.contains(r[j]));
                let p = choose|p: int| 0 <= p < rest.len() && rest[p] == r[j];
                assert(keys[p] == r[j]);
            } else {
                assert(keys[keys.len() - 1] == keys.last());
            }
        }
    }
}

/// The peers of `from` among the available identifiers.
fn peers_of(from: u64, ids: &Vec<u64>) -> (r: Vec<u64>)
    requires
        strictly_increasing(ids@),
    ensures
        r@ == peers_after(from, ids@),
{
    let n = ids.len();
    if n <= 1 {
        proof {
            assert(peers_after(from, ids@) =~= Seq::<u64>::empty());
        }
        return Vec::new();
    }
    let mut start: usize = 0;
    let mut found = false;
    let mut p: usize = 0;
    while p < n
        invariant
            p <= n,
            n == ids@.len(),
            found ==> 0 < start <= p && ids@[start - 1] == from,
            !found ==> start == 0 && forall|q: int| 0 <= q < p ==> ids@[q] != from,
        decreases n - p,
    {
        if !found && ids[p] == from {
            start = p + 1;
            found = true;
        }
        p = p + 1;
    }
    proof {
        if found {
            crate::id_map::lemma_index_of_increasing(ids@, start - 1);
            assert(ids@.contains(from));
        } else {
            assert(!ids@.contains(from));
        }
    }
    let mut r: Vec<u64> = Vec::new();
    let mut o: usize = 0;
    while o < n - 1
        invariant
            o <= n - 1,
            n == ids@.len(),
            n > 1,
            start <= n,
            start == (if ids@.contains(from) {
                ids@.index_of(from) + 1
            } else {
                0
            }),
            r@ =~= peers_after(from, ids@).take(o as int),
        decreases n - 1 - o,
    {
        let idx = if o < n - start {
            start + o
        } else {
            o - (n - start)
        };
        r.push(ids[idx]);
        o = o + 1;
    }
    proof {
        assert(peers_after(from, ids@).take(o as int) =~= peers_after(from, ids@));
    }
    r
}

/// Deterministic cluster on which gossip rounds are simulated.
#[derive(Clone, Debug, PartialEq, Eq)]
pub struct GossipCluster {
    nodes: IdMap<GossipNode>,
}

impl View for GossipCluster {
    type V = Map<u64, GossipNodeView>;

    closed spec fn view(&self) -> Map<u64, GossipNodeView> {
        self.nodes@.map_values(|n: GossipNode| n@)
    }
}

impl Default for GossipCluster {
    fn default() -> (c: Self)
        ensures
            c.wf(),
            c@ == Map::<u64, GossipNodeView>::empty(),
    {
        Self::new()
    }
}

impl GossipCluster {
    /// The node identifiers, in ascending order.
    pub closed spec fn node_seq(&self) -> Seq<u64> {
        self.nodes.key_seq()
    }

    /// The cluster's internal structures are well formed.
    pub closed spec fn wf(&self) -> bool {
        &&& self.nodes.inv()
        &&& forall|id: u64| #[trigger] self.nodes@.contains_key(id) ==> self.nodes@[id].wf()
    }

    /// Facts that the well-formedness gives callers.
    pub proof fn lemma_wf(&self)
        requires
            self.wf(),
        ensures
            strictly_increasing(self.node_seq()),
            forall|id: u64| #[trigger] self@.contains_key(id) <==> self.node_seq().contains(id),
            forall|id: u64| #[trigger] self@.contains_key(id) ==> self@[id].facts.finite(),
            forall|id: u64| #[trigger] self@.contains_key(id) ==> self@[id].facts.len() <= usize::MAX,
    {
        assert forall|id: u64| #[trigger] self@.contains_key(id) implies self@[id].facts.len() <= usize::MAX by {
            self.nodes@[id].facts.lemma_len_bound();
        }
        assert forall|id: u64| #[trigger] self@.contains_key(id) <==> self.node_seq().contains(id) by {
            if self.node_seq().contains(id) {
                let i = choose|i: int| 0 <= i < self.node_seq().len() && self.node_seq()[i] == id;
                assert(self.nodes@.contains_key(self.nodes.key_seq()[i]));
            }
        }
    }

    /// An empty cluster.
    pub fn new() -> (c: Self)
        ensures
            c.wf(),
            c@ == Map::<u64, GossipNodeView>::empty(),
    {
        let c = GossipCluster { nodes: IdMap::new() };
        proof {
            assert(c@ =~= Map::<u64, GossipNodeView>::empty());
        }
        c
    }

    /// A cluster whose nodes are all available and know nothing.
    pub fn from_nodes(nodes: &[GossipNodeId]) -> (c: Self)
        ensures
            c.wf(),
            forall|id: u64| #[trigger] c@.contains_key(id) <==> exists|i: int|
                0 <= i < nodes@.len() && nodes@[i].0 == id,
            forall|id: u64| #[trigger] c@.contains_key(id) ==> c@[id].available && c@[id].facts
                == Set::<u64>::empty(),
    {
        let mut cluster = Self::new();
        let mut i: usize = 0;
        while i < nodes.len()
            invariant
                i <= nodes@.len(),
                cluster.wf(),
                forall|id: u64| #[trigger] cluster@.contains_key(id) <==> exists|p: int|
                    0 <= p < i && nodes@[p].0 == id,
                forall|id: u64| #[trigger] cluster@.contains_key(id) ==> cluster@[id].available
                    && cluster@[id].facts == Set::<u64>::empty(),
            decreases nodes@.len() - i,
        {
            let ghost before = cluster@;
            cluster.insert_node(nodes[i]);
            proof {
                assert forall|id: u64| #[trigger] cluster@.contains_key(id) <==> exists|p: int|
                    0 <= p < i + 1 && nodes@[p].0 == id by {
                    if before.contains_key(id) {
                        let p = choose|p: int| 0 <= p < i && nodes@[p].0 == id;
                        assert(0 <= p < i + 1 && nodes@[p].0 == id);
                    }
                    if id == nodes@[i as int].0 {
                        assert(nodes@[i as int].0 == id);
                    }
                }
            }
            i = i + 1;
        }
        cluster
    }

    /// Adds an available node that knows nothing, unless it already exists.
    pub fn insert_node(&mut self, id: GossipNodeId)
        requires
            old(self).wf(),
        ensures
            final(self).wf(),
            old(self)@.contains_key(id.0) ==> final(self)@ == old(self)@,
            !old(self)@.contains_key(id.0) ==> final(self)@ == old(self)@.insert(
                id.0,
                GossipNodeView { available: true, facts: Set::empty() },
            ),
    {
        if !self.nodes.contains_key(id.0) {
            self.nodes.insert(id.0, GossipNode::default());
            proof {
                assert(self@ =~= old(self)@.insert(
                    id.0,
                    GossipNodeView { available: true, facts: Set::empty() },
                ));
            }
        }
    }

    /// Marks a node available or not; tells whether the node exists.
    pub fn set_available(&mut self, id: GossipNodeId, available: bool) -> (found: bool)
        requires
            old(self).wf(),
        ensures
            final(self).wf(),
            found == old(self)@.contains_key(id.0),
            found ==> final(self)@ == old(self)@.insert(
                id.0,
                GossipNodeView { available, facts: old(self)@[id.0].facts },
            ),
            !found ==> final(self)@ == old(self)@,
    {
        let node = match self.nodes.get(id.0) {
            Some(node) => node,
            None => {
                return false;
            },
        };
        let updated = GossipNode { available, facts: node.facts.duplicate() };
        self.nodes.insert(id.0, updated);
        proof {
            assert(self@ =~= old(self)@.insert(
                id.0,
                GossipNodeView { available, facts: old(self)@[id.0].facts },
            ));
        }
        true
    }

    /// Whether the node exists and is available.
    pub fn is_available(&self, id: GossipNodeId) -> (b: bool)
        requires
            self.wf(),
        ensures
            b == (self@.contains_key(id.0) && self@[id.0].available),
    {
        match self.nodes.get(id.0) {
            Some(node) => node.available,
            None => false,
        }
    }

    /// Gives a fact directly to a node; tells whether it was new to it.
    pub fn insert_fact(&mut self, id: GossipNodeId, fact: GossipFact) -> (added: bool)
        requires
            old(self).wf(),
        ensures
            final(self).wf(),
            added == (old(self)@.contains_key(id.0) && !old(self)@[id.0].facts.contains(fact.0)),
            old(self)@.contains_key(id.0) ==> final(self)@ == old(self)@.insert(
                id.0,
                GossipNodeView {
                    available: old(self)@[id.0].available,
                    facts: old(self)@[id.0].facts.insert(fact.0),
                },
            ),
            !old(self)@.contains_key(id.0) ==> final(self)@ == old(self)@,
    {
        let node = match self.nodes.get(id.0) {
            Some(node) => node,
            None => {
                return false;
            },
        };
        let mut facts = node.facts.duplicate();
        let added = facts.insert(fact.0);
        let updated = GossipNode { available: node.available, facts };
        self.nodes.insert(id.0, updated);
        proof {
            assert(self@ =~= old(self)@.insert(
                id.0,
                GossipNodeView {
                    available: old(self)@[id.0].available,
                    facts: old(self)@[id.0].facts.insert(fact.0),
                },
            ));
        }
        added
    }

    /// Whether the node exists and knows the fact.
    pub fn knows(&self, id: GossipNodeId, fact: GossipFact) -> (b: bool)
        requires
            self.wf(),
        ensures
            b == (self@.contains_key(id.0) && self@[id.0].facts.contains(fact.0)),
    {
        match self.nodes.get(id.0) {
            Some(node) => node.facts.contains(fact.0),
            None => false,
        }
    }

    /// How many nodes know the fact.
    pub fn coverage(&self, fact: GossipFact) -> (n: usize)
        requires
            self.wf(),
        ensures
            n == count_where(self.node_seq(), |id: u64| self@[id].facts.contains(fact.0)),
    {
        let ghost p = |id: u64| self@[id].facts.contains(fact.0);
        let len = self.nodes.len();
        let mut n: usize = 0;
        let mut i: usize = 0;
        while i < len
            invariant
                i <= len,
                len == self.node_seq().len(),
                self.wf(),
                p == (|id: u64| self@[id].facts.contains(fact.0)),
                n == count_where(self.node_seq().take(i as int), p),
            decreases len - i,
        {
            let node = self.nodes.value_at(i);
            proof {
                let ks = self.node_seq();
                assert(ks.take(i + 1).drop_last() == ks.take(i as int));
                crate::id_map::lemma_count_where_bound(ks.take(i as int), p);
                assert(self.nodes@.contains_key(ks[i as int]));
            }
            if node.facts.contains(fact.0) {
                n = n + 1;
            }
            i = i + 1;
        }
        proof {
            assert(self.node_seq().take(i as int) == self.node_seq());
        }
        n
    }

    /// The node identifiers, in ascending order.
    pub fn node_ids(&self) -> (r: Vec<GossipNodeId>)
        requires
            self.wf(),
        ensures
            r@ == self.node_seq().map_values(|id: u64| GossipNodeId(id)),
    {
        let len = self.nodes.len();
        let mut r: Vec<GossipNodeId> = Vec::new();
        let mut i: usize = 0;
        while i < len
            invariant
                i <= len,
                len == self.node_seq().len(),
                self.wf(),
                r@ == self.node_seq().take(i as int).map_values(|id: u64| GossipNodeId(id)),
            decreases len - i,
        {
            r.push(GossipNodeId(self.nodes.key_at(i)));
            proof {
                assert(self.node_seq().take(i + 1) == self.node_seq().take(i as int).push(
                    self.node_seq()[i as int],
                ));
            }
            i = i + 1;
        }
        proof {
            assert(self.node_seq().take(i as int) == self.node_seq());
        }
        r
    }

    /// The available node identifiers, in ascending order.
    fn available_ids(&self) -> (r: Vec<u64>)
        requires
            self.wf(),
        ensures
            r@ == available_in(self@, self.node_seq()),
    {
        let len = self.nodes.len();
        let mut r: Vec<u64> = Vec::new();
        let mut i: usize = 0;
        while i < len
            invariant
                i <= len,
                len == self.node_seq().len(),
                self.wf(),
                r@ == available_in(self@, self.node_seq().take(i as int)),
            decreases len - i,
        {
            let id = self.nodes.key_at(i);
            let node = self.nodes.value_at(i);
            proof {
                let ks = self.node_seq();
                assert(ks.take(i + 1).drop_last() == ks.take(i as int));
                assert(self.nodes@.contains_key(ks[i as int]));
            }
            if node.available {
                r.push(id);
            }
            i = i + 1;
        }
        proof {
            assert(self.node_seq().take(i as int) == self.node_seq());
        }
        r
    }

    /// Runs one push round.
    ///
    /// Each available node that knows something sends a snapshot of what it
    /// knew at the start of the round to at most `fanout` available peers,
    /// taken in order after itself and wrapping around. Facts received in
    /// this round are only passed on in the next one. A fanout of zero sends
    /// nothing.
    pub fn run_round(&mut self, fanout: Fanout) -> (report: GossipRoundReport)
        requires
            old(self).wf(),
            sent_total(contacts_of_round(old(self)@, old(self).node_seq(), fanout.0 as nat))
                <= usize::MAX,
        ensures
            final(self).wf(),
            final(self).node_seq() == old(self).node_seq(),
            final(self)@ == after_round(old(self)@, old(self).node_seq(), fanout.0 as nat),
            report.contacts@ == contacts_of_round(old(self)@, old(self).node_seq(), fanout.0 as nat),
            report.messages_sent == report.contacts@.len(),
            report.facts_delivered == fact_total(final(self)@, old(self).node_seq()) - fact_total(
                old(self)@,
                old(self).node_seq(),
            ),
    {
        if fanout.0 == 0 {
            proof {
                let avail = available_in(self@, self.node_seq());
                lemma_round_contacts_without_fanout(self@, avail, avail);
                assert forall|x: u64, f: u64| !received(self@, Seq::<GossipContact>::empty(), x, f) by {}
                assert(after_round(self@, self.node_seq(), 0) =~= self@) by {
                    assert forall|x: u64| #[trigger] self@.contains_key(x) implies after_round(
                        self@,
                        self.node_seq(),
                        0,
                    )[x] == self@[x] by {
                        assert(self@[x].facts.union(
                            Set::new(|f: u64| received(self@, Seq::<GossipContact>::empty(), x, f)),
                        ) =~= self@[x].facts);
                    }
                }
            }
            return GossipRoundReport::default();
        }
        let ghost m = self@;
        let ghost ks = self.node_seq();
        let ghost fan = fanout.0 as nat;
        proof {
            self.lemma_wf();
        }
        let avail = self.available_ids();
        proof {
            lemma_available_in(m, ks);
        }
        let ghost all_contacts = round_contacts(m, avail@, avail@, fan);
        let mut contacts: Vec<GossipContact> = Vec::new();
        let mut deliveries: Vec<(u64, IdSet)> = Vec::new();
        let na = avail.len();
        let mut i: usize = 0;
        while i < na
            invariant
                i <= na,
                na == avail@.len(),
                self.wf(),
                self@ == m,
                self.node_seq() == ks,
                fan == fanout.0,
                fan > 0,
                strictly_increasing(avail@),
                forall|j: int| 0 <= j < avail@.len() ==> m.contains_key(#[trigger] avail@[j]),
                all_contacts == round_contacts(m, avail@, avail@, fan),
                contacts@ == round_contacts(m, avail@, avail@.take(i as int), fan),
                deliveries@.len() == contacts@.len(),
                forall|c: int|
                    0 <= c < contacts@.len() ==> m.contains_key((#[trigger] contacts@[c]).from.0)
                        && contacts@[c].facts_sent == m[contacts@[c].from.0].facts.len(),
                forall|d: int|
                    0 <= d < deliveries@.len() ==> (#[trigger] deliveries@[d]).0 == contacts@[d].to.0
                        && deliveries@[d].1.inv() && deliveries@[d].1@ == m[contacts@[d].from.0].facts
                        && m.contains_key(deliveries@[d].0),
            decreases na - i,
        {
            let from = avail[i];
            proof {
                lemma_round_contacts_push(m, avail@, avail@, i as int, fan);
            }
            let node = self.nodes.get(from).unwrap();
            let nfacts = node.facts.len();
            if nfacts == 0 {
                proof {
                    assert(sender_contacts(m, avail@, from, fan) =~= Seq::<GossipContact>::empty());
                    assert(contacts@ + Seq::<GossipContact>::empty() =~= contacts@);
                }
                i = i + 1;
                continue;
            }
            let peers = peers_of(from, &avail);
            let limit = if fanout.0 <= peers.len() {
                fanout.0
            } else {
                peers.len()
            };
            let ghost c0 = contacts@;
            let ghost sc = sender_contacts(m, avail@, from, fan);
            let mut j: usize = 0;
            while j < limit
                invariant
                    j <= limit,
                    limit <= peers@.len(),
                    limit == sc.len(),
                    peers@ == peers_after(from, avail@),
                    self.wf(),
                    self@ == m,
                    m.contains_key(from),
                    node.facts.inv(),
                    node.facts@ == m[from].facts,
                    nfacts == m[from].facts.len(),
                    nfacts > 0,
                    sc == sender_contacts(m, avail@, from, fan),
                    forall|q: int| 0 <= q < peers@.len() ==> m.contains_key(#[trigger] peers@[q]),
                    contacts@ == c0 + sc.take(j as int),
                    deliveries@.len() == contacts@.len(),
                    forall|c: int|
                        0 <= c < contacts@.len() ==> m.contains_key((#[trigger] contacts@[c]).from.0)
                            && contacts@[c].facts_sent == m[contacts@[c].from.0].facts.len(),
                    forall|d: int|
                        0 <= d < deliveries@.len() ==> (#[trigger] deliveries@[d]).0
                            == contacts@[d].to.0 && deliveries@[d].1.inv() && deliveries@[d].1@
                            == m[contacts@[d].from.0].facts && m.contains_key(deliveries@[d].0),
                decreases limit - j,
            {
                let to = peers[j];
                contacts.push(GossipContact::new(GossipNodeId(from), GossipNodeId(to), nfacts));
                deliveries.push((to, node.facts.duplicate()));
                proof {
                    assert(sc.take(j + 1) == sc.take(j as int).push(sc[j as int]));
                }
                j = j + 1;
            }
            proof {
                assert(sc.take(j as int) == sc);
            }
            i = i + 1;
        }
        proof {
            assert(avail@.take(i as int) == avail@);
        }
        let n_contacts = contacts.len();
        let mut delivered: usize = 0;
        let nd = deliveries.len();
        let mut d: usize = 0;
        while d < nd
            invariant
                d <= nd,
                nd == deliveries@.len(),
                nd == contacts@.len(),
                contacts@ == all_contacts,
                sent_total(all_contacts) <= usize::MAX,
                self.wf(),
                self.node_seq() == ks,
                strictly_increasing(ks),
                forall|x: u64| #[trigger] m.contains_key(x) <==> ks.contains(x),
                forall|x: u64| #[trigger] self@.contains_key(x) <==> m.contains_key(x),
                forall|x: u64| #[trigger]
                    m.contains_key(x) ==> self@[x].available == m[x].available,
                forall|x: u64, f: u64|
                    m.contains_key(x) ==> (#[trigger] self@[x].facts.contains(f) <==> (
                    m[x].facts.contains(f) || exists|e: int|
                        0 <= e < d && #[trigger] deliveries@[e].0 == x && deliveries@[e].1@.contains(f))),
                forall|e: int|
                    0 <= e < deliveries@.len() ==> (#[trigger] deliveries@[e]).0 == contacts@[e].to.0
                        && deliveries@[e].1.inv() && deliveries@[e].1@ == m[contacts@[e].from.0].facts
                        && m.contains_key(deliveries@[e].0),
                forall|c: int| 0 <= c < contacts@.len() ==> (#[trigger] contacts@[c]).facts_sent == m[contacts@[c].from.0].facts.len(),
                delivered == fact_total(self@, ks) - fact_total(m, ks),
                delivered <= sent_total(contacts@.take(d as int)),
            decreases nd - d,
        {
            let to = deliveries[d].0;
            let incoming = &deliveries[d].1;
            let receiver = self.nodes.get(to).unwrap();
            let mut facts = receiver.facts.duplicate();
            let available = receiver.available;
            let ghost base = facts@;
            let ghost cur = self@;
            let nf = incoming.len();
            proof {
                assert(contacts@.take(d + 1).drop_last() == contacts@.take(d as int));
                lemma_sent_total_prefix(contacts@, d + 1);
            }
            let mut k: usize = 0;
            while k < nf
                invariant
                    k <= nf,
                    nf == incoming.elem_seq().len(),
                    incoming.inv(),
                    facts.inv(),
                    base.finite(),
                    forall|f: u64| #[trigger] facts@.contains(f) <==> (base.contains(f)
                        || incoming.elem_seq().take(k as int).contains(f)),
                    facts@.len() >= base.len(),
                    delivered == fact_total(cur, ks) - fact_total(m, ks) + facts@.len() - base.len(),
                    delivered <= sent_total(contacts@.take(d as int)) + k,
                    sent_total(contacts@.take(d as int)) + nf <= usize::MAX,
                decreases nf - k,
            {
                let f = incoming.at(k);
                proof {
                    crate::id_map::lemma_take_push_contains(incoming.elem_seq(), k as int);
                }
                if facts.insert(f) {
                    delivered = delivered + 1;
                }
                k = k + 1;
            }
            proof {
                assert(incoming.elem_seq().take(k as int) == incoming.elem_seq());
                assert forall|f: u64| incoming@.contains(f) <==> incoming.elem_seq().contains(f) by {
                    if incoming.elem_seq().contains(f) {
                        let q = choose|q: int| 0 <= q < incoming.elem_seq().len() && incoming.elem_seq()[q] == f;
                        assert(incoming@.contains(incoming.elem_seq()[q]));
                    }
                }
            }
            let ghost new_node = GossipNodeView { available, facts: facts@ };
            self.nodes.insert(to, GossipNode { available, facts });
            proof {
                assert(self@ =~= cur.insert(to, new_node));
                assert(ks.contains(to));
                lemma_fact_total_update(cur, ks, to, new_node);
                assert(contacts@.take(d + 1).drop_last() == contacts@.take(d as int));
                assert forall|x: u64, f: u64| m.contains_key(x) implies (#[trigger] self@[x].facts.contains(f) <==> (
                    m[x].facts.contains(f) || exists|e: int|
                        0 <= e < d + 1 && #[trigger] deliveries@[e].0 == x && deliveries@[e].1@.contains(f))) by {
                    if x == to {
                        if incoming@.contains(f) {
                            assert(deliveries@[d as int].0 == x && deliveries@[d as int].1@.contains(f));
                        }
                    } else {
                        if exists|e: int| 0 <= e < d + 1 && #[trigger] deliveries@[e].0 == x && deliveries@[e].1@.contains(f) {
                            let e = choose|e: int| 0 <= e < d + 1 && #[trigger] deliveries@[e].0 == x && deliveries@[e].1@.contains(f);
                            assert(e != d);
                        }
                    }
                }
            }
            d = d + 1;
        }
        proof {
            assert(contacts@.take(d as int) == contacts@);
            assert forall|x: u64| #[trigger] m.contains_key(x) implies self@[x].facts == m[x].facts.union(
                Set::new(|f: u64| received(m, all_contacts, x, f)),
            ) by {
                assert forall|f: u64| self@[x].facts.contains(f) <==> m[x].facts.union(
                    Set::new(|f: u64| received(m, all_contacts, x, f)),
                ).contains(f) by {
                    if exists|e: int| 0 <= e < d && #[trigger] deliveries@[e].0 == x && deliveries@[e].1@.contains(f) {
                        let e = choose|e: int| 0 <= e < d && #[trigger] deliveries@[e].0 == x && deliveries@[e].1@.contains(f);
                        assert(all_contacts[e].to.0 == x);
                    }
                    if received(m, all_contacts, x, f) {
                        let e = choose|e: int| 0 <= e < all_contacts.len() && #[trigger] all_contacts[e].to.0 == x && m[all_contacts[e].from.0].facts.contains(f);
                        assert(deliveries@[e].0 == x);
                    }
                }
                assert(self@[x].facts =~= m[x].facts.union(
                    Set::new(|f: u64| received(m, all_contacts, x, f)),
                ));
            }
            assert(self@ =~= after_round(m, ks, fan));
        }
        GossipRoundReport { messages_sent: n_contacts, facts_delivered: delivered, contacts }
    }

    fn first_available(&self) -> (r: Option<usize>)
        requires
            self.wf(),
        ensures
            match r {
                Some(i) => i < self.node_seq().len() && self@[self.node_seq()[i as int]].available
                    && forall|q: int| 0 <= q < i ==> !self@[#[trigger] self.node_seq()[q]].available,
                None => forall|q: int|
                    0 <= q < self.node_seq().len() ==> !self@[#[trigger] self.node_seq()[q]].available,
            },
    {
        let len = self.nodes.len();
        let mut i: usize = 0;
        while i < len
            invariant
                i <= len,
                len == self.node_seq().len(),
                self.wf(),
                forall|q: int| 0 <= q < i ==> !self@[#[trigger] self.node_seq()[q]].available,
            decreases len - i,
        {
            proof {
                assert(self.nodes@.contains_key(self.nodes.key_seq()[i as int]));
            }
            if self.nodes.value_at(i).available {
                return Some(i);
            }
            i = i + 1;
        }
        None
    }

    /// Whether all available nodes know exactly the same facts.
    pub fn available_nodes_converged(&self) -> (b: bool)
        requires
            self.wf(),
        ensures
            b == forall|x: u64, y: u64|
                #![trigger self@[x].facts, self@[y].facts]
                self@.contains_key(x) && self@[x].available && self@.contains_key(y) && self@[y].available
                    ==> self@[x].facts == self@[y].facts,
    {
        let len = self.nodes.len();
        proof {
            self.lemma_wf();
        }
        let first = match self.first_available() {
            Some(i) => i,
            None => {
                proof {
                    assert forall|x: u64| #[trigger] self@.contains_key(x) implies !self@[x].available by {
                        let q = choose|q: int| 0 <= q < self.node_seq().len() && self.node_seq()[q] == x;
                        assert(!self@[self.node_seq()[q]].available);
                    }
                }
                return true;
            },
        };
        let reference = self.nodes.value_at(first);
        let ghost r = self.node_seq()[first as int];
        proof {
            assert(self.nodes@.contains_key(r));
            assert(self@[r].available);
        }
        let mut i: usize = first + 1;
        while i < len
            invariant
                first < i <= len,
                len == self.node_seq().len(),
                self.wf(),
                r == self.node_seq()[first as int],
                self.nodes@.contains_key(r),
                *reference == self.nodes@[r],
                self@[r].available,
                forall|q: int| 0 <= q < first ==> !self@[#[trigger] self.node_seq()[q]].available,
                forall|q: int|
                    first <= q < i && #[trigger] self@[self.node_seq()[q]].available ==> self@[self.node_seq()[q]].facts == self@[r].facts,
            decreases len - i,
        {
            let node = self.nodes.value_at(i);
            proof {
                assert(self.nodes@.contains_key(self.nodes.key_seq()[i as int]));
            }
            if node.available && !node.facts.same_members(&reference.facts) {
                proof {
                    let y = self.node_seq()[i as int];
                    assert(self@[y].facts != self@[r].facts);
                    assert(self@.contains_key(y) && self@[y].available);
                }
                return false;
            }
            i = i + 1;
        }
        proof {
            assert forall|x: u64, y: u64|
                self@.contains_key(x) && self@[x].available && self@.contains_key(y) && self@[y].available
                    implies #[trigger] self@[x].facts == #[trigger] self@[y].facts by {
                let qx = choose|q: int| 0 <= q < self.node_seq().len() && self.node_seq()[q] == x;
                let qy = choose|q: int| 0 <= q < self.node_seq().len() && self.node_seq()[q] == y;
                assert(self@[self.node_seq()[qx]].available);
                assert(self@[self.node_seq()[qy]].available);
            }
        }
        true
    }
}

} // verus!
