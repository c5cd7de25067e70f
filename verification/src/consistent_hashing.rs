//! Consistent hashing on an ordered logical ring.
//!
//! A key belongs to the first node at or after its position on the ring,
//! wrapping around to the first node when it falls past the last one. Nodes
//! sharing a position are ordered by identity, and the lowest identity wins.

use vstd::prelude::*;
use crate::id_map::{IdMap, IdSet};

verus! {

/// Stable identifier of a ring node.
#[derive(Clone, Copy, Debug, PartialEq, Eq, PartialOrd, Ord, Hash)]
pub struct NodeId(pub u64);

/// Logical key to place on a node.
#[derive(Clone, Copy, Debug, PartialEq, Eq, PartialOrd, Ord, Hash)]
pub struct Key(pub u64);

impl Key {
    fn slot(self) -> (s: HashSlot)
        ensures
            s.0 == self.0,
    {
        HashSlot(self.0)
    }
}

/// Deterministic position on the logical ring.
#[derive(Clone, Copy, Debug, PartialEq, Eq, PartialOrd, Ord, Hash)]
pub struct HashSlot(pub u64);

/// A node placed at a position of the ring.
#[derive(Clone, Copy, Debug, PartialEq, Eq)]
pub struct RingNode {
    /// Stable identity of the node.
    pub id: NodeId,
    /// Position of the node on the ring.
    pub slot: HashSlot,
}

impl RingNode {
    /// A ring node.
    pub fn new(id: NodeId, slot: HashSlot) -> (n: Self)
        ensures
            n.id == id,
            n.slot == slot,
    {
        RingNode { id, slot }
    }
}

/// Observable change of owner for a key.
#[derive(Clone, Copy, Debug, PartialEq, Eq)]
pub struct KeyMovement {
    /// The key evaluated.
    pub key: Key,
    /// Owner before the change.
    pub from: Option<NodeId>,
    /// Owner after the change.
    pub to: Option<NodeId>,
}

impl KeyMovement {
    /// A key movement.
    pub fn new(key: Key, from: Option<NodeId>, to: Option<NodeId>) -> (m: Self)
        ensures
            m.key == key,
            m.from == from,
            m.to == to,
    {
        KeyMovement { key, from, to }
    }
}

/// Some node of ring `m` (identity to position) sits at position `s`.
pub open spec fn slot_used(m: Map<u64, u64>, s: u64) -> bool {
    exists|id: u64| #[trigger] m.contains_key(id) && m[id] == s
}

/// `s` is the position that serves key position `k`: the first used
/// position at or after `k`, or, when there is none, the first used one.
pub open spec fn serving_slot(m: Map<u64, u64>, k: u64, s: u64) -> bool {
    &&& slot_used(m, s)
    &&& {
        ||| (k <= s && forall|id: u64| #[trigger] m.contains_key(id) && k <= m[id] ==> s <= m[id])
        ||| ((forall|id: u64| #[trigger] m.contains_key(id) ==> m[id] < k) && forall|id: u64|
            #[trigger] m.contains_key(id) ==> s <= m[id])
    }
}

/// `id` owns key position `k`: it is the lowest identity at the serving
/// position.
pub open spec fn is_owner(m: Map<u64, u64>, k: u64, id: u64) -> bool {
    &&& m.contains_key(id)
    &&& serving_slot(m, k, m[id])
    &&& forall|other: u64| #[trigger] m.contains_key(other) && m[other] == m[id] ==> id <= other
}

/// The owner of key position `k` in ring `m`, if the ring has nodes.
pub open spec fn owner_of(m: Map<u64, u64>, k: u64) -> Option<u64> {
    if exists|id: u64| is_owner(m, k, id) {
        Some(choose|id: u64| is_owner(m, k, id))
    } else {
        None
    }
}

/// The order in which the ring lists its nodes: by position, then identity.
pub open spec fn ring_before(a: RingNode, b: RingNode) -> bool {
    a.slot.0 < b.slot.0 || (a.slot.0 == b.slot.0 && a.id.0 < b.id.0)
}

/// `r` lists every node of ring `m` exactly once, in ring order.
pub open spec fn lists_ring(m: Map<u64, u64>, r: Seq<RingNode>) -> bool {
    &&& forall|i: int, j: int| 0 <= i < j < r.len() ==> ring_before(r[i], r[j])
    &&& forall|i: int|
        0 <= i < r.len() ==> m.contains_key(#[trigger] r[i].id.0) && m[r[i].id.0] == r[i].slot.0
    &&& forall|id: u64| #[trigger]
        m.contains_key(id) ==> exists|i: int| 0 <= i < r.len() && r[i].id.0 == id
}

/// Owner of `key` as an identifier.
pub open spec fn owner_node(m: Map<u64, u64>, key: Key) -> Option<NodeId> {
    match owner_of(m, key.0) {
        Some(id) => Some(NodeId(id)),
        None => None,
    }
}

/// The keys of `keys` whose owner differs between the two rings, in order.
pub open spec fn movements(before: Map<u64, u64>, after: Map<u64, u64>, keys: Seq<Key>) -> Seq<
    KeyMovement,
>
    decreases keys.len(),
{
    if keys.len() == 0 {
        Seq::empty()
    } else {
        let rest = movements(before, after, keys.drop_last());
        let k = keys.last();
        if owner_node(before, k) != owner_node(after, k) {
            rest.push(KeyMovement { key: k, from: owner_node(before, k), to: owner_node(after, k) })
        } else {
            rest
        }
    }
}

/// The owner of a key is unique.
pub proof fn lemma_owner_unique(m: Map<u64, u64>, k: u64, a: u64, b: u64)
    requires
        is_owner(m, k, a),
        is_owner(m, k, b),
    ensures
        a == b,
{
    assert(m[a] == m[b]) by {
        if m[a] < m[b] {
            assert(m.contains_key(a));
        } else if m[b] < m[a] {
            assert(m.contains_key(b));
        }
    }
}

/// A ring with nodes gives every key an owner; an empty ring gives none.
pub proof fn lemma_owner_of(m: Map<u64, u64>, k: u64, id: u64)
    requires
        is_owner(m, k, id),
    ensures
        owner_of(m, k) == Some(id),
{
    let c = choose|x: u64| is_owner(m, k, x);
    lemma_owner_unique(m, k, c, id);
}

fn same_owner(a: Option<NodeId>, b: Option<NodeId>) -> (r: bool)
    ensures
        r == (a == b),
{
    match (a, b) {
        (Some(x), Some(y)) => x.0 == y.0,
        (None, None) => true,
        _ => false,
    }
}

/// An owner in a ring stays the owner in any smaller ring that keeps it.
pub proof fn lemma_owner_in_smaller_ring(big: Map<u64, u64>, small: Map<u64, u64>, k: u64, a: u64)
    requires
        is_owner(big, k, a),
        small.contains_key(a),
        forall|id: u64| #[trigger] small.contains_key(id) ==> big.contains_key(id) && small[id] == big[id],
    ensures
        is_owner(small, k, a),
{
    assert(small.contains_key(a) && small[a] == big[a]);
}

/// Adding a node moves keys only onto that node: every other owner in the
/// larger ring already owned the key before.
pub proof fn lemma_adding_node_moves_keys_only_to_it(m: Map<u64, u64>, n: u64, s: u64, k: u64)
    requires
        !m.contains_key(n),
    ensures
        owner_of(m.insert(n, s), k) matches Some(b) ==> b == n || owner_of(m, k) == Some(b),
{
    let after = m.insert(n, s);
    if let Some(b) = owner_of(after, k) {
        if b != n {
            assert(is_owner(after, k, b));
            lemma_owner_in_smaller_ring(after, m, k, b);
            lemma_owner_of(m, k, b);
        }
    }
}

/// Removing a node moves only the keys that node owned.
pub proof fn lemma_removing_node_moves_only_its_keys(m: Map<u64, u64>, n: u64, k: u64)
    ensures
        owner_of(m, k) matches Some(a) ==> a == n || owner_of(m.remove(n), k) == Some(a),
{
    if let Some(a) = owner_of(m, k) {
        if a != n {
            assert(is_owner(m, k, a));
            lemma_owner_in_smaller_ring(m, m.remove(n), k, a);
            lemma_owner_of(m.remove(n), k, a);
        }
    }
}

proof fn lemma_ring_order_unique(a: Seq<RingNode>, b: Seq<RingNode>)
    requires
        forall|i: int, j: int| 0 <= i < j < a.len() ==> ring_before(a[i], a[j]),
        forall|i: int, j: int| 0 <= i < j < b.len() ==> ring_before(b[i], b[j]),
        forall|x: RingNode| a.contains(x) <==> b.contains(x),
    ensures
        a == b,
    decreases a.len(),
{
    if a.len() == 0 {
        if b.len() > 0 {
            assert(b.contains(b[0]));
        }
        assert(a =~= b);
    } else {
        assert(a.contains(a[0]));
        assert(b.len() > 0);
        assert(b.contains(b[0]));
        let j = choose|j: int| 0 <= j < b.len() && b[j] == a[0];
        let i = choose|i: int| 0 <= i < a.len() && a[i] == b[0];
        if j > 0 {
            assert(ring_before(b[0], b[j]));
            if i > 0 {
                assert(ring_before(a[0], a[i]));
            }
            assert(false);
        }
        let ta = a.drop_first();
        let tb = b.drop_first();
        assert forall|x: RingNode| ta.contains(x) <==> tb.contains(x) by {
            if ta.contains(x) {
                let p = choose|p: int| 0 <= p < ta.len() && ta[p] == x;
                assert(a[p + 1] == x);
                assert(ring_before(a[0], a[p + 1]));
                assert(b.contains(x));
                let q = choose|q: int| 0 <= q < b.len() && b[q] == x;
                assert(q != 0);
                assert(tb[q - 1] == x);
            }
            if tb.contains(x) {
                let p = choose|p: int| 0 <= p < tb.len() && tb[p] == x;
                assert(b[p + 1] == x);
                assert(ring_before(b[0], b[p + 1]));
                assert(a.contains(x));
                let q = choose|q: int| 0 <= q < a.len() && a[q] == x;
                assert(q != 0);
                assert(ta[q - 1] == x);
            }
        }
        lemma_ring_order_unique(ta, tb);
        assert(a.len() == b.len());
        assert forall|p: int| 0 <= p < a.len() implies a[p] == b[p] by {
            if p > 0 {
                assert(ta[p - 1] == tb[p - 1]);
            }
        }
        assert(a =~= b);
    }
}

/// The listing of a ring depends only on which nodes sit where, not on the
/// order in which they were inserted: two listings of the same ring agree.
pub proof fn lemma_listing_is_unique(m: Map<u64, u64>, r1: Seq<RingNode>, r2: Seq<RingNode>)
    requires
        lists_ring(m, r1),
        lists_ring(m, r2),
    ensures
        r1 == r2,
{
    assert forall|x: RingNode| r1.contains(x) <==> r2.contains(x) by {
        if r1.contains(x) {
            let p = choose|p: int| 0 <= p < r1.len() && r1[p] == x;
            assert(m.contains_key(r1[p].id.0));
            let q = choose|q: int| 0 <= q < r2.len() && r2[q].id.0 == x.id.0;
            assert(r2[q].slot.0 == x.slot.0);
            assert(r2[q] == x);
        }
        if r2.contains(x) {
            let p = choose|p: int| 0 <= p < r2.len() && r2[p] == x;
            assert(m.contains_key(r2[p].id.0));
            let q = choose|q: int| 0 <= q < r1.len() && r1[q].id.0 == x.id.0;
            assert(r1[q].slot.0 == x.slot.0);
            assert(r1[q] == x);
        }
    }
    lemma_ring_order_unique(r1, r2);
}

/// `x` comes before `y` in ring order on `m`: by position, then identity.
pub open spec fn placed_before(m: Map<u64, u64>, x: u64, y: u64) -> bool {
    m[x] < m[y] || (m[x] == m[y] && x <= y)
}

proof fn lemma_first_placed(m: Map<u64, u64>, s: Set<u64>)
    requires
        s.finite(),
        s.len() > 0,
    ensures
        exists|x: u64| #[trigger] s.contains(x) && forall|y: u64| #[trigger] s.contains(y) ==> placed_before(m, x, y),
    decreases s.len(),
{
    let a = s.choose();
    assert(s.contains(a));
    let rest = s.remove(a);
    if rest.len() == 0 {
        assert forall|y: u64| #[trigger] s.contains(y) implies placed_before(m, a, y) by {
            if y != a {
                assert(rest.contains(y));
            }
        }
    } else {
        lemma_first_placed(m, rest);
        let b = choose|x: u64| #[trigger] rest.contains(x) && forall|y: u64| #[trigger] rest.contains(y) ==> placed_before(m, x, y);
        if placed_before(m, a, b) {
            assert forall|y: u64| #[trigger] s.contains(y) implies placed_before(m, a, y) by {
                if y != a {
                    assert(rest.contains(y));
                }
            }
        } else {
            assert forall|y: u64| #[trigger] s.contains(y) implies placed_before(m, b, y) by {
                if y != a {
                    assert(rest.contains(y));
                }
            }
        }
    }
}

/// A ring with at least one node gives every key an owner.
pub proof fn lemma_nonempty_ring_has_owner(m: Map<u64, u64>, k: u64, id: u64)
    requires
        m.dom().finite(),
        m.contains_key(id),
    ensures
        owner_of(m, k) is Some,
{
    let above = m.dom().intersect(Set::new(|x: u64| k <= m[x]));
    if above.len() > 0 {
        lemma_first_placed(m, above);
        let x = choose|x: u64| #[trigger] above.contains(x) && forall|y: u64| #[trigger] above.contains(y) ==> placed_before(m, x, y);
        assert forall|y: u64| #[trigger] m.contains_key(y) && k <= m[x] && k <= m[y] implies m[x] <= m[y] by {
            assert(above.contains(y));
        }
        assert forall|other: u64| #[trigger] m.contains_key(other) && m[other] == m[x] implies x <= other by {
            assert(above.contains(other));
        }
        assert(slot_used(m, m[x]));
        assert(is_owner(m, k, x));
    } else {
        assert(m.dom().len() > 0) by {
            assert(m.dom().contains(id));
        }
        lemma_first_placed(m, m.dom());
        let x = choose|x: u64| #[trigger] m.dom().contains(x) && forall|y: u64| #[trigger] m.dom().contains(y) ==> placed_before(m, x, y);
        assert forall|y: u64| #[trigger] m.contains_key(y) implies m[y] < k by {
            if k <= m[y] {
                assert(above.contains(y));
            }
        }
        assert forall|y: u64| #[trigger] m.contains_key(y) implies m[x] <= m[y] by {
            assert(m.dom().contains(y));
        }
        assert forall|other: u64| #[trigger] m.contains_key(other) && m[other] == m[x] implies x <= other by {
            assert(m.dom().contains(other));
        }
        assert(slot_used(m, m[x]));
        assert(is_owner(m, k, x));
    }
}

/// Law of placing a node on a finite ring: the node sits at its position,
/// every other node keeps its own, every key still has an owner, and when
/// the identity is new, keys move only onto it and removing it again gives
/// back the former ring.
pub proof fn lemma_insert_node_law(m: Map<u64, u64>, node: RingNode, k: u64)
    requires
        m.dom().finite(),
    ensures
        m.insert(node.id.0, node.slot.0).contains_key(node.id.0),
        m.insert(node.id.0, node.slot.0)[node.id.0] == node.slot.0,
        forall|id: u64|
            id != node.id.0 ==> (#[trigger] m.insert(node.id.0, node.slot.0).contains_key(id)
                <==> m.contains_key(id)),
        forall|id: u64|
            id != node.id.0 && #[trigger] m.contains_key(id) ==> m.insert(node.id.0, node.slot.0)[id]
                == m[id],
        owner_of(m.insert(node.id.0, node.slot.0), k) is Some,
        !m.contains_key(node.id.0) && owner_of(m.insert(node.id.0, node.slot.0), k) != owner_of(m, k)
            ==> owner_of(m.insert(node.id.0, node.slot.0), k) == Some(node.id.0),
        !m.contains_key(node.id.0) ==> m.insert(node.id.0, node.slot.0).remove(node.id.0) == m,
{
    let after = m.insert(node.id.0, node.slot.0);
    lemma_nonempty_ring_has_owner(after, k, node.id.0);
    if !m.contains_key(node.id.0) {
        lemma_adding_node_moves_keys_only_to_it(m, node.id.0, node.slot.0, k);
        assert(after.remove(node.id.0) =~= m);
    }
}

/// A listing of a ring names each of its nodes exactly once, at its
/// position.
pub proof fn lemma_listing_names_each_node_once(m: Map<u64, u64>, r: Seq<RingNode>, id: u64)
    requires
        lists_ring(m, r),
        m.contains_key(id),
    ensures
        exists|i: int| 0 <= i < r.len() && #[trigger] r[i] == (RingNode { id: NodeId(id), slot: HashSlot(m[id]) }),
        forall|i: int, j: int|
            0 <= i < r.len() && 0 <= j < r.len() && #[trigger] r[i].id.0 == id && #[trigger] r[j].id.0 == id
                ==> i == j,
{
    let i = choose|i: int| 0 <= i < r.len() && r[i].id.0 == id;
    assert(m.contains_key(r[i].id.0));
    assert(r[i] == (RingNode { id: NodeId(id), slot: HashSlot(m[id]) }));
    assert forall|i: int, j: int|
        0 <= i < r.len() && 0 <= j < r.len() && #[trigger] r[i].id.0 == id && #[trigger] r[j].id.0 == id
            implies i == j by {
        assert(m.contains_key(r[i].id.0) && m.contains_key(r[j].id.0));
        if i < j {
            assert(ring_before(r[i], r[j]));
        } else if j < i {
            assert(ring_before(r[j], r[i]));
        }
    }
}

/// The ring that inserting the nodes in order into an empty ring gives.
pub open spec fn built_from(nodes: Seq<RingNode>) -> Map<u64, u64>
    decreases nodes.len(),
{
    if nodes.len() == 0 {
        Map::empty()
    } else {
        built_from(nodes.drop_last()).insert(nodes.last().id.0, nodes.last().slot.0)
    }
}

/// No identity occurs twice among the nodes.
pub open spec fn distinct_ids(nodes: Seq<RingNode>) -> bool {
    forall|i: int, j: int| 0 <= i < j < nodes.len() ==> nodes[i].id != nodes[j].id
}

proof fn lemma_built_from_distinct(nodes: Seq<RingNode>)
    requires
        distinct_ids(nodes),
    ensures
        forall|id: u64| #[trigger] built_from(nodes).contains_key(id) <==> exists|i: int|
            0 <= i < nodes.len() && nodes[i].id.0 == id,
        forall|i: int| 0 <= i < nodes.len() ==> built_from(nodes)[(#[trigger] nodes[i]).id.0] == nodes[i].slot.0,
    decreases nodes.len(),
{
    if nodes.len() > 0 {
        let rest = nodes.drop_last();
        assert forall|i: int, j: int| 0 <= i < j < rest.len() implies rest[i].id != rest[j].id by {
            assert(rest[i] == nodes[i] && rest[j] == nodes[j]);
        }
        lemma_built_from_distinct(rest);
        let last = nodes.last();
        assert forall|id: u64| #[trigger] built_from(nodes).contains_key(id) <==> exists|i: int|
            0 <= i < nodes.len() && nodes[i].id.0 == id by {
            assert(built_from(nodes) == built_from(rest).insert(last.id.0, last.slot.0));
            assert(built_from(nodes).contains_key(id) <==> (id == last.id.0 || built_from(rest).contains_key(id)));
            if id == last.id.0 {
                assert(nodes[nodes.len() - 1].id.0 == id);
            }
            if exists|i: int| 0 <= i < rest.len() && rest[i].id.0 == id {
                let i = choose|i: int| 0 <= i < rest.len() && rest[i].id.0 == id;
                assert(nodes[i].id.0 == id);
            }
            if exists|i: int| 0 <= i < nodes.len() && nodes[i].id.0 == id {
                let i = choose|i: int| 0 <= i < nodes.len() && nodes[i].id.0 == id;
                if i < nodes.len() - 1 {
                    assert(rest[i].id.0 == id);
                }
            }
        }
        assert forall|i: int| 0 <= i < nodes.len() implies built_from(nodes)[(#[trigger] nodes[i]).id.0]
            == nodes[i].slot.0 by {
            if i < nodes.len() - 1 {
                assert(rest[i] == nodes[i]);
                assert(nodes[i].id != nodes[nodes.len() - 1].id);
            }
        }
    }
}

/// Law: a ring built from nodes with distinct identities does not depend
/// on the order of insertion: any reordering of the same nodes builds the
/// same ring, hence the same listing and the same owner for every key.
pub proof fn lemma_build_order_independent(a: Seq<RingNode>, b: Seq<RingNode>)
    requires
        distinct_ids(a),
        distinct_ids(b),
        forall|x: RingNode| a.contains(x) <==> b.contains(x),
    ensures
        built_from(a) == built_from(b),
{
    lemma_built_from_distinct(a);
    lemma_built_from_distinct(b);
    assert forall|id: u64| #[trigger] built_from(a).contains_key(id) <==> built_from(b).contains_key(id) by {
        if built_from(a).contains_key(id) {
            let i = choose|i: int| 0 <= i < a.len() && a[i].id.0 == id;
            assert(a.contains(a[i]));
            let j = choose|j: int| 0 <= j < b.len() && b[j] == a[i];
            assert(b[j].id.0 == id);
        }
        if built_from(b).contains_key(id) {
            let i = choose|i: int| 0 <= i < b.len() && b[i].id.0 == id;
            assert(b.contains(b[i]));
            let j = choose|j: int| 0 <= j < a.len() && a[j] == b[i];
            assert(a[j].id.0 == id);
        }
    }
    assert forall|id: u64| #[trigger] built_from(a).contains_key(id) implies built_from(a)[id] == built_from(b)[id] by {
        let i = choose|i: int| 0 <= i < a.len() && a[i].id.0 == id;
        assert(a.contains(a[i]));
        let j = choose|j: int| 0 <= j < b.len() && b[j] == a[i];
        assert(built_from(a)[a[i].id.0] == a[i].slot.0);
        assert(built_from(b)[b[j].id.0] == b[j].slot.0);
    }
    assert(built_from(a) =~= built_from(b));
}

/// Deterministic ring assigning keys to nodes.
#[derive(Clone, Debug, PartialEq, Eq)]
pub struct ConsistentHashRing {
    ids: IdMap<u64>,
    slots: IdMap<IdSet>,
}

impl View for ConsistentHashRing {
    type V = Map<u64, u64>;

    /// Each node's identity, mapped to its position.
    closed spec fn view(&self) -> Map<u64, u64> {
        self.ids@
    }
}

impl Default for ConsistentHashRing {
    fn default() -> (r: Self)
        ensures
            r.wf(),
            r@ == Map::<u64, u64>::empty(),
    {
        Self::new()
    }
}

impl ConsistentHashRing {
    /// Positions and their node sets agree with the identity map.
    pub closed spec fn wf(&self) -> bool {
        &&& self.ids.inv()
        &&& self.slots.inv()
        &&& forall|s: u64|
            #[trigger] self.slots@.contains_key(s) ==> self.slots@[s].inv() && self.slots@[s]@.len()
                > 0
        &&& forall|s: u64, id: u64|
            #[trigger] self.slots@.contains_key(s) && #[trigger] self.slots@[s]@.contains(id)
                ==> self.ids@.contains_key(id) && self.ids@[id] == s
        &&& forall|id: u64|
            #[trigger] self.ids@.contains_key(id) ==> self.slots@.contains_key(self.ids@[id])
                && self.slots@[self.ids@[id]]@.contains(id)
    }

    /// An empty ring.
    pub fn new() -> (r: Self)
        ensures
            r.wf(),
            r@ == Map::<u64, u64>::empty(),
    {
        ConsistentHashRing { ids: IdMap::new(), slots: IdMap::new() }
    }

    /// A ring built by inserting the nodes in order.
    pub fn from_nodes(nodes: &[RingNode]) -> (r: Self)
        ensures
            r.wf(),
            forall|id: u64| #[trigger] r@.contains_key(id) <==> exists|i: int|
                0 <= i < nodes@.len() && nodes@[i].id.0 == id,
            forall|i: int|
                0 <= i < nodes@.len() && (forall|j: int| i < j < nodes@.len() ==> nodes@[j].id
                    != nodes@[i].id) ==> r@[nodes@[i].id.0] == nodes@[i].slot.0,
            r@ == built_from(nodes@),
    {
        let mut ring = Self::new();
        let mut i: usize = 0;
        while i < nodes.len()
            invariant
                i <= nodes@.len(),
                ring.wf(),
                forall|id: u64| #[trigger] ring@.contains_key(id) <==> exists|p: int|
                    0 <= p < i && nodes@[p].id.0 == id,
                forall|p: int|
                    0 <= p < i && (forall|j: int| p < j < i ==> nodes@[j].id != nodes@[p].id)
                        ==> ring@[nodes@[p].id.0] == nodes@[p].slot.0,
                ring@ == built_from(nodes@.take(i as int)),
            decreases nodes@.len() - i,
        {
            let ghost before = ring@;
            ring.insert_node(nodes[i]);
            proof {
                assert(nodes@.take(i + 1).drop_last() == nodes@.take(i as int));
                assert forall|id: u64| #[trigger] ring@.contains_key(id) <==> exists|p: int|
                    0 <= p < i + 1 && nodes@[p].id.0 == id by {
                    if id == nodes@[i as int].id.0 {
                        assert(nodes@[i as int].id.0 == id);
                    } else if before.contains_key(id) {
                        let p = choose|p: int| 0 <= p < i && nodes@[p].id.0 == id;
                        assert(0 <= p < i + 1 && nodes@[p].id.0 == id);
                    }
                }
                assert forall|p: int|
                    0 <= p < i + 1 && (forall|j: int| p < j < i + 1 ==> nodes@[j].id
                        != nodes@[p].id) implies ring@[nodes@[p].id.0] == nodes@[p].slot.0 by {
                    if p < i {
                        assert(nodes@[i as int].id != nodes@[p].id);
                        assert(nodes@[i as int].id.0 != nodes@[p].id.0);
                    }
                }
            }
            i = i + 1;
        }
        proof {
            assert(nodes@.take(i as int) == nodes@);
        }
        ring
    }

    /// Places a node, moving it if its identity was already on the ring, so
    /// that each identity appears once.
    pub fn insert_node(&mut self, node: RingNode)
        requires
            old(self).wf(),
        ensures
            final(self).wf(),
            final(self)@ == old(self)@.insert(node.id.0, node.slot.0),
    {
        self.remove_node(node.id);
        let ghost mid = self@;
        let ghost mid_slots = self.slots@;
        self.ids.insert(node.id.0, node.slot.0);
        let mut members = match self.slots.remove(node.slot.0) {
            Some(set) => set,
            None => IdSet::new(),
        };
        members.insert(node.id.0);
        self.slots.insert(node.slot.0, members);
        proof {
            assert forall|s: u64, id: u64|
                #[trigger] self.slots@.contains_key(s) && #[trigger] self.slots@[s]@.contains(id)
                    implies self.ids@.contains_key(id) && self.ids@[id] == s by {
                if s != node.slot.0 || id != node.id.0 {
                    assert(mid_slots.contains_key(s) && mid_slots[s]@.contains(id));
                }
            }
            assert forall|id: u64| #[trigger] self.ids@.contains_key(id) implies self.slots@.contains_key(
                self.ids@[id],
            ) && self.slots@[self.ids@[id]]@.contains(id) by {
                if id != node.id.0 {
                    assert(mid.contains_key(id));
                }
            }
        }
    }

    /// Removes a node by identity and hands back its former placement.
    pub fn remove_node(&mut self, id: NodeId) -> (r: Option<RingNode>)
        requires
            old(self).wf(),
        ensures
            final(self).wf(),
            final(self)@ == old(self)@.remove(id.0),
            match r {
                Some(n) => old(self)@.contains_key(id.0) && n.id == id && n.slot.0 == old(
                    self,
                )@[id.0],
                None => !old(self)@.contains_key(id.0),
            },
    {
        let ghost old_ids = self.ids@;
        let ghost old_slots = self.slots@;
        let slot = match self.ids.remove(id.0) {
            Some(s) => s,
            None => {
                return None;
            },
        };
        proof {
            assert(old_ids.contains_key(id.0));
            assert(old_slots.contains_key(slot) && old_slots[slot]@.contains(id.0));
        }
        let mut members = self.slots.remove(slot).unwrap();
        members.remove(id.0);
        if members.len() > 0 {
            self.slots.insert(slot, members);
        }
        proof {
            assert forall|s: u64, x: u64|
                #[trigger] self.slots@.contains_key(s) && #[trigger] self.slots@[s]@.contains(x)
                    implies self.ids@.contains_key(x) && self.ids@[x] == s by {
                assert(old_slots.contains_key(s) && old_slots[s]@.contains(x));
            }
            assert forall|x: u64| #[trigger] self.ids@.contains_key(x) implies self.slots@.contains_key(
                self.ids@[x],
            ) && self.slots@[self.ids@[x]]@.contains(x) by {
                assert(old_ids.contains_key(x));
            }
        }
        Some(RingNode::new(id, HashSlot(slot)))
    }

    /// The owner of a key: the lowest identity at the first position at or
    /// after the key's position, wrapping around to the first position.
    pub fn owner(&self, key: Key) -> (r: Option<NodeId>)
        requires
            self.wf(),
        ensures
            r == owner_node(self@, key),
    {
        let slot = key.slot();
        let n = self.slots.len();
        let i = self.slots.lower_bound(slot.0);
        let idx = if i < n {
            i
        } else if n > 0 {
            0
        } else {
            proof {
                assert forall|x: u64| !is_owner(self@, key.0, x) by {
                    if self.ids@.contains_key(x) {
                        assert(self.slots@.contains_key(self.ids@[x]));
                    }
                }
            }
            return None;
        };
        let members = self.slots.value_at(idx);
        let ghost s = self.slots.key_seq()[idx as int];
        proof {
            assert(self.slots@.contains_key(s));
        }
        let owner = members.at(0);
        proof {
            let ks = self.slots.key_seq();
            assert(members@.contains(owner));
            assert(self.slots@[s]@.contains(owner));
            assert(self@.contains_key(owner) && self@[owner] == s);
            assert forall|x: u64| #[trigger] self@.contains_key(x) implies self.slots@.contains_key(
                self@[x],
            ) by {
                assert(self.ids@.contains_key(x));
            }
            if i < n {
                assert forall|x: u64| #[trigger] self@.contains_key(x) && key.0 <= self@[x] implies s
                    <= self@[x] by {
                    let p = choose|p: int| 0 <= p < ks.len() && ks[p] == self@[x];
                    if p < i {
                        assert(ks[p] < key.0);
                    }
                    if p > i {
                        assert(ks[i as int] < ks[p]);
                    }
                }
            } else {
                assert forall|x: u64| #[trigger] self@.contains_key(x) implies self@[x] < key.0
                    && s <= self@[x] by {
                    let p = choose|p: int| 0 <= p < ks.len() && ks[p] == self@[x];
                    if p > 0 {
                        assert(ks[0] < ks[p]);
                    }
                }
            }
            assert forall|other: u64| #[trigger] self@.contains_key(other) && self@[other]
                == self@[owner] implies owner <= other by {
                assert(members@.contains(other));
                let es = members.elem_seq();
                let p = choose|p: int| 0 <= p < es.len() && es[p] == other;
                if p > 0 {
                    assert(es[0] < es[p]);
                }
            }
            assert(is_owner(self@, key.0, owner));
            lemma_owner_of(self@, key.0, owner);
        }
        Some(NodeId(owner))
    }

    /// The nodes ordered by position, then by identity.
    pub fn nodes(&self) -> (r: Vec<RingNode>)
        requires
            self.wf(),
        ensures
            lists_ring(self@, r@),
    {
        let mut r: Vec<RingNode> = Vec::new();
        let n = self.slots.len();
        let ghost ks = self.slots.key_seq();
        let mut i: usize = 0;
        while i < n
            invariant
                i <= n,
                n == ks.len(),
                ks == self.slots.key_seq(),
                self.wf(),
                forall|a: int, b: int| 0 <= a < b < r@.len() ==> ring_before(r@[a], r@[b]),
                forall|a: int|
                    0 <= a < r@.len() ==> self@.contains_key(#[trigger] r@[a].id.0)
                        && self@[r@[a].id.0] == r@[a].slot.0,
                forall|a: int| 0 <= a < r@.len() ==> ks.take(i as int).contains(#[trigger] r@[a].slot.0),
                i < n && r@.len() > 0 ==> r@.last().slot.0 < ks[i as int],
                forall|id: u64|
                    #[trigger] self@.contains_key(id) && ks.take(i as int).contains(self@[id])
                        ==> exists|a: int| 0 <= a < r@.len() && r@[a].id.0 == id,
            decreases n - i,
        {
            let slot = self.slots.key_at(i);
            let members = self.slots.value_at(i);
            proof {
                assert(self.slots@.contains_key(slot));
                crate::id_map::lemma_take_push_contains(ks, i as int);
            }
            let m = members.len();
            let ghost es = members.elem_seq();
            let ghost r0 = r@;
            let mut j: usize = 0;
            while j < m
                invariant
                    j <= m,
                    m == es.len(),
                    es == members.elem_seq(),
                    members.inv(),
                    self.wf(),
                    i < n,
                    ks == self.slots.key_seq(),
                    slot == ks[i as int],
                    self.slots@.contains_key(slot),
                    *members == self.slots@[slot],
                    r@.len() == r0.len() + j,
                    r@.subrange(0, r0.len() as int) == r0,
                    forall|a: int, b: int| 0 <= a < b < r@.len() ==> ring_before(r@[a], r@[b]),
                    forall|a: int|
                        0 <= a < r@.len() ==> self@.contains_key(#[trigger] r@[a].id.0)
                            && self@[r@[a].id.0] == r@[a].slot.0,
                    forall|a: int| 0 <= a < r0.len() ==> #[trigger] r@[a] == r0[a],
                    forall|a: int|
                        r0.len() <= a < r@.len() ==> #[trigger] r@[a].slot.0 == slot && r@[a].id.0
                            == es[a - r0.len()],
                    j < m && r@.len() > 0 ==> ring_before(
                        r@.last(),
                        RingNode { id: NodeId(es[j as int]), slot: HashSlot(slot) },
                    ),
                decreases m - j,
            {
                let id = members.at(j);
                proof {
                    assert(self.slots@[slot]@.contains(id));
                }
                let ghost before_push = r@;
                r.push(RingNode::new(NodeId(id), HashSlot(slot)));
                proof {
                    assert forall|a: int, b: int| 0 <= a < b < r@.len() implies ring_before(
                        r@[a],
                        r@[b],
                    ) by {
                        if b == r@.len() - 1 && a < b - 1 {
                            assert(ring_before(before_push[a], before_push.last()));
                        }
                    }
                    if j + 1 < m {
                        assert(es[j as int] < es[j + 1]);
                    }
                }
                j = j + 1;
            }
            proof {
                assert forall|a: int| 0 <= a < r@.len() implies ks.take(i + 1).contains(
                    #[trigger] r@[a].slot.0,
                ) by {
                    if a < r0.len() {
                        assert(r@[a] == r0[a]);
                    }
                }
                if i + 1 < n && r@.len() > 0 {
                    assert(ks[i as int] < ks[i + 1]);
                    if m == 0 {
                        assert(r0.len() > 0);
                        assert(r@.last() == r0.last());
                    }
                }
                assert forall|id: u64|
                    #[trigger] self@.contains_key(id) && ks.take(i + 1).contains(self@[id]) implies exists|
                    a: int,
                | 0 <= a < r@.len() && r@[a].id.0 == id by {
                    if self@[id] == slot {
                        assert(members@.contains(id));
                        let p = choose|p: int| 0 <= p < es.len() && es[p] == id;
                        assert(r@[r0.len() + p].id.0 == id);
                    } else {
                        let a = choose|a: int| 0 <= a < r0.len() && r0[a].id.0 == id;
                        assert(r@[a] == r0[a]);
                    }
                }
            }
            i = i + 1;
        }
        proof {
            assert(ks.take(i as int) == ks);
            assert forall|id: u64| #[trigger] self@.contains_key(id) implies ks.contains(self@[id]) by {
                assert(self.slots@[self@[id]]@.contains(id));
            }
        }
        r
    }

    /// The keys whose owner differs between two rings, in the given order,
    /// with their owners before and after.
    pub fn movements_between(before: &Self, after: &Self, keys: &[Key]) -> (r: Vec<KeyMovement>)
        requires
            before.wf(),
            after.wf(),
        ensures
            r@ == movements(before@, after@, keys@),
    {
        let mut r: Vec<KeyMovement> = Vec::new();
        let mut i: usize = 0;
        while i < keys.len()
            invariant
                i <= keys@.len(),
                before.wf(),
                after.wf(),
                r@ == movements(before@, after@, keys@.take(i as int)),
            decreases keys@.len() - i,
        {
            let key = keys[i];
            let from = before.owner(key);
            let to = after.owner(key);
            proof {
                assert(keys@.take(i + 1).drop_last() == keys@.take(i as int));
            }
            if !same_owner(from, to) {
                r.push(KeyMovement::new(key, from, to));
            }
            i = i + 1;
        }
        proof {
            assert(keys@.take(i as int) == keys@);
        }
        r
    }
}

} // verus!
