use rust_distributed_systems::consistent_hashing::{
    ConsistentHashRing, HashSlot, Key, KeyMovement, NodeId, RingNode,
};

#[test]
fn empty_ring_has_no_owner_for_keys() {
    let ring = ConsistentHashRing::new();

    assert_eq!(ring.owner(Key(42)), None);
    assert!(ring.nodes().is_empty());
}

#[test]
fn key_is_assigned_to_first_successor_with_wrap_around() {
    let ring = ConsistentHashRing::from_nodes(&[
        RingNode::new(NodeId(1), HashSlot(10)),
        RingNode::new(NodeId(2), HashSlot(40)),
        RingNode::new(NodeId(3), HashSlot(80)),
    ]);

    assert_eq!(ring.owner(Key(5)), Some(NodeId(1)));
    assert_eq!(ring.owner(Key(10)), Some(NodeId(1)));
    assert_eq!(ring.owner(Key(39)), Some(NodeId(2)));
    assert_eq!(ring.owner(Key(81)), Some(NodeId(1)));
}

#[test]
fn rings_with_same_nodes_are_deterministic_regardless_of_insertion_order() {
    let left = ConsistentHashRing::from_nodes(&[
        RingNode::new(NodeId(3), HashSlot(80)),
        RingNode::new(NodeId(1), HashSlot(10)),
        RingNode::new(NodeId(2), HashSlot(40)),
    ]);
    let right = ConsistentHashRing::from_nodes(&[
        RingNode::new(NodeId(2), HashSlot(40)),
        RingNode::new(NodeId(3), HashSlot(80)),
        RingNode::new(NodeId(1), HashSlot(10)),
    ]);

    assert_eq!(left.nodes(), right.nodes());

    for key in [Key(0), Key(10), Key(20), Key(40), Key(79), Key(99)] {
        assert_eq!(left.owner(key), right.owner(key));
    }
}

#[test]
fn adding_a_node_only_moves_keys_in_the_new_node_range() {
    let before = ConsistentHashRing::from_nodes(&[
        RingNode::new(NodeId(1), HashSlot(10)),
        RingNode::new(NodeId(3), HashSlot(80)),
    ]);
    let mut after = before.clone();
    after.insert_node(RingNode::new(NodeId(2), HashSlot(40)));

    let movements = ConsistentHashRing::movements_between(
        &before,
        &after,
        &[Key(5), Key(20), Key(39), Key(40), Key(79), Key(81)],
    );

    assert_eq!(
        movements,
        vec![
            KeyMovement::new(Key(20), Some(NodeId(3)), Some(NodeId(2))),
            KeyMovement::new(Key(39), Some(NodeId(3)), Some(NodeId(2))),
            KeyMovement::new(Key(40), Some(NodeId(3)), Some(NodeId(2))),
        ]
    );
}

#[test]
fn removing_a_node_only_moves_keys_owned_by_that_node() {
    let mut before = ConsistentHashRing::from_nodes(&[
        RingNode::new(NodeId(1), HashSlot(10)),
        RingNode::new(NodeId(2), HashSlot(40)),
        RingNode::new(NodeId(3), HashSlot(80)),
    ]);
    let mut after = before.clone();
    assert_eq!(
        after.remove_node(NodeId(2)),
        Some(RingNode::new(NodeId(2), HashSlot(40)))
    );

    let movements = ConsistentHashRing::movements_between(
        &before,
        &after,
        &[Key(5), Key(20), Key(39), Key(40), Key(79), Key(81)],
    );

    assert_eq!(
        movements,
        vec![
            KeyMovement::new(Key(20), Some(NodeId(2)), Some(NodeId(3))),
            KeyMovement::new(Key(39), Some(NodeId(2)), Some(NodeId(3))),
            KeyMovement::new(Key(40), Some(NodeId(2)), Some(NodeId(3))),
        ]
    );

    assert_eq!(before.remove_node(NodeId(99)), None);
}

#[test]
fn updating_a_node_keeps_identity_unique_and_repositions_it() {
    let mut ring = ConsistentHashRing::from_nodes(&[
        RingNode::new(NodeId(1), HashSlot(10)),
        RingNode::new(NodeId(2), HashSlot(40)),
    ]);

    ring.insert_node(RingNode::new(NodeId(2), HashSlot(80)));

    assert_eq!(
        ring.nodes(),
        vec![
            RingNode::new(NodeId(1), HashSlot(10)),
            RingNode::new(NodeId(2), HashSlot(80)),
        ]
    );
    assert_eq!(ring.owner(Key(40)), Some(NodeId(2)));
}

#[test]
fn empty_ring_starts_without_nodes() {
    let ring = ConsistentHashRing::new();

    assert_eq!(ring.owner(Key(1)), None);
    assert!(ring.nodes().is_empty());
}

#[test]
fn insertion_returns_nodes_in_ring_order() {
    let ring = ConsistentHashRing::from_nodes(&[
        RingNode::new(NodeId(2), HashSlot(40)),
        RingNode::new(NodeId(1), HashSlot(10)),
    ]);

    assert_eq!(
        ring.nodes(),
        vec![
            RingNode::new(NodeId(1), HashSlot(10)),
            RingNode::new(NodeId(2), HashSlot(40)),
        ]
    );
}

#[test]
fn nodes_sharing_a_slot_are_ordered_by_identity() {
    let mut ring = ConsistentHashRing::from_nodes(&[
        RingNode::new(NodeId(9), HashSlot(50)),
        RingNode::new(NodeId(3), HashSlot(50)),
        RingNode::new(NodeId(5), HashSlot(20)),
    ]);
    assert_eq!(
        ring.nodes(),
        vec![
            RingNode::new(NodeId(5), HashSlot(20)),
            RingNode::new(NodeId(3), HashSlot(50)),
            RingNode::new(NodeId(9), HashSlot(50)),
        ]
    );
    assert_eq!(ring.owner(Key(21)), Some(NodeId(3)));

    assert_eq!(ring.remove_node(NodeId(3)), Some(RingNode::new(NodeId(3), HashSlot(50))));
    assert_eq!(ring.owner(Key(21)), Some(NodeId(9)));
}

#[test]
fn a_key_on_a_slot_belongs_to_that_slot_and_the_top_wraps() {
    let ring = ConsistentHashRing::from_nodes(&[
        RingNode::new(NodeId(1), HashSlot(10)),
        RingNode::new(NodeId(2), HashSlot(100)),
    ]);
    assert_eq!(ring.owner(Key(10)), Some(NodeId(1)));
    assert_eq!(ring.owner(Key(0)), Some(NodeId(1)));
    assert_eq!(ring.owner(Key(11)), Some(NodeId(2)));
    assert_eq!(ring.owner(Key(100)), Some(NodeId(2)));
    assert_eq!(ring.owner(Key(u64::MAX)), Some(NodeId(1)));
}

#[test]
fn removing_an_absent_node_changes_nothing() {
    let mut ring = ConsistentHashRing::from_nodes(&[RingNode::new(NodeId(1), HashSlot(10))]);
    assert_eq!(ring.remove_node(NodeId(2)), None);
    assert_eq!(ring.nodes(), vec![RingNode::new(NodeId(1), HashSlot(10))]);
    assert_eq!(ring.remove_node(NodeId(1)), Some(RingNode::new(NodeId(1), HashSlot(10))));
    assert_eq!(ring.owner(Key(5)), None);
}

#[test]
fn identical_rings_move_no_keys() {
    let ring = ConsistentHashRing::from_nodes(&[
        RingNode::new(NodeId(1), HashSlot(10)),
        RingNode::new(NodeId(2), HashSlot(60)),
    ]);
    let copy = ConsistentHashRing::from_nodes(&[
        RingNode::new(NodeId(2), HashSlot(60)),
        RingNode::new(NodeId(1), HashSlot(10)),
    ]);
    let keys = [Key(0), Key(10), Key(11), Key(60), Key(61)];
    assert!(ConsistentHashRing::movements_between(&ring, &copy, &keys).is_empty());
}

#[test]
fn movements_to_and_from_an_empty_ring_name_no_owner() {
    let empty = ConsistentHashRing::new();
    let ring = ConsistentHashRing::from_nodes(&[RingNode::new(NodeId(4), HashSlot(30))]);
    assert_eq!(
        ConsistentHashRing::movements_between(&empty, &ring, &[Key(7)]),
        vec![KeyMovement::new(Key(7), None, Some(NodeId(4)))]
    );
    assert_eq!(
        ConsistentHashRing::movements_between(&ring, &empty, &[Key(7), Key(99)]),
        vec![
            KeyMovement::new(Key(7), Some(NodeId(4)), None),
            KeyMovement::new(Key(99), Some(NodeId(4)), None),
        ]
    );
}

#[test]
fn inserting_a_new_node_and_removing_it_gives_back_the_ring() {
    let original = ConsistentHashRing::from_nodes(&[
        RingNode::new(NodeId(1), HashSlot(10)),
        RingNode::new(NodeId(2), HashSlot(60)),
    ]);
    let mut ring = ConsistentHashRing::from_nodes(&[
        RingNode::new(NodeId(1), HashSlot(10)),
        RingNode::new(NodeId(2), HashSlot(60)),
    ]);
    ring.insert_node(RingNode::new(NodeId(3), HashSlot(30)));
    assert_eq!(ring.owner(Key(20)), Some(NodeId(3)));
    assert_eq!(ring.owner(Key(40)), Some(NodeId(2)));
    assert_eq!(ring.remove_node(NodeId(3)), Some(RingNode::new(NodeId(3), HashSlot(30))));
    assert_eq!(ring.nodes(), original.nodes());
    assert_eq!(ring.owner(Key(20)), Some(NodeId(2)));
}
