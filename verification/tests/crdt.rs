use rust_distributed_systems::crdt::{Count, GCounter, ReplicaId, StateRelation};

#[test]
fn local_increment_only_changes_that_replica() {
    let mut counter = GCounter::new();

    assert_eq!(counter.increment(ReplicaId(1)), Count(1));
    assert_eq!(counter.increment(ReplicaId(1)), Count(2));

    assert_eq!(counter.count(ReplicaId(1)), Count(2));
    assert_eq!(counter.count(ReplicaId(2)), Count(0));
    assert_eq!(counter.value(), Count(2));
}

#[test]
fn increment_by_zero_is_a_noop() {
    let mut counter = GCounter::new();

    assert_eq!(counter.increment_by(ReplicaId(1), Count(0)), Count(0));

    assert_eq!(counter.count(ReplicaId(1)), Count(0));
    assert_eq!(counter.value(), Count(0));
}

#[test]
fn merge_keeps_componentwise_max_and_total_value() {
    let mut first = GCounter::new();
    first.increment(ReplicaId(1));
    first.increment(ReplicaId(1));
    first.increment(ReplicaId(2));

    let mut second = GCounter::new();
    second.increment(ReplicaId(1));
    second.increment(ReplicaId(3));
    second.increment(ReplicaId(3));
    second.increment(ReplicaId(3));

    first.merge(&second);

    assert_eq!(first.count(ReplicaId(1)), Count(2));
    assert_eq!(first.count(ReplicaId(2)), Count(1));
    assert_eq!(first.count(ReplicaId(3)), Count(3));
    assert_eq!(first.value(), Count(6));
}

#[test]
fn merge_is_idempotent() {
    let mut counter = GCounter::new();
    counter.increment(ReplicaId(1));
    counter.increment(ReplicaId(1));

    let once = counter.merged(&counter);
    let twice = once.merged(&counter);

    assert_eq!(once, counter);
    assert_eq!(twice, counter);
}

#[test]
fn merge_is_commutative() {
    let mut left = GCounter::new();
    left.increment(ReplicaId(1));

    let mut right = GCounter::new();
    right.increment(ReplicaId(2));
    right.increment(ReplicaId(2));

    assert_eq!(left.merged(&right), right.merged(&left));
}

#[test]
fn merge_is_associative() {
    let mut a = GCounter::new();
    a.increment(ReplicaId(1));

    let mut b = GCounter::new();
    b.increment(ReplicaId(2));
    b.increment(ReplicaId(2));

    let mut c = GCounter::new();
    c.increment(ReplicaId(3));
    c.increment(ReplicaId(3));
    c.increment(ReplicaId(3));

    let left_grouped = a.merged(&b).merged(&c);
    let right_grouped = a.merged(&b.merged(&c));

    assert_eq!(left_grouped, right_grouped);
    assert_eq!(left_grouped.value(), Count(6));
}

#[test]
fn replicas_converge_after_exchanging_states() {
    let mut mexico = GCounter::new();
    mexico.increment(ReplicaId(52));
    mexico.increment(ReplicaId(52));

    let mut canada = GCounter::new();
    canada.increment(ReplicaId(1));
    canada.increment(ReplicaId(1));
    canada.increment(ReplicaId(1));

    let first_delivery = mexico.merged(&canada);
    let duplicate_delivery = first_delivery.merged(&canada);
    let reversed_delivery = canada.merged(&mexico);

    assert_eq!(first_delivery, duplicate_delivery);
    assert_eq!(first_delivery, reversed_delivery);
    assert_eq!(first_delivery.value(), Count(5));
}

#[test]
fn comparison_detects_equal_before_after_and_concurrent_states() {
    let empty = GCounter::new();

    let mut first = GCounter::new();
    first.increment(ReplicaId(1));

    let mut second = first.clone();
    second.increment(ReplicaId(2));

    let mut concurrent = GCounter::new();
    concurrent.increment(ReplicaId(3));

    assert_eq!(empty.compare(&GCounter::new()), StateRelation::Equal);
    assert_eq!(first.compare(&second), StateRelation::Before);
    assert_eq!(second.compare(&first), StateRelation::After);
    assert_eq!(first.compare(&concurrent), StateRelation::Concurrent);
}

#[test]
fn empty_counters_are_equal() {
    assert_eq!(
        GCounter::new().compare(&GCounter::new()),
        StateRelation::Equal
    );
}

#[test]
fn increment_returns_next_count() {
    let mut counter = GCounter::new();

    assert_eq!(counter.increment(ReplicaId(9)), Count(1));
}

#[test]
fn components_and_value_saturate_at_the_top() {
    let mut counter = GCounter::new();
    assert_eq!(counter.increment_by(ReplicaId(1), Count(u64::MAX - 1)), Count(u64::MAX - 1));
    assert_eq!(counter.increment_by(ReplicaId(1), Count(5)), Count(u64::MAX));
    assert_eq!(counter.increment(ReplicaId(1)), Count(u64::MAX));
    counter.increment_by(ReplicaId(2), Count(3));
    assert_eq!(counter.value(), Count(u64::MAX));
    assert_eq!(counter.count(ReplicaId(2)), Count(3));
}

#[test]
fn value_is_the_sum_of_components() {
    let mut counter = GCounter::new();
    counter.increment_by(ReplicaId(7), Count(4));
    counter.increment_by(ReplicaId(2), Count(10));
    counter.increment(ReplicaId(7));
    assert_eq!(counter.value(), Count(15));
    assert_eq!(counter.count(ReplicaId(3)), Count(0));
}

#[test]
fn merging_into_an_empty_counter_copies_the_state() {
    let mut source = GCounter::new();
    source.increment_by(ReplicaId(1), Count(2));
    source.increment_by(ReplicaId(4), Count(9));
    let mut target = GCounter::new();
    target.merge(&source);
    assert_eq!(target.compare(&source), StateRelation::Equal);
    assert_eq!(target.value(), Count(11));
    assert_eq!(source.merged(&GCounter::new()).compare(&source), StateRelation::Equal);
}

#[test]
fn merged_state_is_after_or_equal_to_both_inputs() {
    let mut a = GCounter::new();
    a.increment_by(ReplicaId(1), Count(3));
    let mut b = GCounter::new();
    b.increment_by(ReplicaId(2), Count(1));
    let m = a.merged(&b);
    assert_eq!(m.compare(&a), StateRelation::After);
    assert_eq!(a.compare(&m), StateRelation::Before);
    assert_eq!(m.compare(&b), StateRelation::After);
    assert_eq!(a.compare(&b), StateRelation::Concurrent);
    assert_eq!(b.compare(&a), StateRelation::Concurrent);
    assert_eq!(m.merged(&a).compare(&m), StateRelation::Equal);
}
