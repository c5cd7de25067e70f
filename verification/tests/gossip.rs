use rust_distributed_systems::gossip::{
    Fanout, GossipCluster, GossipContact, GossipFact, GossipNodeId,
};

#[test]
fn facts_are_monotonic_and_idempotent() {
    let mut cluster =
        GossipCluster::from_nodes(&[GossipNodeId(1), GossipNodeId(2), GossipNodeId(3)]);
    let fact = GossipFact(99);

    assert!(cluster.insert_fact(GossipNodeId(1), fact));
    assert!(!cluster.insert_fact(GossipNodeId(1), fact));
    assert_eq!(cluster.coverage(fact), 1);

    let first_round = cluster.run_round(Fanout(2));
    assert_eq!(first_round.facts_delivered, 2);
    assert_eq!(cluster.coverage(fact), 3);

    let duplicate_round = cluster.run_round(Fanout(2));
    assert_eq!(duplicate_round.facts_delivered, 0);
    assert_eq!(cluster.coverage(fact), 3);
}

#[test]
fn unavailable_nodes_neither_send_nor_receive() {
    let mut cluster =
        GossipCluster::from_nodes(&[GossipNodeId(1), GossipNodeId(2), GossipNodeId(3)]);
    let fact = GossipFact(7);

    cluster.insert_fact(GossipNodeId(1), fact);
    cluster.set_available(GossipNodeId(2), false);

    let report = cluster.run_round(Fanout(2));

    assert!(cluster.knows(GossipNodeId(1), fact));
    assert!(!cluster.knows(GossipNodeId(2), fact));
    assert!(cluster.knows(GossipNodeId(3), fact));
    assert!(report
        .contacts
        .iter()
        .all(|contact| contact.from != GossipNodeId(2) && contact.to != GossipNodeId(2)));
}

#[test]
fn fanout_limits_contacts_per_sender() {
    let mut cluster = GossipCluster::from_nodes(&[
        GossipNodeId(1),
        GossipNodeId(2),
        GossipNodeId(3),
        GossipNodeId(4),
    ]);

    cluster.insert_fact(GossipNodeId(1), GossipFact(1));
    cluster.insert_fact(GossipNodeId(2), GossipFact(2));

    let report = cluster.run_round(Fanout(1));

    for sender in [
        GossipNodeId(1),
        GossipNodeId(2),
        GossipNodeId(3),
        GossipNodeId(4),
    ] {
        let sent = report
            .contacts
            .iter()
            .filter(|contact| contact.from == sender)
            .count();
        assert!(sent <= 1, "{sender:?} sent {sent} contacts");
    }
}

#[test]
fn available_nodes_eventually_converge_with_repeated_rounds() {
    let mut cluster = GossipCluster::from_nodes(&[
        GossipNodeId(1),
        GossipNodeId(2),
        GossipNodeId(3),
        GossipNodeId(4),
    ]);
    let fact = GossipFact(42);

    cluster.insert_fact(GossipNodeId(1), fact);

    for _ in 0..6 {
        cluster.run_round(Fanout(1));
    }

    assert_eq!(cluster.coverage(fact), 4);
    assert!(cluster.available_nodes_converged());
}

#[test]
fn recovered_nodes_can_catch_up_in_later_rounds() {
    let mut cluster =
        GossipCluster::from_nodes(&[GossipNodeId(1), GossipNodeId(2), GossipNodeId(3)]);
    let fact = GossipFact(5);

    cluster.insert_fact(GossipNodeId(1), fact);
    cluster.set_available(GossipNodeId(3), false);
    cluster.run_round(Fanout(2));

    assert_eq!(cluster.coverage(fact), 2);

    cluster.set_available(GossipNodeId(3), true);
    cluster.run_round(Fanout(2));

    assert_eq!(cluster.coverage(fact), 3);
    assert!(cluster.available_nodes_converged());
}

#[test]
fn round_report_records_contacts_and_message_count() {
    let mut cluster =
        GossipCluster::from_nodes(&[GossipNodeId(1), GossipNodeId(2), GossipNodeId(3)]);
    cluster.insert_fact(GossipNodeId(1), GossipFact(1));

    let report = cluster.run_round(Fanout(1));

    assert_eq!(report.messages_sent, report.contacts.len());
    assert_eq!(
        report.contacts.first(),
        Some(&GossipContact::new(GossipNodeId(1), GossipNodeId(2), 1))
    );
}

#[test]
fn empty_cluster_is_converged() {
    assert!(GossipCluster::new().available_nodes_converged());
}

#[test]
fn zero_fanout_sends_no_messages() {
    let mut cluster = GossipCluster::from_nodes(&[GossipNodeId(1), GossipNodeId(2)]);
    cluster.insert_fact(GossipNodeId(1), GossipFact(1));

    let report = cluster.run_round(Fanout(0));

    assert_eq!(report.messages_sent, 0);
    assert_eq!(cluster.coverage(GossipFact(1)), 1);
}

#[test]
fn round_contacts_wrap_around_the_available_nodes() {
    let mut cluster = GossipCluster::from_nodes(&[
        GossipNodeId(4),
        GossipNodeId(1),
        GossipNodeId(3),
        GossipNodeId(2),
    ]);
    cluster.insert_fact(GossipNodeId(2), GossipFact(10));
    cluster.insert_fact(GossipNodeId(4), GossipFact(20));

    let report = cluster.run_round(Fanout(2));

    assert_eq!(
        report.contacts,
        vec![
            GossipContact::new(GossipNodeId(2), GossipNodeId(3), 1),
            GossipContact::new(GossipNodeId(2), GossipNodeId(4), 1),
            GossipContact::new(GossipNodeId(4), GossipNodeId(1), 1),
            GossipContact::new(GossipNodeId(4), GossipNodeId(2), 1),
        ]
    );
    assert_eq!(report.messages_sent, 4);
    assert_eq!(report.facts_delivered, 4);
    assert_eq!(cluster.coverage(GossipFact(10)), 3);
    assert_eq!(cluster.coverage(GossipFact(20)), 3);
    assert!(!cluster.knows(GossipNodeId(1), GossipFact(10)));
}

#[test]
fn facts_received_in_a_round_are_forwarded_only_in_the_next_one() {
    let mut cluster =
        GossipCluster::from_nodes(&[GossipNodeId(1), GossipNodeId(2), GossipNodeId(3)]);
    cluster.insert_fact(GossipNodeId(1), GossipFact(5));

    let first = cluster.run_round(Fanout(1));
    assert_eq!(first.contacts, vec![GossipContact::new(GossipNodeId(1), GossipNodeId(2), 1)]);
    assert!(!cluster.knows(GossipNodeId(3), GossipFact(5)));

    let second = cluster.run_round(Fanout(1));
    assert_eq!(
        second.contacts,
        vec![
            GossipContact::new(GossipNodeId(1), GossipNodeId(2), 1),
            GossipContact::new(GossipNodeId(2), GossipNodeId(3), 1),
        ]
    );
    assert_eq!(second.facts_delivered, 1);
    assert!(cluster.available_nodes_converged());
}

#[test]
fn a_lone_available_node_has_nobody_to_talk_to() {
    let mut cluster = GossipCluster::from_nodes(&[GossipNodeId(1), GossipNodeId(2)]);
    cluster.insert_fact(GossipNodeId(1), GossipFact(1));
    cluster.set_available(GossipNodeId(2), false);

    let report = cluster.run_round(Fanout(3));
    assert_eq!(report.messages_sent, 0);
    assert!(report.contacts.is_empty());
    assert!(cluster.available_nodes_converged());
}

#[test]
fn missing_nodes_are_reported_by_the_accessors() {
    let mut cluster = GossipCluster::from_nodes(&[GossipNodeId(3), GossipNodeId(1)]);
    assert!(!cluster.set_available(GossipNodeId(9), true));
    assert!(!cluster.insert_fact(GossipNodeId(9), GossipFact(1)));
    assert!(!cluster.knows(GossipNodeId(9), GossipFact(1)));
    assert!(!cluster.is_available(GossipNodeId(9)));
    assert!(cluster.is_available(GossipNodeId(3)));
    assert_eq!(cluster.node_ids(), vec![GossipNodeId(1), GossipNodeId(3)]);

    assert!(cluster.insert_fact(GossipNodeId(1), GossipFact(1)));
    assert!(!cluster.insert_fact(GossipNodeId(1), GossipFact(1)));
    assert_eq!(cluster.coverage(GossipFact(1)), 1);
}

#[test]
fn inserting_an_existing_node_keeps_its_state() {
    let mut cluster = GossipCluster::new();
    cluster.insert_node(GossipNodeId(1));
    cluster.insert_fact(GossipNodeId(1), GossipFact(2));
    cluster.set_available(GossipNodeId(1), false);
    cluster.insert_node(GossipNodeId(1));
    assert!(cluster.knows(GossipNodeId(1), GossipFact(2)));
    assert!(!cluster.is_available(GossipNodeId(1)));
    assert_eq!(cluster.node_ids(), vec![GossipNodeId(1)]);
}

#[test]
fn divergent_available_nodes_are_not_converged() {
    let mut cluster = GossipCluster::from_nodes(&[GossipNodeId(1), GossipNodeId(2)]);
    cluster.insert_fact(GossipNodeId(2), GossipFact(1));
    assert!(!cluster.available_nodes_converged());
    cluster.set_available(GossipNodeId(1), false);
    assert!(cluster.available_nodes_converged());
}

#[test]
fn fanout_one_converges_after_one_round_fewer_than_the_available_nodes() {
    let mut cluster = GossipCluster::from_nodes(&[
        GossipNodeId(1),
        GossipNodeId(2),
        GossipNodeId(3),
        GossipNodeId(4),
        GossipNodeId(5),
        GossipNodeId(6),
    ]);
    cluster.insert_fact(GossipNodeId(1), GossipFact(10));
    cluster.insert_fact(GossipNodeId(3), GossipFact(30));
    cluster.insert_fact(GossipNodeId(6), GossipFact(60));
    cluster.set_available(GossipNodeId(6), false);

    for _ in 0..3 {
        cluster.run_round(Fanout(1));
    }
    assert!(!cluster.available_nodes_converged());
    assert!(!cluster.knows(GossipNodeId(2), GossipFact(30)));

    cluster.run_round(Fanout(1));
    assert!(cluster.available_nodes_converged());
    for id in 1..=5 {
        assert!(cluster.knows(GossipNodeId(id), GossipFact(10)));
        assert!(cluster.knows(GossipNodeId(id), GossipFact(30)));
        assert!(!cluster.knows(GossipNodeId(id), GossipFact(60)));
    }
    assert!(!cluster.knows(GossipNodeId(6), GossipFact(10)));
    assert_eq!(cluster.coverage(GossipFact(60)), 1);

    let report = cluster.run_round(Fanout(1));
    assert_eq!(report.facts_delivered, 0);
}
