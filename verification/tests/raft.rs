use rust_distributed_systems::raft::{
    LogIndex, NodeId, RaftCluster, RaftError, RaftEvent, Role, Term,
};

#[test]
fn candidate_becomes_leader_only_after_majority() {
    let mut cluster = RaftCluster::new(&[NodeId(1), NodeId(2), NodeId(3)]);

    let term = cluster
        .start_election(NodeId(1))
        .expect("el candidato pertenece al clúster");

    assert_eq!(term, Term(1));
    assert_eq!(cluster.leader(), None);

    cluster
        .request_vote(NodeId(2), NodeId(1), term)
        .expect("el votante concede voto en el término vigente");
    cluster
        .finish_election(NodeId(1))
        .expect("dos votos alcanzan mayoría");

    assert_eq!(cluster.leader(), Some(NodeId(1)));
    assert_eq!(
        cluster.node_role(NodeId(1)).expect("nodo conocido"),
        Role::Leader
    );
}

#[test]
fn node_grants_one_vote_per_term_and_rejects_stale_terms() {
    let mut cluster = RaftCluster::new(&[NodeId(1), NodeId(2), NodeId(3)]);
    let term = cluster.start_election(NodeId(1)).unwrap();

    cluster.request_vote(NodeId(2), NodeId(1), term).unwrap();

    assert_eq!(
        cluster.request_vote(NodeId(2), NodeId(3), term),
        Err(RaftError::AlreadyVoted {
            voter: NodeId(2),
            term,
            voted_for: NodeId(1),
            attempted: NodeId(3),
        })
    );
    assert_eq!(
        cluster.request_vote(NodeId(2), NodeId(3), Term(0)),
        Err(RaftError::StaleTerm {
            node: NodeId(2),
            current: term,
            attempted: Term(0),
        })
    );
}

#[test]
fn leader_commits_entry_only_after_majority_replication() {
    let mut cluster = elected_cluster();

    let index = cluster
        .append_entry(NodeId(1), "set x=1")
        .expect("el líder puede agregar entradas");

    assert_eq!(index, LogIndex(1));
    assert_eq!(cluster.committed_command(index), None);

    cluster
        .replicate_entry(NodeId(1), NodeId(2), index)
        .expect("el seguidor acepta la entrada del líder");
    cluster
        .commit_entry(NodeId(1), index)
        .expect("líder y un seguidor forman mayoría");

    assert_eq!(cluster.committed_command(index), Some("set x=1"));
}

#[test]
fn follower_rejects_replication_when_log_prefix_conflicts() {
    let mut cluster = elected_cluster();

    cluster
        .install_log_for_scenario(NodeId(2), &[(Term(9), "valor-anterior")])
        .expect("el escenario puede preparar un log divergente");

    let index = cluster.append_entry(NodeId(1), "valor-nuevo").unwrap();

    assert_eq!(
        cluster.replicate_entry(NodeId(1), NodeId(2), index),
        Err(RaftError::LogConflict {
            node: NodeId(2),
            index,
        })
    );
}

#[test]
fn history_explains_election_replication_and_commit() {
    let mut cluster = elected_cluster();
    let index = cluster.append_entry(NodeId(1), "activar").unwrap();
    cluster
        .replicate_entry(NodeId(1), NodeId(2), index)
        .unwrap();
    cluster.commit_entry(NodeId(1), index).unwrap();

    assert_eq!(
        cluster.history(),
        [
            RaftEvent::ElectionStarted {
                candidate: NodeId(1),
                term: Term(1),
            },
            RaftEvent::VoteGranted {
                voter: NodeId(2),
                candidate: NodeId(1),
                term: Term(1),
            },
            RaftEvent::LeaderElected {
                leader: NodeId(1),
                term: Term(1),
            },
            RaftEvent::EntryAppended {
                leader: NodeId(1),
                index,
                term: Term(1),
            },
            RaftEvent::EntryReplicated {
                leader: NodeId(1),
                follower: NodeId(2),
                index,
            },
            RaftEvent::EntryCommitted { index },
        ]
    );
}

fn elected_cluster() -> RaftCluster {
    let mut cluster = RaftCluster::new(&[NodeId(1), NodeId(2), NodeId(3)]);
    let term = cluster.start_election(NodeId(1)).unwrap();
    cluster.request_vote(NodeId(2), NodeId(1), term).unwrap();
    cluster.finish_election(NodeId(1)).unwrap();
    cluster
}

#[test]
fn raft_majority_quorum_is_half_plus_one() {
    let three_nodes = RaftCluster::new(&[NodeId(1), NodeId(2), NodeId(3)]);
    let four_nodes = RaftCluster::new(&[NodeId(1), NodeId(2), NodeId(3), NodeId(4)]);

    assert_eq!(three_nodes.quorum_size(), 2);
    assert_eq!(four_nodes.quorum_size(), 3);
}

#[test]
fn only_the_leader_may_append_replicate_or_commit() {
    let mut cluster = elected_cluster();
    assert_eq!(
        cluster.append_entry(NodeId(2), "x"),
        Err(RaftError::NotLeader {
            node: NodeId(2),
            role: Role::Follower,
        })
    );
    assert_eq!(
        cluster.replicate_entry(NodeId(3), NodeId(2), LogIndex(1)),
        Err(RaftError::NotLeader {
            node: NodeId(3),
            role: Role::Follower,
        })
    );
    assert_eq!(
        cluster.commit_entry(NodeId(9), LogIndex(1)),
        Err(RaftError::UnknownNode(NodeId(9)))
    );
}

#[test]
fn missing_leader_entries_are_reported() {
    let mut cluster = elected_cluster();
    assert_eq!(
        cluster.replicate_entry(NodeId(1), NodeId(2), LogIndex(1)),
        Err(RaftError::UnknownLogEntry(LogIndex(1)))
    );
    assert_eq!(
        cluster.commit_entry(NodeId(1), LogIndex(0)),
        Err(RaftError::UnknownLogEntry(LogIndex(0)))
    );
}

#[test]
fn entry_on_the_leader_alone_cannot_commit() {
    let mut cluster = elected_cluster();
    assert_eq!(cluster.append_entry(NodeId(1), "set x=1"), Ok(LogIndex(1)));
    assert_eq!(
        cluster.commit_entry(NodeId(1), LogIndex(1)),
        Err(RaftError::EntryWithoutMajority {
            index: LogIndex(1),
            replicas: 1,
            quorum: 2,
        })
    );
    assert_eq!(cluster.committed_command(LogIndex(1)), None);
}

#[test]
fn committed_entries_are_protected_from_a_later_leader() {
    let mut cluster = elected_cluster();
    cluster.append_entry(NodeId(1), "a").unwrap();
    cluster.replicate_entry(NodeId(1), NodeId(2), LogIndex(1)).unwrap();
    cluster.commit_entry(NodeId(1), LogIndex(1)).unwrap();
    assert_eq!(cluster.committed_command(LogIndex(1)), Some("a"));
    assert_eq!(cluster.committed_command(LogIndex(2)), None);

    assert_eq!(cluster.start_election(NodeId(3)), Ok(Term(2)));
    assert_eq!(cluster.committed_command(LogIndex(1)), None);
    cluster.request_vote(NodeId(2), NodeId(3), Term(2)).unwrap();
    cluster.finish_election(NodeId(3)).unwrap();
    assert_eq!(cluster.node_role(NodeId(1)), Ok(Role::Follower));
    assert_eq!(cluster.node_term(NodeId(1)), Ok(Term(2)));

    assert_eq!(cluster.append_entry(NodeId(3), "b"), Ok(LogIndex(1)));
    assert_eq!(
        cluster.replicate_entry(NodeId(3), NodeId(2), LogIndex(1)),
        Err(RaftError::CommittedEntryCannotChange {
            node: NodeId(2),
            index: LogIndex(1),
        })
    );
}

#[test]
fn replication_needs_the_previous_entry_and_is_idempotent() {
    let mut cluster = elected_cluster();
    cluster.append_entry(NodeId(1), "a").unwrap();
    cluster.append_entry(NodeId(1), "b").unwrap();
    assert_eq!(
        cluster.replicate_entry(NodeId(1), NodeId(3), LogIndex(2)),
        Err(RaftError::LogConflict {
            node: NodeId(3),
            index: LogIndex(2),
        })
    );

    cluster.replicate_entry(NodeId(1), NodeId(3), LogIndex(1)).unwrap();
    let events = cluster.history().len();
    assert_eq!(cluster.replicate_entry(NodeId(1), NodeId(3), LogIndex(1)), Ok(()));
    assert_eq!(cluster.history().len(), events);

    cluster.replicate_entry(NodeId(1), NodeId(3), LogIndex(2)).unwrap();
    cluster.commit_entry(NodeId(1), LogIndex(2)).unwrap();
    assert_eq!(cluster.committed_command(LogIndex(1)), Some("a"));
    assert_eq!(cluster.committed_command(LogIndex(2)), Some("b"));
    assert_eq!(
        cluster.history().last(),
        Some(&RaftEvent::EntryCommitted { index: LogIndex(2) })
    );
}

#[test]
fn installing_a_log_on_an_unknown_node_fails() {
    let mut cluster = RaftCluster::new(&[NodeId(1)]);
    assert_eq!(
        cluster.install_log_for_scenario(NodeId(5), &[(Term(1), "a")]),
        Err(RaftError::UnknownNode(NodeId(5)))
    );
    assert_eq!(cluster.node_term(NodeId(5)), Err(RaftError::UnknownNode(NodeId(5))));
}

#[test]
fn single_node_cluster_elects_itself_and_commits_alone() {
    let mut cluster = RaftCluster::new(&[NodeId(7)]);
    let term = cluster.start_election(NodeId(7)).unwrap();
    cluster.finish_election(NodeId(7)).unwrap();
    assert_eq!(cluster.leader(), Some(NodeId(7)));
    assert_eq!(cluster.append_entry(NodeId(7), "only"), Ok(LogIndex(1)));
    cluster.commit_entry(NodeId(7), LogIndex(1)).unwrap();
    assert_eq!(cluster.committed_command(LogIndex(1)), Some("only"));
    assert_eq!(term, Term(1));
}
