use rust_distributed_systems::leader_election::{
    ElectionEvent, ElectionTerm, LeaderElection, LeaderElectionError, LeadershipRole, NodeId,
};

#[test]
fn candidate_becomes_leader_after_majority_vote() {
    let mut election = LeaderElection::new(&[NodeId(1), NodeId(2), NodeId(3)]);

    let term = election
        .start_election(NodeId(1))
        .expect("el candidato pertenece al grupo");
    election
        .grant_vote(NodeId(2), NodeId(1), term)
        .expect("el votante concede voto en el término vigente");
    election
        .finish_election(NodeId(1))
        .expect("dos votos alcanzan mayoría");

    assert_eq!(term, ElectionTerm(1));
    assert_eq!(election.leader(), Some(NodeId(1)));
    assert_eq!(
        election.role(NodeId(1)).expect("nodo conocido"),
        LeadershipRole::Leader
    );
}

#[test]
fn node_grants_only_one_vote_per_term() {
    let mut election = LeaderElection::new(&[NodeId(1), NodeId(2), NodeId(3)]);
    let term = election.start_election(NodeId(1)).unwrap();

    election.grant_vote(NodeId(2), NodeId(1), term).unwrap();

    assert_eq!(
        election.grant_vote(NodeId(2), NodeId(3), term),
        Err(LeaderElectionError::AlreadyVoted {
            voter: NodeId(2),
            term,
            voted_for: NodeId(1),
            attempted: NodeId(3),
        })
    );
}

#[test]
fn unavailable_nodes_cannot_vote_until_they_recover() {
    let mut election = LeaderElection::new(&[NodeId(1), NodeId(2), NodeId(3)]);
    let term = election.start_election(NodeId(1)).unwrap();

    election.fail_node(NodeId(2)).expect("nodo conocido");

    assert_eq!(
        election.grant_vote(NodeId(2), NodeId(1), term),
        Err(LeaderElectionError::NodeUnavailable(NodeId(2)))
    );

    election.recover_node(NodeId(2)).expect("nodo conocido");
    election
        .grant_vote(NodeId(2), NodeId(1), term)
        .expect("un nodo recuperado puede votar");
}

#[test]
fn stale_terms_do_not_change_current_election() {
    let mut election = LeaderElection::new(&[NodeId(1), NodeId(2), NodeId(3)]);
    let term = election.start_election(NodeId(1)).unwrap();

    assert_eq!(
        election.grant_vote(NodeId(2), NodeId(1), ElectionTerm(0)),
        Err(LeaderElectionError::StaleTerm {
            node: NodeId(2),
            current: term,
            attempted: ElectionTerm(0),
        })
    );
}

#[test]
fn history_explains_the_election() {
    let mut election = LeaderElection::new(&[NodeId(1), NodeId(2), NodeId(3)]);
    let term = election.start_election(NodeId(1)).unwrap();
    election.grant_vote(NodeId(2), NodeId(1), term).unwrap();
    election.finish_election(NodeId(1)).unwrap();

    assert_eq!(
        election.history(),
        [
            ElectionEvent::ElectionStarted {
                candidate: NodeId(1),
                term,
            },
            ElectionEvent::VoteGranted {
                voter: NodeId(2),
                candidate: NodeId(1),
                term,
            },
            ElectionEvent::LeaderElected {
                leader: NodeId(1),
                term,
            },
        ]
    );
}

#[test]
fn leader_election_majority_quorum_is_half_plus_one() {
    let three_nodes = LeaderElection::new(&[NodeId(1), NodeId(2), NodeId(3)]);
    let four_nodes = LeaderElection::new(&[NodeId(1), NodeId(2), NodeId(3), NodeId(4)]);

    assert_eq!(three_nodes.quorum_size(), 2);
    assert_eq!(four_nodes.quorum_size(), 3);
}

#[test]
fn only_one_candidate_wins_a_contested_term() {
    let mut election = LeaderElection::new(&[NodeId(1), NodeId(2), NodeId(3)]);
    assert_eq!(election.start_election(NodeId(1)), Ok(ElectionTerm(1)));
    assert_eq!(election.start_election(NodeId(2)), Ok(ElectionTerm(1)));

    election.grant_vote(NodeId(3), NodeId(1), ElectionTerm(1)).unwrap();
    assert_eq!(
        election.grant_vote(NodeId(3), NodeId(2), ElectionTerm(1)),
        Err(LeaderElectionError::AlreadyVoted {
            voter: NodeId(3),
            term: ElectionTerm(1),
            voted_for: NodeId(1),
            attempted: NodeId(2),
        })
    );

    election.finish_election(NodeId(1)).unwrap();
    assert_eq!(
        election.finish_election(NodeId(2)),
        Err(LeaderElectionError::ElectionWithoutMajority {
            candidate: NodeId(2),
            term: ElectionTerm(1),
            votes: 1,
            quorum: 2,
        })
    );
    assert_eq!(election.leader(), Some(NodeId(1)));
    assert_eq!(election.role(NodeId(1)), Ok(LeadershipRole::Leader));
    assert_eq!(election.role(NodeId(2)), Ok(LeadershipRole::Follower));
    assert_eq!(election.role(NodeId(3)), Ok(LeadershipRole::Follower));
}

#[test]
fn candidate_without_votes_cannot_finish() {
    let mut election = LeaderElection::new(&[NodeId(1), NodeId(2), NodeId(3)]);
    election.start_election(NodeId(2)).unwrap();
    assert_eq!(
        election.finish_election(NodeId(2)),
        Err(LeaderElectionError::ElectionWithoutMajority {
            candidate: NodeId(2),
            term: ElectionTerm(1),
            votes: 1,
            quorum: 2,
        })
    );
    assert_eq!(election.leader(), None);
    assert_eq!(election.role(NodeId(2)), Ok(LeadershipRole::Candidate));
}

#[test]
fn unknown_nodes_are_reported() {
    let mut election = LeaderElection::new(&[NodeId(1), NodeId(2)]);
    assert_eq!(
        election.role(NodeId(9)),
        Err(LeaderElectionError::UnknownNode(NodeId(9)))
    );
    assert_eq!(
        election.start_election(NodeId(9)),
        Err(LeaderElectionError::UnknownNode(NodeId(9)))
    );
    assert_eq!(
        election.grant_vote(NodeId(1), NodeId(9), ElectionTerm(1)),
        Err(LeaderElectionError::UnknownNode(NodeId(9)))
    );
    assert_eq!(
        election.finish_election(NodeId(9)),
        Err(LeaderElectionError::UnknownNode(NodeId(9)))
    );
    assert_eq!(
        election.fail_node(NodeId(9)),
        Err(LeaderElectionError::UnknownNode(NodeId(9)))
    );
    assert!(election.history().is_empty());
}

#[test]
fn repeated_vote_for_the_same_candidate_is_accepted_once() {
    let mut election = LeaderElection::new(&[NodeId(1), NodeId(2), NodeId(3)]);
    election.start_election(NodeId(1)).unwrap();
    election.grant_vote(NodeId(2), NodeId(1), ElectionTerm(1)).unwrap();
    let events = election.history().len();
    assert_eq!(election.grant_vote(NodeId(2), NodeId(1), ElectionTerm(1)), Ok(()));
    assert_eq!(election.history().len(), events);
}

#[test]
fn a_new_election_clears_the_previous_leader() {
    let mut election = LeaderElection::new(&[NodeId(1), NodeId(2), NodeId(3)]);
    election.start_election(NodeId(1)).unwrap();
    election.grant_vote(NodeId(2), NodeId(1), ElectionTerm(1)).unwrap();
    election.finish_election(NodeId(1)).unwrap();
    assert_eq!(election.leader(), Some(NodeId(1)));

    assert_eq!(election.start_election(NodeId(3)), Ok(ElectionTerm(2)));
    assert_eq!(election.leader(), None);
    assert_eq!(
        election.grant_vote(NodeId(2), NodeId(3), ElectionTerm(1)),
        Err(LeaderElectionError::StaleTerm {
            node: NodeId(2),
            current: ElectionTerm(2),
            attempted: ElectionTerm(1),
        })
    );
    election.grant_vote(NodeId(2), NodeId(3), ElectionTerm(2)).unwrap();
    election.finish_election(NodeId(3)).unwrap();
    assert_eq!(election.leader(), Some(NodeId(3)));
    assert_eq!(election.role(NodeId(1)), Ok(LeadershipRole::Follower));
    assert_eq!(
        election.history().last(),
        Some(&ElectionEvent::LeaderElected {
            leader: NodeId(3),
            term: ElectionTerm(2),
        })
    );
}

#[test]
fn unavailable_candidate_at_the_last_term_is_refused() {
    let mut election = LeaderElection::new(&[NodeId(1), NodeId(2)]);
    election
        .grant_vote(NodeId(1), NodeId(2), ElectionTerm(u64::MAX))
        .unwrap();
    election.fail_node(NodeId(1)).unwrap();
    assert_eq!(
        election.start_election(NodeId(1)),
        Err(LeaderElectionError::NodeUnavailable(NodeId(1)))
    );
}
