use rust_distributed_systems::consensus::{
    ConsensusError, ConsensusEvent, ConsensusRound, NodeId, ProposalId,
};

#[test]
fn decides_value_when_majority_accepts_it() {
    let mut round = ConsensusRound::new(&[NodeId(1), NodeId(2), NodeId(3)]);

    round.propose(NodeId(1), ProposalId(10), "activar-configuracion-a");
    assert_eq!(round.decided_value(), None);

    round
        .accept(NodeId(1), ProposalId(10))
        .expect("el proponente es parte del grupo");
    assert_eq!(round.decided_value(), None);

    round
        .accept(NodeId(2), ProposalId(10))
        .expect("dos votos alcanzan mayoría en tres nodos");

    assert_eq!(round.decided_value(), Some("activar-configuracion-a"));
}

#[test]
fn rejects_unknown_nodes() {
    let mut round = ConsensusRound::new(&[NodeId(1), NodeId(2), NodeId(3)]);

    round.propose(NodeId(1), ProposalId(10), "valor-a");

    assert_eq!(
        round.accept(NodeId(99), ProposalId(10)),
        Err(ConsensusError::UnknownNode(NodeId(99)))
    );
}

#[test]
fn a_node_cannot_accept_two_incompatible_values_in_the_same_round() {
    let mut round = ConsensusRound::new(&[NodeId(1), NodeId(2), NodeId(3)]);

    round.propose(NodeId(1), ProposalId(10), "valor-a");
    round.propose(NodeId(2), ProposalId(20), "valor-b");

    round
        .accept(NodeId(1), ProposalId(10))
        .expect("primer voto válido");

    assert_eq!(
        round.accept(NodeId(1), ProposalId(20)),
        Err(ConsensusError::ConflictingAcceptance {
            node: NodeId(1),
            accepted: ProposalId(10),
            attempted: ProposalId(20),
        })
    );
}

#[test]
fn failed_nodes_cannot_accept_messages_until_they_recover() {
    let mut round = ConsensusRound::new(&[NodeId(1), NodeId(2), NodeId(3)]);

    round.propose(NodeId(1), ProposalId(10), "valor-a");
    round.fail_node(NodeId(2)).expect("nodo conocido");

    assert_eq!(
        round.accept(NodeId(2), ProposalId(10)),
        Err(ConsensusError::NodeUnavailable(NodeId(2)))
    );

    round.recover_node(NodeId(2)).expect("nodo conocido");
    round
        .accept(NodeId(2), ProposalId(10))
        .expect("el nodo recuperado vuelve a votar");
}

#[test]
fn history_explains_the_decision() {
    let mut round = ConsensusRound::new(&[NodeId(1), NodeId(2), NodeId(3)]);

    round.propose(NodeId(1), ProposalId(10), "valor-a");
    round.accept(NodeId(1), ProposalId(10)).unwrap();
    round.accept(NodeId(2), ProposalId(10)).unwrap();

    assert_eq!(
        round.history(),
        [
            ConsensusEvent::Proposed {
                proposer: NodeId(1),
                proposal: ProposalId(10),
            },
            ConsensusEvent::Accepted {
                node: NodeId(1),
                proposal: ProposalId(10),
            },
            ConsensusEvent::Accepted {
                node: NodeId(2),
                proposal: ProposalId(10),
            },
            ConsensusEvent::Decided {
                proposal: ProposalId(10),
            },
        ]
    );
}

#[test]
fn consensus_majority_quorum_is_half_plus_one() {
    let three_nodes = ConsensusRound::new(&[NodeId(1), NodeId(2), NodeId(3)]);
    let four_nodes = ConsensusRound::new(&[NodeId(1), NodeId(2), NodeId(3), NodeId(4)]);

    assert_eq!(three_nodes.quorum_size(), 2);
    assert_eq!(four_nodes.quorum_size(), 3);
}

#[test]
fn unknown_proposal_is_rejected_without_recording_a_vote() {
    let mut round = ConsensusRound::new(&[NodeId(1), NodeId(2), NodeId(3)]);
    round.propose(NodeId(1), ProposalId(10), "a");

    assert_eq!(
        round.accept(NodeId(2), ProposalId(99)),
        Err(ConsensusError::UnknownProposal(ProposalId(99)))
    );
    assert_eq!(
        round.history(),
        &[ConsensusEvent::Proposed {
            proposer: NodeId(1),
            proposal: ProposalId(10),
        }]
    );
}

#[test]
fn a_decided_round_refuses_another_proposal() {
    let mut round = ConsensusRound::new(&[NodeId(1), NodeId(2), NodeId(3)]);
    round.propose(NodeId(1), ProposalId(10), "a");
    round.propose(NodeId(3), ProposalId(20), "b");
    round.accept(NodeId(1), ProposalId(10)).unwrap();
    round.accept(NodeId(2), ProposalId(10)).unwrap();
    assert_eq!(round.decided_value(), Some("a"));

    assert_eq!(
        round.accept(NodeId(3), ProposalId(20)),
        Err(ConsensusError::AlreadyDecided {
            decided: ProposalId(10),
            attempted: ProposalId(20),
        })
    );
    // The decided proposal still gathers late votes, and the decision stays.
    assert_eq!(round.accept(NodeId(3), ProposalId(10)), Ok(()));
    assert_eq!(round.decided_value(), Some("a"));
    assert_eq!(
        round.history().last(),
        Some(&ConsensusEvent::Accepted {
            node: NodeId(3),
            proposal: ProposalId(10),
        })
    );
}

#[test]
fn accepting_the_same_proposal_twice_is_idempotent() {
    let mut round = ConsensusRound::new(&[NodeId(1), NodeId(2), NodeId(3)]);
    round.propose(NodeId(1), ProposalId(10), "a");
    round.accept(NodeId(1), ProposalId(10)).unwrap();
    let events = round.history().len();

    assert_eq!(round.accept(NodeId(1), ProposalId(10)), Ok(()));
    assert_eq!(round.history().len(), events);
    assert_eq!(round.decided_value(), None);
}

#[test]
fn failing_or_recovering_an_unknown_node_is_an_error() {
    let mut round = ConsensusRound::new(&[NodeId(1)]);
    assert_eq!(
        round.fail_node(NodeId(7)),
        Err(ConsensusError::UnknownNode(NodeId(7)))
    );
    assert_eq!(
        round.recover_node(NodeId(7)),
        Err(ConsensusError::UnknownNode(NodeId(7)))
    );
    assert!(round.history().is_empty());
}

#[test]
fn single_node_round_decides_on_its_own_vote() {
    let mut round = ConsensusRound::new(&[NodeId(4)]);
    assert_eq!(round.quorum_size(), 1);
    round.propose(NodeId(4), ProposalId(1), "solo");
    round.accept(NodeId(4), ProposalId(1)).unwrap();
    assert_eq!(round.decided_value(), Some("solo"));
    assert_eq!(
        round.history(),
        &[
            ConsensusEvent::Proposed {
                proposer: NodeId(4),
                proposal: ProposalId(1),
            },
            ConsensusEvent::Accepted {
                node: NodeId(4),
                proposal: ProposalId(1),
            },
            ConsensusEvent::Decided {
                proposal: ProposalId(1),
            },
        ]
    );
}

#[test]
fn duplicate_node_ids_count_once_for_the_quorum() {
    let round = ConsensusRound::new(&[NodeId(1), NodeId(1), NodeId(2), NodeId(3), NodeId(4)]);
    assert_eq!(round.quorum_size(), 3);
}
