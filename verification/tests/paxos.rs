use rust_distributed_systems::paxos::{
    Promise,
    AcceptedProposal, NodeId, PaxosError, PaxosEvent, PaxosRound, ProposalNumber,
};

#[test]
fn prepare_promises_are_monotonic_and_reject_old_proposals() {
    let mut round = PaxosRound::new(&[NodeId(1), NodeId(2), NodeId(3)]);

    let promise = round
        .prepare(NodeId(1), NodeId(2), ProposalNumber(10))
        .expect("el aceptor promete la propuesta más alta observada");

    assert_eq!(promise.acceptor, NodeId(2));
    assert_eq!(promise.proposal, ProposalNumber(10));
    assert_eq!(promise.accepted, None);
    assert_eq!(
        round.prepare(NodeId(3), NodeId(2), ProposalNumber(5)),
        Err(PaxosError::StaleProposal {
            acceptor: NodeId(2),
            promised: ProposalNumber(10),
            attempted: ProposalNumber(5),
        })
    );
}

#[test]
fn acceptors_reject_accept_requests_below_their_promise() {
    let mut round = PaxosRound::new(&[NodeId(1), NodeId(2), NodeId(3)]);

    round
        .prepare(NodeId(1), NodeId(2), ProposalNumber(10))
        .unwrap();

    assert_eq!(
        round.accept(NodeId(2), ProposalNumber(5), "valor-viejo"),
        Err(PaxosError::StaleProposal {
            acceptor: NodeId(2),
            promised: ProposalNumber(10),
            attempted: ProposalNumber(5),
        })
    );
}

#[test]
fn chosen_value_requires_majority_acceptance() {
    let mut round = PaxosRound::new(&[NodeId(1), NodeId(2), NodeId(3)]);
    let proposal = ProposalNumber(10);

    round.prepare(NodeId(1), NodeId(1), proposal).unwrap();
    round.prepare(NodeId(1), NodeId(2), proposal).unwrap();

    round.accept(NodeId(1), proposal, "valor-a").unwrap();
    assert_eq!(round.chosen_value(), None);

    round.accept(NodeId(2), proposal, "valor-a").unwrap();
    assert_eq!(round.chosen_value(), Some("valor-a"));
}

#[test]
fn proposer_adopts_highest_previously_accepted_value() {
    let mut round = PaxosRound::new(&[NodeId(1), NodeId(2), NodeId(3)]);

    round
        .prepare(NodeId(1), NodeId(1), ProposalNumber(1))
        .unwrap();
    round
        .accept(NodeId(1), ProposalNumber(1), "valor-a")
        .unwrap();

    let promises = [
        round
            .prepare(NodeId(2), NodeId(1), ProposalNumber(2))
            .unwrap(),
        round
            .prepare(NodeId(2), NodeId(2), ProposalNumber(2))
            .unwrap(),
        round
            .prepare(NodeId(2), NodeId(3), ProposalNumber(2))
            .unwrap(),
    ];

    assert_eq!(
        promises[0].accepted,
        Some(AcceptedProposal {
            proposal: ProposalNumber(1),
            value: "valor-a".to_string(),
        })
    );
    assert_eq!(PaxosRound::safe_value(&promises, "valor-b"), "valor-a");

    round
        .accept(NodeId(2), ProposalNumber(2), "valor-a")
        .unwrap();
    round
        .accept(NodeId(3), ProposalNumber(2), "valor-a")
        .unwrap();

    assert_eq!(round.chosen_value(), Some("valor-a"));
}

#[test]
fn history_explains_promises_acceptances_and_decision() {
    let mut round = PaxosRound::new(&[NodeId(1), NodeId(2), NodeId(3)]);
    let proposal = ProposalNumber(7);

    round.prepare(NodeId(1), NodeId(1), proposal).unwrap();
    round.prepare(NodeId(1), NodeId(2), proposal).unwrap();
    round.accept(NodeId(1), proposal, "valor-a").unwrap();
    round.accept(NodeId(2), proposal, "valor-a").unwrap();

    assert_eq!(
        round.history(),
        [
            PaxosEvent::PromiseGranted {
                proposer: NodeId(1),
                acceptor: NodeId(1),
                proposal,
            },
            PaxosEvent::PromiseGranted {
                proposer: NodeId(1),
                acceptor: NodeId(2),
                proposal,
            },
            PaxosEvent::Accepted {
                acceptor: NodeId(1),
                proposal,
            },
            PaxosEvent::Accepted {
                acceptor: NodeId(2),
                proposal,
            },
            PaxosEvent::Chosen { proposal },
        ]
    );
}

#[test]
fn paxos_majority_quorum_is_half_plus_one() {
    let three_nodes = PaxosRound::new(&[NodeId(1), NodeId(2), NodeId(3)]);
    let four_nodes = PaxosRound::new(&[NodeId(1), NodeId(2), NodeId(3), NodeId(4)]);

    assert_eq!(three_nodes.quorum_size(), 2);
    assert_eq!(four_nodes.quorum_size(), 3);
}

#[test]
fn a_chosen_round_refuses_other_proposal_numbers() {
    let mut round = PaxosRound::new(&[NodeId(1), NodeId(2), NodeId(3)]);
    round.accept(NodeId(1), ProposalNumber(5), "x").unwrap();
    round.accept(NodeId(2), ProposalNumber(5), "x").unwrap();
    assert_eq!(round.chosen_value(), Some("x"));

    assert_eq!(
        round.accept(NodeId(3), ProposalNumber(9), "y"),
        Err(PaxosError::AlreadyChosen {
            chosen: ProposalNumber(5),
            attempted: ProposalNumber(9),
        })
    );
    // The chosen proposal number may still reach the remaining acceptor.
    assert_eq!(round.accept(NodeId(3), ProposalNumber(5), "x"), Ok(()));
    assert_eq!(round.chosen_value(), Some("x"));
    assert_eq!(
        round.history().last(),
        Some(&PaxosEvent::Accepted {
            acceptor: NodeId(3),
            proposal: ProposalNumber(5),
        })
    );
}

#[test]
fn unknown_proposers_and_acceptors_are_rejected() {
    let mut round = PaxosRound::new(&[NodeId(1), NodeId(2)]);
    assert_eq!(
        round.prepare(NodeId(8), NodeId(1), ProposalNumber(1)),
        Err(PaxosError::UnknownNode(NodeId(8)))
    );
    assert_eq!(
        round.prepare(NodeId(1), NodeId(8), ProposalNumber(1)),
        Err(PaxosError::UnknownNode(NodeId(8)))
    );
    assert_eq!(
        round.accept(NodeId(8), ProposalNumber(1), "v"),
        Err(PaxosError::UnknownNode(NodeId(8)))
    );
    assert!(round.history().is_empty());
}

#[test]
fn equal_proposal_numbers_are_not_stale() {
    let mut round = PaxosRound::new(&[NodeId(1), NodeId(2), NodeId(3)]);
    round.prepare(NodeId(1), NodeId(2), ProposalNumber(4)).unwrap();
    let promise = round.prepare(NodeId(3), NodeId(2), ProposalNumber(4)).unwrap();
    assert_eq!(
        promise,
        Promise {
            acceptor: NodeId(2),
            proposal: ProposalNumber(4),
            accepted: None,
        }
    );
    round.accept(NodeId(2), ProposalNumber(4), "v").unwrap();
    let promise = round.prepare(NodeId(1), NodeId(2), ProposalNumber(6)).unwrap();
    assert_eq!(
        promise.accepted,
        Some(AcceptedProposal {
            proposal: ProposalNumber(4),
            value: "v".to_string(),
        })
    );
}

#[test]
fn acceptances_of_different_values_do_not_add_up() {
    let mut round = PaxosRound::new(&[NodeId(1), NodeId(2), NodeId(3)]);
    round.accept(NodeId(1), ProposalNumber(3), "a").unwrap();
    round.accept(NodeId(2), ProposalNumber(3), "b").unwrap();
    assert_eq!(round.chosen_value(), None);
    round.accept(NodeId(3), ProposalNumber(3), "b").unwrap();
    assert_eq!(round.chosen_value(), Some("b"));
}

#[test]
fn safe_value_falls_back_to_the_preferred_value() {
    assert_eq!(PaxosRound::safe_value(&[], "mine"), "mine");
    let empty = [Promise {
        acceptor: NodeId(1),
        proposal: ProposalNumber(2),
        accepted: None,
    }];
    assert_eq!(PaxosRound::safe_value(&empty, "mine"), "mine");
}

#[test]
fn safe_value_takes_the_last_of_equally_numbered_acceptances() {
    let promises = [
        Promise {
            acceptor: NodeId(1),
            proposal: ProposalNumber(9),
            accepted: Some(AcceptedProposal {
                proposal: ProposalNumber(4),
                value: "first".to_string(),
            }),
        },
        Promise {
            acceptor: NodeId(2),
            proposal: ProposalNumber(9),
            accepted: Some(AcceptedProposal {
                proposal: ProposalNumber(7),
                value: "high".to_string(),
            }),
        },
        Promise {
            acceptor: NodeId(3),
            proposal: ProposalNumber(9),
            accepted: Some(AcceptedProposal {
                proposal: ProposalNumber(7),
                value: "high-later".to_string(),
            }),
        },
    ];
    assert_eq!(PaxosRound::safe_value(&promises, "mine"), "high-later");
}
