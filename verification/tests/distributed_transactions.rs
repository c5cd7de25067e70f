use rust_distributed_systems::distributed_transactions::{
    ParticipantId, ParticipantVote, Saga, SagaEvent, SagaOutcome, SagaStep, SagaStepId,
    TransactionDecision, TransactionError, TransactionEvent, TransactionId, TwoPhaseCommit,
};

#[test]
fn two_phase_commit_commits_only_when_all_participants_prepare() {
    let mut coordinator =
        TwoPhaseCommit::from_participants(&[ParticipantId(1), ParticipantId(2), ParticipantId(3)]);

    let decision = coordinator
        .decide(
            TransactionId(100),
            &[
                (ParticipantId(1), ParticipantVote::Prepared),
                (ParticipantId(2), ParticipantVote::Prepared),
                (ParticipantId(3), ParticipantVote::Prepared),
            ],
        )
        .expect("todos los participantes votaron");

    assert_eq!(decision, TransactionDecision::Committed);
    assert_eq!(
        coordinator.decision(TransactionId(100)),
        Some(TransactionDecision::Committed)
    );
}

#[test]
fn two_phase_commit_aborts_when_any_participant_rejects() {
    let mut coordinator =
        TwoPhaseCommit::from_participants(&[ParticipantId(1), ParticipantId(2), ParticipantId(3)]);

    let decision = coordinator
        .decide(
            TransactionId(200),
            &[
                (ParticipantId(1), ParticipantVote::Prepared),
                (ParticipantId(2), ParticipantVote::Abort),
                (ParticipantId(3), ParticipantVote::Prepared),
            ],
        )
        .expect("todos los participantes votaron");

    assert_eq!(decision, TransactionDecision::Aborted);
    assert_eq!(
        coordinator.history().last(),
        Some(&TransactionEvent::TransactionAborted {
            transaction: TransactionId(200),
        })
    );
}

#[test]
fn decided_transactions_are_idempotent() {
    let mut coordinator = TwoPhaseCommit::from_participants(&[ParticipantId(1), ParticipantId(2)]);
    let transaction = TransactionId(300);

    let first = coordinator
        .decide(
            transaction,
            &[
                (ParticipantId(1), ParticipantVote::Prepared),
                (ParticipantId(2), ParticipantVote::Prepared),
            ],
        )
        .unwrap();
    let events_after_first_decision = coordinator.history().len();

    let retry = coordinator
        .decide(
            transaction,
            &[
                (ParticipantId(1), ParticipantVote::Abort),
                (ParticipantId(2), ParticipantVote::Abort),
            ],
        )
        .unwrap();

    assert_eq!(first, TransactionDecision::Committed);
    assert_eq!(retry, TransactionDecision::Committed);
    assert_eq!(coordinator.history().len(), events_after_first_decision);
}

#[test]
fn missing_vote_is_an_explicit_error() {
    let mut coordinator = TwoPhaseCommit::from_participants(&[ParticipantId(1), ParticipantId(2)]);

    assert_eq!(
        coordinator.decide(
            TransactionId(400),
            &[(ParticipantId(1), ParticipantVote::Prepared)]
        ),
        Err(TransactionError::MissingVote {
            transaction: TransactionId(400),
            participant: ParticipantId(2),
        })
    );
}

#[test]
fn successful_saga_applies_each_step_without_compensation() {
    let mut saga = Saga::from_steps(&[
        SagaStep::new(SagaStepId("reservar-asiento"), true),
        SagaStep::new(SagaStepId("cobrar-tarjeta"), true),
        SagaStep::new(SagaStepId("emitir-boleto"), true),
    ]);

    let outcome = saga.run(TransactionId(500));

    assert_eq!(
        outcome,
        SagaOutcome::Applied {
            transaction: TransactionId(500),
            applied: vec![
                SagaStepId("reservar-asiento"),
                SagaStepId("cobrar-tarjeta"),
                SagaStepId("emitir-boleto"),
            ],
        }
    );
    assert!(saga
        .history()
        .iter()
        .all(|event| !matches!(event, SagaEvent::StepCompensated { .. })));
}

#[test]
fn failed_saga_compensates_applied_steps_in_reverse_order() {
    let mut saga = Saga::from_steps(&[
        SagaStep::new(SagaStepId("reservar-asiento"), true),
        SagaStep::new(SagaStepId("cobrar-tarjeta"), true),
        SagaStep::new(SagaStepId("emitir-boleto"), false),
    ]);

    let outcome = saga.run(TransactionId(600));

    assert_eq!(
        outcome,
        SagaOutcome::Compensated {
            transaction: TransactionId(600),
            failed_step: SagaStepId("emitir-boleto"),
            applied: vec![SagaStepId("reservar-asiento"), SagaStepId("cobrar-tarjeta"),],
            compensated: vec![SagaStepId("cobrar-tarjeta"), SagaStepId("reservar-asiento"),],
        }
    );
    assert_eq!(
        saga.compensated_steps(TransactionId(600)),
        [SagaStepId("cobrar-tarjeta"), SagaStepId("reservar-asiento")]
    );
}

#[test]
fn empty_coordinator_can_be_created() {
    assert_eq!(TwoPhaseCommit::new().history(), []);
}

#[test]
fn participants_are_registered_once() {
    let mut coordinator = TwoPhaseCommit::new();

    coordinator.insert_participant(ParticipantId(1));
    coordinator.insert_participant(ParticipantId(1));

    assert_eq!(coordinator.decision(TransactionId(1)), None);
}

#[test]
fn empty_saga_succeeds_without_steps() {
    let mut saga = Saga::new();

    assert!(matches!(
        saga.run(TransactionId(1)),
        SagaOutcome::Applied { applied, .. } if applied.is_empty()
    ));
}

#[test]
fn votes_from_unknown_participants_are_rejected() {
    let mut coordinator = TwoPhaseCommit::from_participants(&[ParticipantId(1), ParticipantId(2)]);
    assert_eq!(
        coordinator.decide(
            TransactionId(7),
            &[
                (ParticipantId(1), ParticipantVote::Prepared),
                (ParticipantId(9), ParticipantVote::Abort),
                (ParticipantId(8), ParticipantVote::Prepared),
            ],
        ),
        Err(TransactionError::UnknownParticipant {
            transaction: TransactionId(7),
            participant: ParticipantId(9),
        })
    );
    assert_eq!(coordinator.decision(TransactionId(7)), None);
    assert!(coordinator.history().is_empty());
}

#[test]
fn unknown_participant_is_reported_before_a_missing_vote() {
    let mut coordinator = TwoPhaseCommit::from_participants(&[ParticipantId(1), ParticipantId(2)]);
    assert_eq!(
        coordinator.decide(TransactionId(8), &[(ParticipantId(5), ParticipantVote::Prepared)]),
        Err(TransactionError::UnknownParticipant {
            transaction: TransactionId(8),
            participant: ParticipantId(5),
        })
    );
    assert_eq!(
        coordinator.decide(TransactionId(8), &[(ParticipantId(2), ParticipantVote::Prepared)]),
        Err(TransactionError::MissingVote {
            transaction: TransactionId(8),
            participant: ParticipantId(1),
        })
    );
}

#[test]
fn the_last_vote_of_a_participant_counts() {
    let mut coordinator = TwoPhaseCommit::from_participants(&[ParticipantId(1)]);
    assert_eq!(
        coordinator.decide(
            TransactionId(1),
            &[
                (ParticipantId(1), ParticipantVote::Abort),
                (ParticipantId(1), ParticipantVote::Prepared),
            ],
        ),
        Ok(TransactionDecision::Committed)
    );
    assert_eq!(
        coordinator.history(),
        &[
            TransactionEvent::ParticipantPrepared {
                transaction: TransactionId(1),
                participant: ParticipantId(1),
            },
            TransactionEvent::TransactionCommitted {
                transaction: TransactionId(1),
            },
        ]
    );
}

#[test]
fn vote_events_follow_participant_order() {
    let mut coordinator =
        TwoPhaseCommit::from_participants(&[ParticipantId(3), ParticipantId(1), ParticipantId(2)]);
    coordinator
        .decide(
            TransactionId(4),
            &[
                (ParticipantId(3), ParticipantVote::Prepared),
                (ParticipantId(1), ParticipantVote::Abort),
                (ParticipantId(2), ParticipantVote::Prepared),
            ],
        )
        .unwrap();
    assert_eq!(
        coordinator.history(),
        &[
            TransactionEvent::ParticipantRejected {
                transaction: TransactionId(4),
                participant: ParticipantId(1),
            },
            TransactionEvent::ParticipantPrepared {
                transaction: TransactionId(4),
                participant: ParticipantId(2),
            },
            TransactionEvent::ParticipantPrepared {
                transaction: TransactionId(4),
                participant: ParticipantId(3),
            },
            TransactionEvent::TransactionAborted {
                transaction: TransactionId(4),
            },
        ]
    );
}

#[test]
fn coordinator_without_participants_commits_an_empty_vote() {
    let mut coordinator = TwoPhaseCommit::new();
    assert_eq!(
        coordinator.decide(TransactionId(2), &[]),
        Ok(TransactionDecision::Committed)
    );
    assert_eq!(
        coordinator.decide(TransactionId(3), &[(ParticipantId(1), ParticipantVote::Prepared)]),
        Err(TransactionError::UnknownParticipant {
            transaction: TransactionId(3),
            participant: ParticipantId(1),
        })
    );
}

#[test]
fn saga_failing_at_the_first_step_compensates_nothing() {
    let mut saga = Saga::from_steps(&[
        SagaStep::new(SagaStepId("reserve"), false),
        SagaStep::new(SagaStepId("charge"), true),
    ]);
    assert_eq!(
        saga.run(TransactionId(1)),
        SagaOutcome::Compensated {
            transaction: TransactionId(1),
            failed_step: SagaStepId("reserve"),
            applied: vec![],
            compensated: vec![],
        }
    );
    assert_eq!(saga.compensated_steps(TransactionId(1)), Vec::<SagaStepId>::new());
    assert_eq!(
        saga.history(),
        &[SagaEvent::StepFailed {
            transaction: TransactionId(1),
            step: SagaStepId("reserve"),
        }]
    );
}

#[test]
fn saga_rerun_returns_the_recorded_outcome_without_new_events() {
    let mut saga = Saga::from_steps(&[
        SagaStep::new(SagaStepId("a"), true),
        SagaStep::new(SagaStepId("b"), true),
        SagaStep::new(SagaStepId("c"), false),
    ]);
    let first = saga.run(TransactionId(5));
    let events = saga.history().len();
    assert_eq!(events, 5);
    assert_eq!(saga.run(TransactionId(5)), first);
    assert_eq!(saga.history().len(), events);
    assert_eq!(
        saga.compensated_steps(TransactionId(5)),
        vec![SagaStepId("b"), SagaStepId("a")]
    );
    assert_eq!(saga.compensated_steps(TransactionId(6)), Vec::<SagaStepId>::new());
}

#[test]
fn saga_steps_added_later_run_in_order() {
    let mut saga = Saga::new();
    saga.push_step(SagaStep::new(SagaStepId("one"), true));
    saga.push_step(SagaStep::new(SagaStepId("two"), true));
    assert_eq!(SagaStep::new(SagaStepId("one"), true).id(), SagaStepId("one"));
    assert_eq!(
        saga.run(TransactionId(9)),
        SagaOutcome::Applied {
            transaction: TransactionId(9),
            applied: vec![SagaStepId("one"), SagaStepId("two")],
        }
    );
}

#[test]
fn a_failed_decide_does_not_fix_the_decision() {
    let mut coordinator = TwoPhaseCommit::from_participants(&[ParticipantId(1)]);
    assert!(coordinator.decide(TransactionId(3), &[]).is_err());
    assert_eq!(coordinator.decision(TransactionId(3)), None);
    assert_eq!(
        coordinator.decide(TransactionId(3), &[(ParticipantId(1), ParticipantVote::Abort)]),
        Ok(TransactionDecision::Aborted)
    );
    assert_eq!(
        coordinator.decide(TransactionId(3), &[(ParticipantId(1), ParticipantVote::Prepared)]),
        Ok(TransactionDecision::Aborted)
    );
    assert_eq!(coordinator.decision(TransactionId(3)), Some(TransactionDecision::Aborted));
}
