//! Two-phase commit, sagas and idempotence by stable identity.
//!
//! The coordinator decides a transaction once; retrying a decided
//! transaction hands back the same decision and records nothing new. A saga
//! applies its steps in order and, on the first failure, compensates the
//! steps already applied in reverse order.

use vstd::prelude::*;
use crate::id_map::{IdMap, IdSet};

verus! {

/// Stable identifier of a logical transaction.
#[derive(Clone, Copy, Debug, PartialEq, Eq, PartialOrd, Ord, Hash)]
pub struct TransactionId(pub u64);

/// Stable identifier of a participant.
#[derive(Clone, Copy, Debug, PartialEq, Eq, PartialOrd, Ord, Hash)]
pub struct ParticipantId(pub u64);

/// Prepare vote of a participant in two-phase commit.
#[derive(Clone, Copy, Debug, PartialEq, Eq)]
pub enum ParticipantVote {
    /// The participant can commit if the coordinator decides so.
    Prepared,
    /// The participant cannot commit and forces an abort.
    Abort,
}

/// Final decision of two-phase commit.
#[derive(Clone, Copy, Debug, PartialEq, Eq)]
pub enum TransactionDecision {
    /// Every participant prepared; the transaction commits.
    Committed,
    /// Some participant refused; the transaction aborts.
    Aborted,
}

/// Explicit error of the coordinator.
#[derive(Clone, Copy, Debug, PartialEq, Eq)]
pub enum TransactionError {
    /// A vote came from a participant the coordinator does not know.
    UnknownParticipant {
        /// Transaction being decided.
        transaction: TransactionId,
        /// Unknown participant.
        participant: ParticipantId,
    },
    /// A known participant did not vote.
    MissingVote {
        /// Transaction being decided.
        transaction: TransactionId,
        /// Participant without a vote.
        participant: ParticipantId,
    },
}

/// Observable event of two-phase commit.
#[derive(Clone, Copy, Debug, PartialEq, Eq)]
pub enum TransactionEvent {
    /// A participant voted prepared.
    ParticipantPrepared {
        /// Transaction being decided.
        transaction: TransactionId,
        /// Participant that prepared.
        participant: ParticipantId,
    },
    /// A participant voted to abort.
    ParticipantRejected {
        /// Transaction being decided.
        transaction: TransactionId,
        /// Participant that refused.
        participant: ParticipantId,
    },
    /// The transaction committed.
    TransactionCommitted {
        /// Committed transaction.
        transaction: TransactionId,
    },
    /// The transaction aborted.
    TransactionAborted {
        /// Aborted transaction.
        transaction: TransactionId,
    },
}

/// The vote that counts for participant `p`: the last one it cast in `votes`.
pub open spec fn last_vote(votes: Seq<(ParticipantId, ParticipantVote)>, p: u64) -> Option<
    ParticipantVote,
>
    decreases votes.len(),
{
    if votes.len() == 0 {
        None
    } else if votes.last().0.0 == p {
        Some(votes.last().1)
    } else {
        last_vote(votes.drop_last(), p)
    }
}

/// Every vote comes from a known participant.
pub open spec fn all_voters_known(votes: Seq<(ParticipantId, ParticipantVote)>, participants: Set<
    u64,
>) -> bool {
    forall|i: int| 0 <= i < votes.len() ==> participants.contains(#[trigger] votes[i].0.0)
}

/// The event recorded for participant `p` once every vote is in.
pub open spec fn vote_event(
    transaction: TransactionId,
    votes: Seq<(ParticipantId, ParticipantVote)>,
    p: u64,
) -> TransactionEvent {
    if last_vote(votes, p) == Some(ParticipantVote::Prepared) {
        TransactionEvent::ParticipantPrepared { transaction, participant: ParticipantId(p) }
    } else {
        TransactionEvent::ParticipantRejected { transaction, participant: ParticipantId(p) }
    }
}

/// The decision owed once every known participant voted: commit exactly when
/// each one's vote is `Prepared`.
pub open spec fn decision_for(votes: Seq<(ParticipantId, ParticipantVote)>, participants: Set<u64>) -> TransactionDecision {
    if forall|p: u64| participants.contains(p) ==> last_vote(votes, p) == Some(ParticipantVote::Prepared) {
        TransactionDecision::Committed
    } else {
        TransactionDecision::Aborted
    }
}

/// The closing event of a decision.
pub open spec fn decision_event(transaction: TransactionId, d: TransactionDecision) -> TransactionEvent {
    match d {
        TransactionDecision::Committed => TransactionEvent::TransactionCommitted { transaction },
        TransactionDecision::Aborted => TransactionEvent::TransactionAborted { transaction },
    }
}

proof fn lemma_last_vote_push(votes: Seq<(ParticipantId, ParticipantVote)>, x: (ParticipantId, ParticipantVote), p: u64)
    ensures
        last_vote(votes.push(x), p) == if x.0.0 == p { Some(x.1) } else { last_vote(votes, p) },
{
    assert(votes.push(x).drop_last() == votes);
}

/// How one call of `decide` on transaction `t`, returning `r`, changes the
/// record of decisions: a decided transaction keeps its decision and the
/// call returns it; otherwise a success records its decision and a failure
/// records nothing.
pub open spec fn decide_step(
    before: Map<u64, TransactionDecision>,
    after: Map<u64, TransactionDecision>,
    t: u64,
    r: Result<TransactionDecision, TransactionError>,
) -> bool {
    if before.contains_key(t) {
        r == Ok::<TransactionDecision, TransactionError>(before[t]) && after == before
    } else {
        match r {
            Ok(d) => after == before.insert(t, d),
            Err(_) => after == before,
        }
    }
}

proof fn lemma_decisions_prefix(
    records: Seq<Map<u64, TransactionDecision>>,
    calls: Seq<(u64, Result<TransactionDecision, TransactionError>)>,
    n: int,
)
    requires
        records.len() == calls.len() + 1,
        records[0] == Map::<u64, TransactionDecision>::empty(),
        forall|i: int| 0 <= i < calls.len() ==> decide_step(#[trigger] records[i], records[i + 1], calls[i].0, calls[i].1),
        0 <= n <= calls.len(),
    ensures
        forall|t: u64| #[trigger] records[n].contains_key(t) <==> exists|i: int|
            0 <= i < n && (#[trigger] calls[i]).0 == t && calls[i].1 is Ok,
        forall|i: int| 0 <= i < n && (#[trigger] calls[i]).1 is Ok ==> records[n].contains_key(calls[i].0)
            && calls[i].1 == Ok::<TransactionDecision, TransactionError>(records[n][calls[i].0]),
    decreases n,
{
    if n > 0 {
        lemma_decisions_prefix(records, calls, n - 1);
        let before = records[n - 1];
        let after = records[n];
        let (t, r) = calls[n - 1];
        assert(decide_step(records[n - 1], records[n], calls[n - 1].0, calls[n - 1].1));
        assert forall|k: u64| #[trigger] after.contains_key(k) <==> exists|i: int|
            0 <= i < n && (#[trigger] calls[i]).0 == k && calls[i].1 is Ok by {
            if before.contains_key(k) {
                let i = choose|i: int| 0 <= i < n - 1 && (#[trigger] calls[i]).0 == k && calls[i].1 is Ok;
                assert(0 <= i < n);
            }
            if k == t && r is Ok {
                assert(calls[n - 1].0 == k && calls[n - 1].1 is Ok);
            }
            if exists|i: int| 0 <= i < n && (#[trigger] calls[i]).0 == k && calls[i].1 is Ok {
                let i = choose|i: int| 0 <= i < n && (#[trigger] calls[i]).0 == k && calls[i].1 is Ok;
                if i < n - 1 {
                    assert(before.contains_key(k));
                }
            }
        }
    }
}

/// Law: over any run of `decide` calls on a coordinator that starts without
/// decisions (whatever other calls come between them, none of which touches
/// the decisions), a transaction ends up decided exactly when some call for
/// it succeeded, and every successful call for it, the first one included,
/// returned the decision that stays recorded.
pub proof fn lemma_decisions_are_first_successes(
    records: Seq<Map<u64, TransactionDecision>>,
    calls: Seq<(u64, Result<TransactionDecision, TransactionError>)>,
)
    requires
        records.len() == calls.len() + 1,
        records[0] == Map::<u64, TransactionDecision>::empty(),
        forall|i: int| 0 <= i < calls.len() ==> decide_step(#[trigger] records[i], records[i + 1], calls[i].0, calls[i].1),
    ensures
        forall|t: u64| #[trigger] records.last().contains_key(t) <==> exists|i: int|
            0 <= i < calls.len() && (#[trigger] calls[i]).0 == t && calls[i].1 is Ok,
        forall|i: int| 0 <= i < calls.len() && (#[trigger] calls[i]).1 is Ok ==> calls[i].1
            == Ok::<TransactionDecision, TransactionError>(records.last()[calls[i].0]),
{
    lemma_decisions_prefix(records, calls, calls.len() as int);
}

/// Deterministic two-phase commit coordinator.
#[derive(Clone, Debug, PartialEq, Eq)]
pub struct TwoPhaseCommit {
    participants: IdSet,
    decisions: IdMap<TransactionDecision>,
    history: Vec<TransactionEvent>,
}

impl TwoPhaseCommit {
    /// The known participants.
    pub closed spec fn participants_view(&self) -> Set<u64> {
        self.participants@
    }

    /// The known participants in ascending order.
    pub closed spec fn participant_seq(&self) -> Seq<u64> {
        self.participants.elem_seq()
    }

    /// The decisions taken so far, by transaction.
    pub closed spec fn decisions_view(&self) -> Map<u64, TransactionDecision> {
        self.decisions@
    }

    /// The recorded events.
    pub closed spec fn history_view(&self) -> Seq<TransactionEvent> {
        self.history@
    }

    /// The coordinator's internal structures are well formed.
    pub closed spec fn wf(&self) -> bool {
        self.participants.inv() && self.decisions.inv()
    }

    /// Facts that the well-formedness gives callers.
    pub proof fn lemma_wf(&self)
        requires
            self.wf(),
        ensures
            crate::id_map::strictly_increasing(self.participant_seq()),
            self.participant_seq().to_set() == self.participants_view(),
            self.participants_view().finite(),
    {
        assert(self.participant_seq().to_set() =~= self.participants_view());
    }

    /// A coordinator without participants.
    pub fn new() -> (c: Self)
        ensures
            c.wf(),
            c.participants_view() == Set::<u64>::empty(),
            c.decisions_view() == Map::<u64, TransactionDecision>::empty(),
            c.history_view() == Seq::<TransactionEvent>::empty(),
    {
        TwoPhaseCommit { participants: IdSet::new(), decisions: IdMap::new(), history: Vec::new() }
    }

    /// A coordinator with the given participants.
    pub fn from_participants(participants: &[ParticipantId]) -> (c: Self)
        ensures
            c.wf(),
            c.participants_view() == participants@.map_values(|p: ParticipantId| p.0).to_set(),
            c.decisions_view() == Map::<u64, TransactionDecision>::empty(),
            c.history_view() == Seq::<TransactionEvent>::empty(),
    {
        let mut coordinator = Self::new();
        let mut i: usize = 0;
        while i < participants.len()
            invariant
                i <= participants@.len(),
                coordinator.wf(),
                coordinator.participants_view() == participants@.take(i as int).map_values(
                    |p: ParticipantId| p.0,
                ).to_set(),
                coordinator.decisions_view() == Map::<u64, TransactionDecision>::empty(),
                coordinator.history_view() == Seq::<TransactionEvent>::empty(),
            decreases participants@.len() - i,
        {
            coordinator.insert_participant(participants[i]);
            proof {
                assert(participants@.take(i + 1).map_values(|p: ParticipantId| p.0)
                    == participants@.take(i as int).map_values(|p: ParticipantId| p.0).push(
                    participants@[i as int].0,
                ));
                participants@.take(i as int).map_values(|p: ParticipantId| p.0).lemma_push_to_set_commute(
                    participants@[i as int].0,
                );
            }
            i = i + 1;
        }
        proof {
            assert(participants@.take(i as int) == participants@);
        }
        coordinator
    }

    /// Registers a participant; registering it twice changes nothing.
    pub fn insert_participant(&mut self, participant: ParticipantId)
        requires
            old(self).wf(),
        ensures
            final(self).wf(),
            final(self).participants_view() == old(self).participants_view().insert(participant.0),
            final(self).decisions_view() == old(self).decisions_view(),
            final(self).history_view() == old(self).history_view(),
    {
        self.participants.insert(participant.0);
    }

    /// The recorded events.
    pub fn history(&self) -> (h: &[TransactionEvent])
        ensures
            h@ == self.history_view(),
    {
        self.history.as_slice()
    }

    /// The decision already taken for a transaction, if any.
    pub fn decision(&self, transaction: TransactionId) -> (d: Option<TransactionDecision>)
        requires
            self.wf(),
        ensures
            d == if self.decisions_view().contains_key(transaction.0) {
                Some(self.decisions_view()[transaction.0])
            } else {
                None
            },
    {
        match self.decisions.get(transaction.0) {
            Some(d) => Some(*d),
            None => None,
        }
    }

    /// Decides a transaction from the participants' prepare votes.
    ///
    /// A transaction already decided keeps its decision and records nothing
    /// new. Otherwise every vote must come from a known participant (the
    /// first unknown voter is reported) and every participant must have
    /// voted (the lowest participant without a vote is reported). The last
    /// vote of each participant counts; the transaction commits exactly when
    /// all of them are `Prepared`.
    pub fn decide(
        &mut self,
        transaction: TransactionId,
        votes: &[(ParticipantId, ParticipantVote)],
    ) -> (r: Result<TransactionDecision, TransactionError>)
        requires
            old(self).wf(),
        ensures
            final(self).wf(),
            final(self).participants_view() == old(self).participants_view(),
            decide_step(old(self).decisions_view(), final(self).decisions_view(), transaction.0, r),
            old(self).decisions_view().contains_key(transaction.0) ==> {
                &&& r == Ok::<TransactionDecision, TransactionError>(
                    old(self).decisions_view()[transaction.0],
                )
                &&& final(self).decisions_view() == old(self).decisions_view()
                &&& final(self).history_view() == old(self).history_view()
            },
            !old(self).decisions_view().contains_key(transaction.0) ==> match r {
                Ok(d) => {
                    &&& all_voters_known(votes@, old(self).participants_view())
                    &&& forall|p: u64|
                        old(self).participants_view().contains(p) ==> last_vote(votes@, p) is Some
                    &&& d == decision_for(votes@, old(self).participants_view())
                    &&& final(self).decisions_view() == old(self).decisions_view().insert(
                        transaction.0,
                        d,
                    )
                    &&& final(self).history_view() == old(self).history_view() + old(
                        self,
                    ).participant_seq().map_values(|p: u64| vote_event(transaction, votes@, p)).push(
                        decision_event(transaction, d),
                    )
                },
                Err(TransactionError::UnknownParticipant { transaction: t, participant }) => {
                    &&& t == transaction
                    &&& exists|i: int|
                        0 <= i < votes@.len() && votes@[i].0 == participant
                            && !old(self).participants_view().contains(participant.0)
                            && all_voters_known(votes@.take(i), old(self).participants_view())
                    &&& final(self).decisions_view() == old(self).decisions_view()
                    &&& final(self).history_view() == old(self).history_view()
                },
                Err(TransactionError::MissingVote { transaction: t, participant }) => {
                    &&& t == transaction
                    &&& all_voters_known(votes@, old(self).participants_view())
                    &&& old(self).participants_view().contains(participant.0)
                    &&& last_vote(votes@, participant.0) is None
                    &&& forall|p: u64|
                        old(self).participants_view().contains(p) && p < participant.0
                            ==> last_vote(votes@, p) is Some
                    &&& final(self).decisions_view() == old(self).decisions_view()
                    &&& final(self).history_view() == old(self).history_view()
                },
            },
    {
        if let Some(decision) = self.decision(transaction) {
            return Ok(decision);
        }
        let mut by_participant: IdMap<ParticipantVote> = IdMap::new();
        let mut i: usize = 0;
        while i < votes.len()
            invariant
                i <= votes@.len(),
                self.wf(),
                *self == *old(self),
                !self.decisions_view().contains_key(transaction.0),
                by_participant.inv(),
                all_voters_known(votes@.take(i as int), self.participants_view()),
                forall|p: u64|
                    #![trigger by_participant@.contains_key(p)]
                    (by_participant@.contains_key(p) <==> last_vote(votes@.take(i as int), p) is Some)
                        && (by_participant@.contains_key(p) ==> last_vote(votes@.take(i as int), p)
                        == Some(by_participant@[p])),
            decreases votes@.len() - i,
        {
            let (participant, vote) = votes[i];
            proof {
                assert(votes@.take(i + 1) == votes@.take(i as int).push(votes@[i as int]));
                assert forall|p: u64| true implies last_vote(votes@.take(i + 1), p) == if votes@[i as int].0.0 == p {
                    Some(votes@[i as int].1)
                } else {
                    last_vote(votes@.take(i as int), p)
                } by {
                    lemma_last_vote_push(votes@.take(i as int), votes@[i as int], p);
                }
            }
            if !self.participants.contains(participant.0) {
                return Err(TransactionError::UnknownParticipant { transaction, participant });
            }
            by_participant.insert(participant.0, vote);
            i = i + 1;
        }
        proof {
            assert(votes@.take(i as int) == votes@);
        }
        let n = self.participants.len();
        let mut j: usize = 0;
        while j < n
            invariant
                j <= n,
                n == self.participant_seq().len(),
                self.wf(),
                *self == *old(self),
                !self.decisions_view().contains_key(transaction.0),
                all_voters_known(votes@, self.participants_view()),
                by_participant.inv(),
                forall|p: u64|
                    #![trigger by_participant@.contains_key(p)]
                    (by_participant@.contains_key(p) <==> last_vote(votes@, p) is Some)
                        && (by_participant@.contains_key(p) ==> last_vote(votes@, p) == Some(
                        by_participant@[p],
                    )),
                forall|k: int| 0 <= k < j ==> last_vote(votes@, #[trigger] self.participant_seq()[k]) is Some,
            decreases n - j,
        {
            let participant = self.participants.at(j);
            if !by_participant.contains_key(participant) {
                proof {
                    self.lemma_wf();
                    assert forall|p: u64|
                        self.participants_view().contains(p) && p < participant implies last_vote(
                        votes@,
                        p,
                    ) is Some by {
                        assert(self.participant_seq().to_set().contains(p));
                        let k = choose|k: int| 0 <= k < self.participant_seq().len() && self.participant_seq()[k] == p;
                        if k >= j {
                            assert(self.participant_seq()[k] >= participant);
                        }
                    }
                    assert(self.participant_seq().to_set().contains(participant));
                }
                return Err(
                    TransactionError::MissingVote {
                        transaction,
                        participant: ParticipantId(participant),
                    },
                );
            }
            j = j + 1;
        }
        let ghost start = self.history@;
        let mut decision = TransactionDecision::Committed;
        let mut k: usize = 0;
        while k < n
            invariant
                k <= n,
                n == self.participant_seq().len(),
                self.wf(),
                old(self).participants_view() == self.participants_view(),
                old(self).participant_seq() == self.participant_seq(),
                old(self).decisions_view() == self.decisions_view(),
                !self.decisions_view().contains_key(transaction.0),
                all_voters_known(votes@, self.participants_view()),
                start == old(self).history_view(),
                by_participant.inv(),
                forall|p: u64|
                    #![trigger by_participant@.contains_key(p)]
                    (by_participant@.contains_key(p) <==> last_vote(votes@, p) is Some)
                        && (by_participant@.contains_key(p) ==> last_vote(votes@, p) == Some(
                        by_participant@[p],
                    )),
                forall|m: int| 0 <= m < n ==> last_vote(votes@, #[trigger] self.participant_seq()[m]) is Some,
                self.history@ == start + self.participant_seq().take(k as int).map_values(
                    |p: u64| vote_event(transaction, votes@, p),
                ),
                decision == (if forall|m: int|
                    0 <= m < k ==> last_vote(votes@, #[trigger] self.participant_seq()[m]) == Some(
                        ParticipantVote::Prepared,
                    ) {
                    TransactionDecision::Committed
                } else {
                    TransactionDecision::Aborted
                }),
            decreases n - k,
        {
            let participant = self.participants.at(k);
            let vote = *by_participant.get(participant).unwrap();
            match vote {
                ParticipantVote::Prepared => {
                    self.history.push(
                        TransactionEvent::ParticipantPrepared {
                            transaction,
                            participant: ParticipantId(participant),
                        },
                    );
                },
                ParticipantVote::Abort => {
                    decision = TransactionDecision::Aborted;
                    self.history.push(
                        TransactionEvent::ParticipantRejected {
                            transaction,
                            participant: ParticipantId(participant),
                        },
                    );
                },
            }
            proof {
                assert(self.participant_seq().take(k + 1) == self.participant_seq().take(
                    k as int,
                ).push(participant));
            }
            k = k + 1;
        }
        proof {
            self.lemma_wf();
            assert(self.participant_seq().take(n as int) == self.participant_seq());
            assert((forall|m: int|
                0 <= m < n ==> last_vote(votes@, #[trigger] self.participant_seq()[m]) == Some(
                    ParticipantVote::Prepared,
                )) == (forall|p: u64|
                self.participants_view().contains(p) ==> last_vote(votes@, p) == Some(
                    ParticipantVote::Prepared,
                ))) by {
                if forall|m: int|
                    0 <= m < n ==> last_vote(votes@, #[trigger] self.participant_seq()[m]) == Some(
                        ParticipantVote::Prepared,
                    ) {
                    assert forall|p: u64| self.participants_view().contains(p) implies last_vote(
                        votes@,
                        p,
                    ) == Some(ParticipantVote::Prepared) by {
                        assert(self.participant_seq().to_set().contains(p));
                    }
                }
            }
            assert forall|p: u64| self.participants_view().contains(p) implies last_vote(
                votes@,
                p,
            ) is Some by {
                assert(self.participant_seq().to_set().contains(p));
            }
        }
        match decision {
            TransactionDecision::Committed => {
                self.history.push(TransactionEvent::TransactionCommitted { transaction });
            },
            TransactionDecision::Aborted => {
                self.history.push(TransactionEvent::TransactionAborted { transaction });
            },
        }
        self.decisions.insert(transaction.0, decision);
        Ok(decision)
    }
}

/// Stable identifier of a saga step.
#[derive(Clone, Copy, Debug, PartialEq, Eq, PartialOrd, Ord, Hash)]
pub struct SagaStepId(pub &'static str);

/// A saga step whose outcome is fixed in advance.
#[derive(Clone, Copy, Debug, PartialEq, Eq)]
pub struct SagaStep {
    id: SagaStepId,
    succeeds: bool,
}

impl SagaStep {
    /// Identity of the step.
    pub closed spec fn step_id(&self) -> SagaStepId {
        self.id
    }

    /// Whether the step succeeds when applied.
    pub closed spec fn will_succeed(&self) -> bool {
        self.succeeds
    }

    /// A step with a fixed outcome.
    pub fn new(id: SagaStepId, succeeds: bool) -> (s: Self)
        ensures
            s.step_id() == id,
            s.will_succeed() == succeeds,
    {
        SagaStep { id, succeeds }
    }

    /// Identity of the step.
    pub fn id(&self) -> (id: SagaStepId)
        ensures
            id == self.step_id(),
    {
        self.id
    }
}

/// Observable result of running a saga.
#[derive(Clone, Debug, PartialEq, Eq)]
pub enum SagaOutcome {
    /// Every step was applied.
    Applied {
        /// The transaction run.
        transaction: TransactionId,
        /// The applied steps, in order.
        applied: Vec<SagaStepId>,
    },
    /// A step failed and the steps applied before it were compensated.
    Compensated {
        /// The transaction run.
        transaction: TransactionId,
        /// The step that failed.
        failed_step: SagaStepId,
        /// The steps applied before the failure.
        applied: Vec<SagaStepId>,
        /// The compensated steps, in compensation order.
        compensated: Vec<SagaStepId>,
    },
}

/// Mathematical value of a [`SagaOutcome`].
pub enum SagaOutcomeView {
    /// Every step was applied.
    Applied { transaction: TransactionId, applied: Seq<SagaStepId> },
    /// A step failed and the earlier ones were compensated.
    Compensated {
        transaction: TransactionId,
        failed_step: SagaStepId,
        applied: Seq<SagaStepId>,
        compensated: Seq<SagaStepId>,
    },
}

impl View for SagaOutcome {
    type V = SagaOutcomeView;

    open spec fn view(&self) -> SagaOutcomeView {
        match self {
            SagaOutcome::Applied { transaction, applied } => SagaOutcomeView::Applied {
                transaction: *transaction,
                applied: applied@,
            },
            SagaOutcome::Compensated { transaction, failed_step, applied, compensated } =>
                SagaOutcomeView::Compensated {
                transaction: *transaction,
                failed_step: *failed_step,
                applied: applied@,
                compensated: compensated@,
            },
        }
    }
}

fn copy_ids(ids: &Vec<SagaStepId>) -> (r: Vec<SagaStepId>)
    ensures
        r@ == ids@,
{
    let mut r: Vec<SagaStepId> = Vec::new();
    let mut i: usize = 0;
    while i < ids.len()
        invariant
            i <= ids@.len(),
            r@ == ids@.take(i as int),
        decreases ids@.len() - i,
    {
        r.push(ids[i]);
        proof {
            assert(ids@.take(i + 1) == ids@.take(i as int).push(ids@[i as int]));
        }
        i = i + 1;
    }
    proof {
        assert(ids@.take(i as int) == ids@);
    }
    r
}

impl SagaOutcome {
    fn duplicate(&self) -> (r: SagaOutcome)
        ensures
            r@ == self@,
    {
        match self {
            SagaOutcome::Applied { transaction, applied } => SagaOutcome::Applied {
                transaction: *transaction,
                applied: copy_ids(applied),
            },
            SagaOutcome::Compensated { transaction, failed_step, applied, compensated } =>
                SagaOutcome::Compensated {
                transaction: *transaction,
                failed_step: *failed_step,
                applied: copy_ids(applied),
                compensated: copy_ids(compensated),
            },
        }
    }
}

/// Observable event of a saga.
#[derive(Clone, Copy, Debug, PartialEq, Eq)]
pub enum SagaEvent {
    /// A local step was applied.
    StepApplied {
        /// The transaction run.
        transaction: TransactionId,
        /// The applied step.
        step: SagaStepId,
    },
    /// A local step failed.
    StepFailed {
        /// The transaction run.
        transaction: TransactionId,
        /// The failed step.
        step: SagaStepId,
    },
    /// An earlier step was compensated.
    StepCompensated {
        /// The transaction run.
        transaction: TransactionId,
        /// The compensated step.
        step: SagaStepId,
    },
}

/// Position of the first step that fails, if any does.
pub open spec fn first_failure(steps: Seq<SagaStep>) -> Option<int>
    decreases steps.len(),
{
    if steps.len() == 0 {
        None
    } else {
        match first_failure(steps.drop_last()) {
            Some(f) => Some(f),
            None => if steps.last().will_succeed() {
                None
            } else {
                Some(steps.len() - 1)
            },
        }
    }
}

/// Identities of the steps, in order.
pub open spec fn step_ids(steps: Seq<SagaStep>) -> Seq<SagaStepId> {
    steps.map_values(|s: SagaStep| s.step_id())
}

/// The outcome a saga run owes for its steps.
pub open spec fn saga_outcome(transaction: TransactionId, steps: Seq<SagaStep>) -> SagaOutcomeView {
    match first_failure(steps) {
        None => SagaOutcomeView::Applied { transaction, applied: step_ids(steps) },
        Some(f) => SagaOutcomeView::Compensated {
            transaction,
            failed_step: steps[f].step_id(),
            applied: step_ids(steps.take(f)),
            compensated: step_ids(steps.take(f)).reverse(),
        },
    }
}

/// The events a saga run records for its steps.
pub open spec fn saga_events(transaction: TransactionId, steps: Seq<SagaStep>) -> Seq<SagaEvent> {
    match first_failure(steps) {
        None => step_ids(steps).map_values(
            |id: SagaStepId| SagaEvent::StepApplied { transaction, step: id },
        ),
        Some(f) => step_ids(steps.take(f)).map_values(
            |id: SagaStepId| SagaEvent::StepApplied { transaction, step: id },
        ).push(SagaEvent::StepFailed { transaction, step: steps[f].step_id() }) + step_ids(
            steps.take(f),
        ).reverse().map_values(|id: SagaStepId| SagaEvent::StepCompensated { transaction, step: id }),
    }
}

/// Deterministic saga executor.
/// The compensation recorded by the outcome of transaction `t`: the
/// compensated steps of a compensated run, nothing otherwise.
pub open spec fn compensation_of(outcomes: Map<u64, SagaOutcomeView>, t: u64) -> Seq<SagaStepId> {
    if outcomes.contains_key(t) {
        match outcomes[t] {
            SagaOutcomeView::Compensated { compensated, .. } => compensated,
            SagaOutcomeView::Applied { .. } => Seq::empty(),
        }
    } else {
        Seq::empty()
    }
}

/// The compensations that the recorded outcomes call for: one for each
/// compensated transaction.
pub open spec fn compensations_from(outcomes: Map<u64, SagaOutcomeView>) -> Map<u64, Seq<SagaStepId>> {
    Map::new(
        |t: u64| outcomes.contains_key(t) && outcomes[t] is Compensated,
        |t: u64| compensation_of(outcomes, t),
    )
}

/// How one call of `run` on transaction `t`, returning `r`, changes the
/// record of outcomes: a transaction already run keeps its outcome and the
/// call returns it; otherwise the call's outcome is recorded.
pub open spec fn run_step(
    before: Map<u64, SagaOutcomeView>,
    after: Map<u64, SagaOutcomeView>,
    t: u64,
    r: SagaOutcomeView,
) -> bool {
    if before.contains_key(t) {
        r == before[t] && after == before
    } else {
        after == before.insert(t, r)
    }
}

proof fn lemma_outcomes_prefix(records: Seq<Map<u64, SagaOutcomeView>>, calls: Seq<(u64, SagaOutcomeView)>, n: int)
    requires
        records.len() == calls.len() + 1,
        records[0] == Map::<u64, SagaOutcomeView>::empty(),
        forall|i: int| 0 <= i < calls.len() ==> run_step(#[trigger] records[i], records[i + 1], calls[i].0, calls[i].1),
        0 <= n <= calls.len(),
    ensures
        forall|t: u64| #[trigger] records[n].contains_key(t) <==> exists|i: int|
            0 <= i < n && (#[trigger] calls[i]).0 == t,
        forall|i: int| 0 <= i < n ==> records[n].contains_key((#[trigger] calls[i]).0) && calls[i].1
            == records[n][calls[i].0],
    decreases n,
{
    if n > 0 {
        lemma_outcomes_prefix(records, calls, n - 1);
        let before = records[n - 1];
        let after = records[n];
        let t = calls[n - 1].0;
        assert(run_step(records[n - 1], records[n], calls[n - 1].0, calls[n - 1].1));
        assert forall|k: u64| #[trigger] after.contains_key(k) <==> exists|i: int|
            0 <= i < n && (#[trigger] calls[i]).0 == k by {
            if before.contains_key(k) {
                let i = choose|i: int| 0 <= i < n - 1 && (#[trigger] calls[i]).0 == k;
                assert(0 <= i < n);
            }
            if k == t {
                assert(calls[n - 1].0 == k);
            }
            if exists|i: int| 0 <= i < n && (#[trigger] calls[i]).0 == k {
                let i = choose|i: int| 0 <= i < n && (#[trigger] calls[i]).0 == k;
                if i < n - 1 {
                    assert(before.contains_key(k));
                }
            }
        }
    }
}

/// Law: over any run of `run` calls on a saga that starts with nothing run
/// (whatever other calls come between them, none of which touches the
/// outcomes), a transaction has an outcome exactly when it was run, and
/// every call for it, the first one included, returned the outcome that
/// stays recorded; so `compensated_steps` gives the compensation of its
/// first run, and nothing when it was never run or its run applied every
/// step.
pub proof fn lemma_outcomes_are_first_runs(records: Seq<Map<u64, SagaOutcomeView>>, calls: Seq<(u64, SagaOutcomeView)>)
    requires
        records.len() == calls.len() + 1,
        records[0] == Map::<u64, SagaOutcomeView>::empty(),
        forall|i: int| 0 <= i < calls.len() ==> run_step(#[trigger] records[i], records[i + 1], calls[i].0, calls[i].1),
    ensures
        forall|t: u64| #[trigger] records.last().contains_key(t) <==> exists|i: int|
            0 <= i < calls.len() && (#[trigger] calls[i]).0 == t,
        forall|i: int| 0 <= i < calls.len() ==> (#[trigger] calls[i]).1 == records.last()[calls[i].0],
        forall|i: int| 0 <= i < calls.len() ==> compensation_of(records.last(), (#[trigger] calls[i]).0)
            == match calls[i].1 {
                SagaOutcomeView::Compensated { compensated, .. } => compensated,
                SagaOutcomeView::Applied { .. } => Seq::<SagaStepId>::empty(),
            },
        forall|t: u64|
            (forall|i: int| 0 <= i < calls.len() ==> (#[trigger] calls[i]).0 != t) ==> compensation_of(
                records.last(),
                t,
            ) == Seq::<SagaStepId>::empty(),
{
    lemma_outcomes_prefix(records, calls, calls.len() as int);
    assert forall|i: int| 0 <= i < calls.len() implies compensation_of(records.last(), (#[trigger] calls[i]).0)
        == match calls[i].1 {
            SagaOutcomeView::Compensated { compensated, .. } => compensated,
            SagaOutcomeView::Applied { .. } => Seq::<SagaStepId>::empty(),
        } by {
        assert(records.last().contains_key(calls[i].0));
    }
}

#[derive(Clone, Debug, PartialEq, Eq)]
pub struct Saga {
    steps: Vec<SagaStep>,
    outcomes: IdMap<SagaOutcome>,
    compensated: IdMap<Vec<SagaStepId>>,
    history: Vec<SagaEvent>,
}

impl Saga {
    /// The steps, in order.
    pub closed spec fn steps_view(&self) -> Seq<SagaStep> {
        self.steps@
    }

    /// The outcomes of the transactions already run.
    pub closed spec fn outcomes_view(&self) -> Map<u64, SagaOutcomeView> {
        self.outcomes@.map_values(|o: SagaOutcome| o@)
    }

    /// The compensations recorded per transaction.
    pub closed spec fn compensations_view(&self) -> Map<u64, Seq<SagaStepId>> {
        self.compensated@.map_values(|v: Vec<SagaStepId>| v@)
    }

    /// The recorded events.
    pub closed spec fn history_view(&self) -> Seq<SagaEvent> {
        self.history@
    }

    /// The internal structures are well formed.
    pub closed spec fn wf(&self) -> bool {
        &&& self.outcomes.inv()
        &&& self.compensated.inv()
        &&& self.compensations_view() == compensations_from(self.outcomes_view())
    }

    /// A saga without steps.
    pub fn new() -> (s: Self)
        ensures
            s.wf(),
            s.steps_view() == Seq::<SagaStep>::empty(),
            s.outcomes_view() == Map::<u64, SagaOutcomeView>::empty(),
            s.compensations_view() == Map::<u64, Seq<SagaStepId>>::empty(),
            s.history_view() == Seq::<SagaEvent>::empty(),
    {
        let s = Saga {
            steps: Vec::new(),
            outcomes: IdMap::new(),
            compensated: IdMap::new(),
            history: Vec::new(),
        };
        proof {
            assert(s.outcomes_view() =~= Map::<u64, SagaOutcomeView>::empty());
            assert(s.compensations_view() =~= Map::<u64, Seq<SagaStepId>>::empty());
            assert(compensations_from(s.outcomes_view()) =~= Map::<u64, Seq<SagaStepId>>::empty());
        }
        s
    }

    /// A saga with the given steps.
    pub fn from_steps(steps: &[SagaStep]) -> (s: Self)
        ensures
            s.wf(),
            s.steps_view() == steps@,
            s.outcomes_view() == Map::<u64, SagaOutcomeView>::empty(),
            s.compensations_view() == Map::<u64, Seq<SagaStepId>>::empty(),
            s.history_view() == Seq::<SagaEvent>::empty(),
    {
        let mut saga = Self::new();
        let mut i: usize = 0;
        while i < steps.len()
            invariant
                i <= steps@.len(),
                saga.wf(),
                saga.steps_view() == steps@.take(i as int),
                saga.outcomes_view() == Map::<u64, SagaOutcomeView>::empty(),
                saga.compensations_view() == Map::<u64, Seq<SagaStepId>>::empty(),
                saga.history_view() == Seq::<SagaEvent>::empty(),
            decreases steps@.len() - i,
        {
            saga.push_step(steps[i]);
            proof {
                assert(steps@.take(i + 1) == steps@.take(i as int).push(steps@[i as int]));
            }
            i = i + 1;
        }
        proof {
            assert(steps@.take(i as int) == steps@);
        }
        saga
    }

    /// Appends a step at the end of the saga.
    pub fn push_step(&mut self, step: SagaStep)
        requires
            old(self).wf(),
        ensures
            final(self).wf(),
            final(self).steps_view() == old(self).steps_view().push(step),
            final(self).outcomes_view() == old(self).outcomes_view(),
            final(self).compensations_view() == old(self).compensations_view(),
            final(self).history_view() == old(self).history_view(),
    {
        self.steps.push(step);
    }

    /// The recorded events.
    pub fn history(&self) -> (h: &[SagaEvent])
        ensures
            h@ == self.history_view(),
    {
        self.history.as_slice()
    }

    /// The steps compensated for a transaction (none when it was not).
    pub fn compensated_steps(&self, transaction: TransactionId) -> (r: Vec<SagaStepId>)
        requires
            self.wf(),
        ensures
            r@ == if self.compensations_view().contains_key(transaction.0) {
                self.compensations_view()[transaction.0]
            } else {
                Seq::<SagaStepId>::empty()
            },
            r@ == compensation_of(self.outcomes_view(), transaction.0),
    {
        proof {
            assert(self.compensations_view().contains_key(transaction.0)
                == compensations_from(self.outcomes_view()).contains_key(transaction.0));
        }
        match self.compensated.get(transaction.0) {
            Some(ids) => copy_ids(ids),
            None => Vec::new(),
        }
    }

    /// Runs the saga for a transaction.
    ///
    /// A transaction already run hands back its recorded outcome and changes
    /// nothing. Otherwise the steps are applied in order; at the first
    /// failure the steps applied so far are compensated in reverse order.
    pub fn run(&mut self, transaction: TransactionId) -> (r: SagaOutcome)
        requires
            old(self).wf(),
        ensures
            final(self).wf(),
            final(self).steps_view() == old(self).steps_view(),
            run_step(old(self).outcomes_view(), final(self).outcomes_view(), transaction.0, r@),
            old(self).outcomes_view().contains_key(transaction.0) ==> {
                &&& r@ == old(self).outcomes_view()[transaction.0]
                &&& final(self).outcomes_view() == old(self).outcomes_view()
                &&& final(self).compensations_view() == old(self).compensations_view()
                &&& final(self).history_view() == old(self).history_view()
            },
            !old(self).outcomes_view().contains_key(transaction.0) ==> {
                &&& r@ == saga_outcome(transaction, old(self).steps_view())
                &&& final(self).outcomes_view() == old(self).outcomes_view().insert(transaction.0, r@)
                &&& final(self).compensations_view() == match r@ {
                    SagaOutcomeView::Compensated { compensated, .. } => old(
                        self,
                    ).compensations_view().insert(transaction.0, compensated),
                    SagaOutcomeView::Applied { .. } => old(self).compensations_view(),
                }
                &&& final(self).history_view() == old(self).history_view() + saga_events(
                    transaction,
                    old(self).steps_view(),
                )
            },
    {
        if let Some(outcome) = self.outcomes.get(transaction.0) {
            return outcome.duplicate();
        }
        let ghost start = self.history@;
        let ghost steps = self.steps@;
        let mut applied: Vec<SagaStepId> = Vec::new();
        let mut i: usize = 0;
        while i < self.steps.len()
            invariant
                i <= steps.len(),
                self.wf(),
                self.steps@ == steps,
                steps == old(self).steps_view(),
                self.outcomes == old(self).outcomes,
                self.compensated == old(self).compensated,
                !self.outcomes@.contains_key(transaction.0),
                start == old(self).history_view(),
                first_failure(steps.take(i as int)) is None,
                applied@ == step_ids(steps.take(i as int)),
                self.history@ == start + step_ids(steps.take(i as int)).map_values(
                    |id: SagaStepId| SagaEvent::StepApplied { transaction, step: id },
                ),
            decreases steps.len() - i,
        {
            let step = self.steps[i];
            proof {
                assert(steps.take(i + 1).drop_last() == steps.take(i as int));
                assert(step_ids(steps.take(i + 1)) == step_ids(steps.take(i as int)).push(
                    step.step_id(),
                ));
            }
            if step.succeeds {
                applied.push(step.id());
                self.history.push(SagaEvent::StepApplied { transaction, step: step.id() });
                i = i + 1;
                continue;
            }
            self.history.push(SagaEvent::StepFailed { transaction, step: step.id() });
            let mut compensated: Vec<SagaStepId> = Vec::new();
            let mut j: usize = applied.len();
            while j > 0
                invariant
                    j <= applied@.len(),
                    self.wf(),
                    self.steps@ == steps,
                    steps == old(self).steps_view(),
                    self.outcomes == old(self).outcomes,
                    self.compensated == old(self).compensated,
                    !self.outcomes@.contains_key(transaction.0),
                    start == old(self).history_view(),
                    0 <= i < steps.len(),
                    step == steps[i as int],
                    !step.will_succeed(),
                    first_failure(steps.take(i as int)) is None,
                    applied@ == step_ids(steps.take(i as int)),
                    compensated@ == applied@.subrange(j as int, applied@.len() as int).reverse(),
                    self.history@ == start + step_ids(steps.take(i as int)).map_values(
                        |id: SagaStepId| SagaEvent::StepApplied { transaction, step: id },
                    ).push(SagaEvent::StepFailed { transaction, step: step.step_id() })
                        + compensated@.map_values(
                        |id: SagaStepId| SagaEvent::StepCompensated { transaction, step: id },
                    ),
                decreases j,
            {
                j = j - 1;
                let id = applied[j];
                compensated.push(id);
                self.history.push(SagaEvent::StepCompensated { transaction, step: id });
                proof {
                    assert(applied@.subrange(j as int, applied@.len() as int).reverse()
                        =~= applied@.subrange(j + 1, applied@.len() as int).reverse().push(
                        applied@[j as int],
                    ));
                }
            }
            proof {
                assert(applied@.subrange(0, applied@.len() as int) == applied@);
                assert(first_failure(steps.take(i + 1)) == Some(i as int));
                assert(first_failure(steps) == Some(i as int)) by {
                    lemma_first_failure_prefix(steps, i as int + 1);
                }
            }
            let compensated_copy = copy_ids(&compensated);
            let outcome = SagaOutcome::Compensated {
                transaction,
                failed_step: step.id(),
                applied,
                compensated: compensated_copy,
            };
            self.compensated.insert(transaction.0, compensated);
            let stored = outcome.duplicate();
            self.outcomes.insert(transaction.0, stored);
            proof {
                assert(self.outcomes_view() =~= old(self).outcomes_view().insert(transaction.0, outcome@));
                assert(self.compensations_view() =~= old(self).compensations_view().insert(
                    transaction.0,
                    compensated_copy@,
                ));
                assert(self.compensations_view() =~= compensations_from(self.outcomes_view()));
            }
            return outcome;
        }
        proof {
            assert(steps.take(i as int) == steps);
        }
        let outcome = SagaOutcome::Applied { transaction, applied };
        let stored = outcome.duplicate();
        self.outcomes.insert(transaction.0, stored);
        proof {
            assert(self.outcomes_view() =~= old(self).outcomes_view().insert(transaction.0, outcome@));
            assert(self.compensations_view() =~= compensations_from(self.outcomes_view()));
        }
        outcome
    }
}

proof fn lemma_first_failure_prefix(steps: Seq<SagaStep>, n: int)
    requires
        0 <= n <= steps.len(),
        first_failure(steps.take(n)) is Some,
    ensures
        first_failure(steps) == first_failure(steps.take(n)),
    decreases steps.len() - n,
{
    if n < steps.len() {
        assert(steps.take(n + 1).drop_last() == steps.take(n));
        lemma_first_failure_prefix(steps, n + 1);
    } else {
        assert(steps.take(n) == steps);
    }
}

} // verus!
