//! Single-decree Paxos: numbered proposals, promises, acceptances and a
//! majority quorum.
//!
//! An acceptor promises not to accept proposals below the highest number it
//! has seen; a value is chosen once a majority accepted the same proposal
//! with the same value, and the choice never changes.

use vstd::prelude::*;
use crate::id_map::IdMap;
use crate::id_map::IdSet;

verus! {

/// Stable identifier of a participant.
#[derive(Clone, Copy, Debug, PartialEq, Eq, PartialOrd, Ord, Hash)]
pub struct NodeId(pub u64);

/// Totally ordered proposal number.
#[derive(Clone, Copy, Debug, PartialEq, Eq, PartialOrd, Ord, Hash)]
pub struct ProposalNumber(pub u64);

/// An earlier acceptance, reported in later promises.
#[derive(Clone, Debug, PartialEq, Eq)]
pub struct AcceptedProposal {
    /// The proposal number accepted.
    pub proposal: ProposalNumber,
    /// The value accepted.
    pub value: String,
}

/// A promise given by an acceptor.
#[derive(Clone, Debug, PartialEq, Eq)]
pub struct Promise {
    /// The acceptor promising.
    pub acceptor: NodeId,
    /// The proposal promised.
    pub proposal: ProposalNumber,
    /// The acceptor's earlier acceptance, if any.
    pub accepted: Option<AcceptedProposal>,
}

/// Observable event of the round.
#[derive(Clone, Debug, PartialEq, Eq)]
pub enum PaxosEvent {
    /// An acceptor promised to ignore lower proposals.
    PromiseGranted {
        /// The proposer asking.
        proposer: NodeId,
        /// The acceptor promising.
        acceptor: NodeId,
        /// The proposal promised.
        proposal: ProposalNumber,
    },
    /// An acceptor accepted a proposal.
    Accepted {
        /// The acceptor.
        acceptor: NodeId,
        /// The proposal accepted.
        proposal: ProposalNumber,
    },
    /// A proposal reached a majority.
    Chosen {
        /// The chosen proposal.
        proposal: ProposalNumber,
    },
}

/// Explicit error of the round.
#[derive(Clone, Debug, PartialEq, Eq)]
pub enum PaxosError {
    /// The node is not among the acceptors.
    UnknownNode(NodeId),
    /// The proposal is below the acceptor's promise.
    StaleProposal {
        /// The acceptor refusing.
        acceptor: NodeId,
        /// Its highest promise.
        promised: ProposalNumber,
        /// The proposal tried.
        attempted: ProposalNumber,
    },
    /// Another proposal was already chosen.
    AlreadyChosen {
        /// The chosen proposal.
        chosen: ProposalNumber,
        /// The proposal tried afterwards.
        attempted: ProposalNumber,
    },
}

/// Mathematical state of one acceptor.
pub struct AcceptorView {
    /// Highest proposal promised, if any.
    pub promised: Option<u64>,
    /// Last proposal and value accepted, if any.
    pub accepted: Option<(u64, Seq<char>)>,
}

/// Mathematical state of a [`PaxosRound`].
pub struct PaxosView {
    /// The acceptors, by identifier.
    pub acceptors: Map<u64, AcceptorView>,
    /// Who accepted each proposal with each value.
    pub tally: Map<(u64, Seq<char>), Set<u64>>,
    /// The chosen proposal and value, if any.
    pub chosen: Option<(u64, Seq<char>)>,
    /// The recorded events.
    pub history: Seq<PaxosEvent>,
}

/// Size of a majority of the acceptors.
pub open spec fn quorum(s: PaxosView) -> nat {
    s.acceptors.len() / 2 + 1
}

/// The acceptors that accepted `proposal` with `value`.
pub open spec fn voters(s: PaxosView, proposal: u64, value: Seq<char>) -> Set<u64> {
    if s.tally.contains_key((proposal, value)) {
        s.tally[(proposal, value)]
    } else {
        Set::empty()
    }
}

/// The view of an accepted proposal.
pub open spec fn accepted_view(a: Option<AcceptedProposal>) -> Option<(u64, Seq<char>)> {
    match a {
        Some(p) => Some((p.proposal.0, p.value@)),
        None => None,
    }
}

/// The promise owed by `prepare`, and the state after it.
pub open spec fn prepare_outcome(s: PaxosView, proposer: u64, acceptor: u64, proposal: u64) -> (PaxosView, Result<(u64, u64, Option<(u64, Seq<char>)>), PaxosError>) {
    if !s.acceptors.contains_key(proposer) {
        (s, Err(PaxosError::UnknownNode(NodeId(proposer))))
    } else if !s.acceptors.contains_key(acceptor) {
        (s, Err(PaxosError::UnknownNode(NodeId(acceptor))))
    } else if s.acceptors[acceptor].promised matches Some(p) && proposal < p {
        (
            s,
            Err(
                PaxosError::StaleProposal {
                    acceptor: NodeId(acceptor),
                    promised: ProposalNumber(s.acceptors[acceptor].promised->0),
                    attempted: ProposalNumber(proposal),
                },
            ),
        )
    } else {
        let state = s.acceptors[acceptor];
        (
            PaxosView {
                acceptors: s.acceptors.insert(
                    acceptor,
                    AcceptorView { promised: Some(proposal), accepted: state.accepted },
                ),
                history: s.history.push(
                    PaxosEvent::PromiseGranted {
                        proposer: NodeId(proposer),
                        acceptor: NodeId(acceptor),
                        proposal: ProposalNumber(proposal),
                    },
                ),
                ..s
            },
            Ok((acceptor, proposal, state.accepted)),
        )
    }
}

/// The state after `acceptor` accepts `proposal` with `value`, and the
/// outcome.
pub open spec fn accept_outcome(s: PaxosView, acceptor: u64, proposal: u64, value: Seq<char>) -> (PaxosView, Result<(), PaxosError>) {
    if s.chosen matches Some(c) && c.0 != proposal {
        (
            s,
            Err(
                PaxosError::AlreadyChosen {
                    chosen: ProposalNumber((s.chosen->0).0),
                    attempted: ProposalNumber(proposal),
                },
            ),
        )
    } else if !s.acceptors.contains_key(acceptor) {
        (s, Err(PaxosError::UnknownNode(NodeId(acceptor))))
    } else if s.acceptors[acceptor].promised matches Some(p) && proposal < p {
        (
            s,
            Err(
                PaxosError::StaleProposal {
                    acceptor: NodeId(acceptor),
                    promised: ProposalNumber(s.acceptors[acceptor].promised->0),
                    attempted: ProposalNumber(proposal),
                },
            ),
        )
    } else {
        let votes = voters(s, proposal, value).insert(acceptor);
        let history = s.history.push(
            PaxosEvent::Accepted { acceptor: NodeId(acceptor), proposal: ProposalNumber(proposal) },
        );
        let chooses = s.chosen is None && votes.len() >= quorum(s);
        (
            PaxosView {
                acceptors: s.acceptors.insert(
                    acceptor,
                    AcceptorView { promised: Some(proposal), accepted: Some((proposal, value)) },
                ),
                tally: s.tally.insert((proposal, value), votes),
                chosen: if chooses {
                    Some((proposal, value))
                } else {
                    s.chosen
                },
                history: if chooses {
                    history.push(PaxosEvent::Chosen { proposal: ProposalNumber(proposal) })
                } else {
                    history
                },
            },
            Ok(()),
        )
    }
}

/// Law of promises: a successful acceptance of proposal `n` leaves the
/// acceptor promised to exactly `n`, which is at least what it had promised
/// before (the maximum of both), so a later `prepare` of a lower number on
/// that acceptor, by a known proposer, is refused as stale against `n`;
/// likewise a successful `prepare` of `n` raises the promise to `n`.
pub proof fn lemma_promises_only_rise(
    s: PaxosView,
    proposer: u64,
    acceptor: u64,
    n: u64,
    value: Seq<char>,
    m: u64,
)
    ensures
        accept_outcome(s, acceptor, n, value).1 is Ok ==> {
            let after = accept_outcome(s, acceptor, n, value).0;
            &&& after.acceptors.contains_key(acceptor)
            &&& after.acceptors[acceptor].promised == Some(n)
            &&& s.acceptors[acceptor].promised matches Some(q) ==> q <= n
            &&& after.acceptors.contains_key(proposer) && m < n ==> prepare_outcome(after, proposer, acceptor, m).1
                == Err::<(u64, u64, Option<(u64, Seq<char>)>), PaxosError>(
                PaxosError::StaleProposal {
                    acceptor: NodeId(acceptor),
                    promised: ProposalNumber(n),
                    attempted: ProposalNumber(m),
                },
            )
        },
        prepare_outcome(s, proposer, acceptor, n).1 is Ok ==> {
            let after = prepare_outcome(s, proposer, acceptor, n).0;
            &&& after.acceptors.contains_key(acceptor)
            &&& after.acceptors[acceptor].promised == Some(n)
            &&& s.acceptors[acceptor].promised matches Some(q) ==> q <= n
        },
{
}

/// Position of the promise whose earlier acceptance has the highest number
/// (the last such promise on a tie), if any promise reports one.
pub open spec fn safe_index(promises: Seq<Promise>) -> Option<int>
    decreases promises.len(),
{
    if promises.len() == 0 {
        None
    } else {
        let last = promises.len() - 1;
        match safe_index(promises.drop_last()) {
            None => if promises[last].accepted is Some {
                Some(last)
            } else {
                None
            },
            Some(j) => if promises[last].accepted is Some && promises[last].accepted->0.proposal.0
                >= promises[j].accepted->0.proposal.0 {
                Some(last)
            } else {
                Some(j)
            },
        }
    }
}

/// The value a proposer may safely propose: the value of the highest
/// earlier acceptance reported, or its own preferred value when none is.
pub open spec fn safe_value_of(promises: Seq<Promise>, preferred: Seq<char>) -> Seq<char> {
    match safe_index(promises) {
        Some(j) => promises[j].accepted->0.value@,
        None => preferred,
    }
}

/// The safe value is the proposer's own value exactly when no promise
/// reports an acceptance; otherwise it is the value of a reported
/// acceptance whose number is at least every other reported number.
pub proof fn lemma_safe_value_is_highest(promises: Seq<Promise>)
    ensures
        safe_index(promises) is None <==> forall|i: int| 0 <= i < promises.len() ==> promises[i].accepted is None,
        safe_index(promises) matches Some(j) ==> 0 <= j < promises.len() && promises[j].accepted is Some
            && forall|i: int| 0 <= i < promises.len() && (#[trigger] promises[i].accepted) is Some
                ==> promises[i].accepted->0.proposal.0 <= promises[j].accepted->0.proposal.0,
    decreases promises.len(),
{
    if promises.len() > 0 {
        let rest = promises.drop_last();
        lemma_safe_value_is_highest(rest);
        assert forall|i: int| 0 <= i < rest.len() implies rest[i] == promises[i] by {}
        if safe_index(promises) is None {
            assert forall|i: int| 0 <= i < promises.len() implies promises[i].accepted is None by {
                if i < rest.len() {
                    assert(rest[i].accepted is None);
                }
            }
        }
    }
}

#[derive(Clone, Debug, PartialEq, Eq)]
struct AcceptorState {
    promised: Option<u64>,
    accepted: Option<AcceptedProposal>,
}

impl View for AcceptorState {
    type V = AcceptorView;

    closed spec fn view(&self) -> AcceptorView {
        AcceptorView { promised: self.promised, accepted: accepted_view(self.accepted) }
    }
}

impl AcceptorState {
    fn new() -> (s: Self)
        ensures
            s@ == (AcceptorView { promised: None, accepted: None }),
    {
        AcceptorState { promised: None, accepted: None }
    }
}

fn copy_accepted(a: &Option<AcceptedProposal>) -> (r: Option<AcceptedProposal>)
    ensures
        accepted_view(r) == accepted_view(*a),
{
    match a {
        Some(p) => Some(AcceptedProposal { proposal: p.proposal, value: p.value.clone() }),
        None => None,
    }
}

#[derive(Clone, Debug, PartialEq, Eq)]
struct Tally {
    proposal: u64,
    value: String,
    voters: IdSet,
}

spec fn tally_key(t: Tally) -> (u64, Seq<char>) {
    (t.proposal, t.value@)
}

spec fn tally_map(entries: Seq<Tally>) -> Map<(u64, Seq<char>), Set<u64>> {
    Map::new(
        |k: (u64, Seq<char>)| exists|i: int| 0 <= i < entries.len() && #[trigger] tally_key(entries[i]) == k,
        |k: (u64, Seq<char>)| entries[choose|i: int| 0 <= i < entries.len() && #[trigger] tally_key(entries[i]) == k].voters@,
    )
}

/// Deterministic single-decree Paxos round.
#[derive(Clone, Debug, PartialEq, Eq)]
pub struct PaxosRound {
    acceptors: IdMap<AcceptorState>,
    acceptances: Vec<Tally>,
    chosen: Option<AcceptedProposal>,
    history: Vec<PaxosEvent>,
}

impl View for PaxosRound {
    type V = PaxosView;

    closed spec fn view(&self) -> PaxosView {
        PaxosView {
            acceptors: self.acceptors@.map_values(|a: AcceptorState| a@),
            tally: tally_map(self.acceptances@),
            chosen: accepted_view(self.chosen),
            history: self.history@,
        }
    }
}

impl PaxosRound {
    /// The round's structures are well formed: one tally per proposal and
    /// value, and a chosen proposal has a majority.
    pub closed spec fn wf(&self) -> bool {
        &&& self.acceptors.inv()
        &&& forall|i: int| 0 <= i < self.acceptances@.len() ==> (#[trigger] self.acceptances@[i]).voters.inv()
        &&& forall|i: int, j: int|
            0 <= i < self.acceptances@.len() && 0 <= j < self.acceptances@.len() && i != j
                ==> #[trigger] tally_key(self.acceptances@[i]) != #[trigger] tally_key(self.acceptances@[j])
        &&& self@.chosen matches Some(c) ==> voters(self@, c.0, c.1).len() >= quorum(self@)
    }

    proof fn lemma_tally_at(&self, i: int)
        requires
            forall|a: int, b: int|
                0 <= a < self.acceptances@.len() && 0 <= b < self.acceptances@.len() && a != b
                    ==> #[trigger] tally_key(self.acceptances@[a]) != #[trigger] tally_key(self.acceptances@[b]),
            0 <= i < self.acceptances@.len(),
        ensures
            self@.tally.contains_key(tally_key(self.acceptances@[i])),
            self@.tally[tally_key(self.acceptances@[i])] == self.acceptances@[i].voters@,
    {
        let k = tally_key(self.acceptances@[i]);
        assert(self@.tally.contains_key(k));
        let j = choose|j: int| 0 <= j < self.acceptances@.len() && #[trigger] tally_key(self.acceptances@[j]) == k;
        assert(j == i);
    }

    proof fn lemma_same_tally(&self, other: &Self)
        requires
            self.acceptances == other.acceptances,
        ensures
            self@.tally == other@.tally,
            forall|i: int| #[trigger] tally_key(self.acceptances@[i]) == tally_key(other.acceptances@[i]),
    {
        assert forall|i: int| #[trigger] tally_key(self.acceptances@[i]) == tally_key(other.acceptances@[i]) by {}
    }

    /// A chosen proposal keeps its majority, and the choice never changes.
    pub proof fn lemma_chosen_has_majority(&self)
        requires
            self.wf(),
        ensures
            self@.chosen matches Some(c) ==> voters(self@, c.0, c.1).len() >= quorum(self@),
    {
    }

    /// A round over the given acceptors, with no promise nor acceptance.
    pub fn new(acceptors: &[NodeId]) -> (r: Self)
        ensures
            r.wf(),
            forall|id: u64| #[trigger] r@.acceptors.contains_key(id) <==> exists|i: int|
                0 <= i < acceptors@.len() && acceptors@[i].0 == id,
            forall|id: u64| #[trigger] r@.acceptors.contains_key(id) ==> r@.acceptors[id] == (AcceptorView {
                promised: None,
                accepted: None,
            }),
            r@.tally == Map::<(u64, Seq<char>), Set<u64>>::empty(),
            r@.chosen == None::<(u64, Seq<char>)>,
            r@.history == Seq::<PaxosEvent>::empty(),
    {
        let mut map: IdMap<AcceptorState> = IdMap::new();
        let mut i: usize = 0;
        while i < acceptors.len()
            invariant
                i <= acceptors@.len(),
                map.inv(),
                forall|id: u64| #[trigger] map@.contains_key(id) ==> map@[id]@ == (AcceptorView {
                    promised: None,
                    accepted: None,
                }),
                forall|id: u64| #[trigger] map@.contains_key(id) <==> exists|p: int|
                    0 <= p < i && acceptors@[p].0 == id,
            decreases acceptors@.len() - i,
        {
            let ghost before = map@;
            map.insert(acceptors[i].0, AcceptorState::new());
            proof {
                assert forall|id: u64| #[trigger] map@.contains_key(id) <==> exists|p: int|
                    0 <= p < i + 1 && acceptors@[p].0 == id by {
                    if before.contains_key(id) {
                        let p = choose|p: int| 0 <= p < i && acceptors@[p].0 == id;
                        assert(0 <= p < i + 1 && acceptors@[p].0 == id);
                    }
                    if id == acceptors@[i as int].0 {
                        assert(acceptors@[i as int].0 == id);
                    }
                }
            }
            i = i + 1;
        }
        let r = PaxosRound { acceptors: map, acceptances: Vec::new(), chosen: None, history: Vec::new() };
        proof {
            assert(r@.tally =~= Map::<(u64, Seq<char>), Set<u64>>::empty());
        }
        r
    }

    /// Size of a majority quorum.
    pub fn quorum_size(&self) -> (q: usize)
        requires
            self.wf(),
        ensures
            q == quorum(self@),
    {
        proof {
            assert(self@.acceptors.dom() =~= self.acceptors@.dom());
        }
        self.acceptors.len() / 2 + 1
    }

    /// Asks `acceptor` to promise `proposal` on behalf of `proposer`.
    ///
    /// Both must be acceptors; a proposal below the acceptor's promise is
    /// stale. Otherwise the promise rises to `proposal` and reports the
    /// acceptor's earlier acceptance.
    pub fn prepare(&mut self, proposer: NodeId, acceptor: NodeId, proposal: ProposalNumber) -> (r: Result<Promise, PaxosError>)
        requires
            old(self).wf(),
        ensures
            final(self).wf(),
            final(self)@ == prepare_outcome(old(self)@, proposer.0, acceptor.0, proposal.0).0,
            r is Ok ==> final(self)@.acceptors.contains_key(acceptor.0)
                && final(self)@.acceptors[acceptor.0].promised == Some(proposal.0)
                && (old(self)@.acceptors[acceptor.0].promised matches Some(q) ==> q <= proposal.0),
            old(self)@.acceptors.contains_key(proposer.0) && old(self)@.acceptors.contains_key(acceptor.0)
                && old(self)@.acceptors[acceptor.0].promised is Some && proposal.0
                < old(self)@.acceptors[acceptor.0].promised->0 ==> r == Err::<Promise, PaxosError>(
                PaxosError::StaleProposal {
                    acceptor,
                    promised: ProposalNumber(old(self)@.acceptors[acceptor.0].promised->0),
                    attempted: proposal,
                },
            ),
            match (r, prepare_outcome(old(self)@, proposer.0, acceptor.0, proposal.0).1) {
                (Ok(p), Ok(q)) => p.acceptor.0 == q.0 && p.proposal.0 == q.1 && accepted_view(p.accepted) == q.2,
                (Err(e), Err(f)) => e == f,
                _ => false,
            },
    {
        self.ensure_known_node(proposer)?;
        let state = match self.acceptors.get(acceptor.0) {
            Some(s) => s,
            None => {
                return Err(PaxosError::UnknownNode(acceptor));
            },
        };
        if let Some(promised) = state.promised {
            if proposal.0 < promised {
                return Err(
                    PaxosError::StaleProposal {
                        acceptor,
                        promised: ProposalNumber(promised),
                        attempted: proposal,
                    },
                );
            }
        }
        let accepted = copy_accepted(&state.accepted);
        let updated = AcceptorState { promised: Some(proposal.0), accepted: copy_accepted(&state.accepted) };
        let ghost v = updated@;
        self.acceptors.insert(acceptor.0, updated);
        self.history.push(PaxosEvent::PromiseGranted { proposer, acceptor, proposal });
        proof {
            assert(self@.acceptors =~= old(self)@.acceptors.insert(acceptor.0, v));
            self.lemma_same_tally(old(self));
            assert(self@.acceptors.dom() =~= old(self)@.acceptors.dom());
        }
        Ok(Promise { acceptor, proposal, accepted })
    }

    /// The value a proposer may safely propose: the value of the earlier
    /// acceptance with the highest number among the promises (the last one
    /// on a tie), or `preferred` when no promise reports one.
    pub fn safe_value(promises: &[Promise], preferred: &str) -> (v: String)
        ensures
            v@ == safe_value_of(promises@, preferred@),
    {
        let mut best: Option<usize> = None;
        let mut i: usize = 0;
        while i < promises.len()
            invariant
                i <= promises@.len(),
                best matches Some(j) ==> j < i,
                match best {
                    Some(j) => safe_index(promises@.take(i as int)) == Some(j as int),
                    None => safe_index(promises@.take(i as int)) is None,
                },
            decreases promises@.len() - i,
        {
            proof {
                assert(promises@.take(i + 1).drop_last() == promises@.take(i as int));
                if let Some(j) = best {
                    assert(promises@.take(i + 1)[j as int] == promises@[j as int]);
                }
            }
            if let Some(a) = &promises[i].accepted {
                let replace = match best {
                    None => true,
                    Some(j) => match &promises[j].accepted {
                        Some(b) => a.proposal.0 >= b.proposal.0,
                        None => true,
                    },
                };
                if replace {
                    best = Some(i);
                }
            }
            proof {
                if let Some(j) = safe_index(promises@.take(i as int)) {
                    lemma_safe_index_reports(promises@.take(i as int));
                    assert(promises@.take(i as int)[j] == promises@[j]);
                }
            }
            i = i + 1;
        }
        proof {
            assert(promises@.take(i as int) == promises@);
            lemma_safe_index_reports(promises@);
        }
        match best {
            Some(j) => match &promises[j].accepted {
                Some(a) => a.value.clone(),
                None => preferred.to_owned(),
            },
            None => preferred.to_owned(),
        }
    }

    /// `acceptor` accepts `proposal` with `value`.
    ///
    /// Refused when another proposal was chosen, when the acceptor is
    /// unknown, or when the proposal is below its promise. Otherwise the
    /// acceptor records the acceptance and the proposal is chosen when it is
    /// the first to gather a majority with this value.
    pub fn accept(&mut self, acceptor: NodeId, proposal: ProposalNumber, value: &str) -> (r: Result<(), PaxosError>)
        requires
            old(self).wf(),
        ensures
            final(self).wf(),
            (final(self)@, r) == accept_outcome(old(self)@, acceptor.0, proposal.0, value@),
            r is Ok ==> final(self)@.acceptors.contains_key(acceptor.0)
                && final(self)@.acceptors[acceptor.0].promised == Some(proposal.0)
                && (old(self)@.acceptors[acceptor.0].promised matches Some(q) ==> q <= proposal.0),
    {
        if let Some(chosen) = &self.chosen {
            if chosen.proposal.0 != proposal.0 {
                return Err(
                    PaxosError::AlreadyChosen { chosen: chosen.proposal, attempted: proposal },
                );
            }
        }
        let state = match self.acceptors.get(acceptor.0) {
            Some(s) => s,
            None => {
                return Err(PaxosError::UnknownNode(acceptor));
            },
        };
        if let Some(promised) = state.promised {
            if proposal.0 < promised {
                return Err(
                    PaxosError::StaleProposal {
                        acceptor,
                        promised: ProposalNumber(promised),
                        attempted: proposal,
                    },
                );
            }
        }
        let quorum = self.quorum_size();
        let ghost s = self@;
        let updated = AcceptorState {
            promised: Some(proposal.0),
            accepted: Some(AcceptedProposal { proposal, value: value.to_owned() }),
        };
        let ghost v = updated@;
        self.acceptors.insert(acceptor.0, updated);
        self.history.push(PaxosEvent::Accepted { acceptor, proposal });
        let ghost mid = *self;
        proof {
            mid.lemma_same_tally(old(self));
        }
        let count = self.record_vote(proposal.0, value, acceptor.0);
        proof {
            assert(self@.acceptors =~= s.acceptors.insert(acceptor.0, v));
        }
        if self.chosen.is_none() && count >= quorum {
            self.chosen = Some(AcceptedProposal { proposal, value: value.to_owned() });
            self.history.push(PaxosEvent::Chosen { proposal });
        }
        proof {
            let expected = accept_outcome(s, acceptor.0, proposal.0, value@).0;
            assert(self@.acceptors.dom() =~= self.acceptors@.dom());
            assert(s.acceptors.dom() =~= old(self).acceptors@.dom());
            assert(self@.acceptors.len() == s.acceptors.len());
            if let Some(c) = s.chosen {
                assert(c.0 == proposal.0);
                if c.1 == value@ {
                    vstd::set_lib::lemma_len_subset(voters(s, c.0, c.1), voters(self@, c.0, c.1));
                } else {
                    assert(voters(self@, c.0, c.1) == voters(s, c.0, c.1));
                }
            }
        }
        Ok(())
    }

    /// Adds `acceptor` to the tally of `proposal` with `value` and returns
    /// the size of that tally.
    fn record_vote(&mut self, proposal: u64, value: &str, acceptor: u64) -> (count: usize)
        requires
            forall|i: int| 0 <= i < old(self).acceptances@.len() ==> (#[trigger] old(self).acceptances@[i]).voters.inv(),
            forall|i: int, j: int|
                0 <= i < old(self).acceptances@.len() && 0 <= j < old(self).acceptances@.len() && i != j
                    ==> #[trigger] tally_key(old(self).acceptances@[i]) != #[trigger] tally_key(old(self).acceptances@[j]),
        ensures
            final(self).acceptors == old(self).acceptors,
            final(self).chosen == old(self).chosen,
            final(self).history == old(self).history,
            forall|i: int| 0 <= i < final(self).acceptances@.len() ==> (#[trigger] final(self).acceptances@[i]).voters.inv(),
            forall|i: int, j: int|
                0 <= i < final(self).acceptances@.len() && 0 <= j < final(self).acceptances@.len() && i != j
                    ==> #[trigger] tally_key(final(self).acceptances@[i]) != #[trigger] tally_key(final(self).acceptances@[j]),
            final(self)@.tally == old(self)@.tally.insert(
                (proposal, value@),
                voters(old(self)@, proposal, value@).insert(acceptor),
            ),
            count == voters(old(self)@, proposal, value@).insert(acceptor).len(),
    {
        let ghost key = (proposal, value@);
        let target = value.to_owned();
        let n = self.acceptances.len();
        let mut found: Option<usize> = None;
        let mut i: usize = 0;
        while i < n
            invariant
                i <= n,
                n == self.acceptances@.len(),
                *self == *old(self),
                target@ == value@,
                key == (proposal, value@),
                found matches Some(f) ==> f < i && tally_key(self.acceptances@[f as int]) == key,
                found is None ==> forall|j: int| 0 <= j < i ==> #[trigger] tally_key(self.acceptances@[j]) != key,
            decreases n - i,
        {
            if found.is_none() && self.acceptances[i].proposal == proposal && self.acceptances[i].value == target {
                found = Some(i);
            }
            i = i + 1;
        }
        let ghost old_tally = self@.tally;
        match found {
            Some(f) => {
                proof {
                    self.lemma_tally_at(f as int);
                }
                let mut tally = self.acceptances.remove(f);
                tally.voters.insert(acceptor);
                let count = tally.voters.len();
                let ghost entry = tally;
                self.acceptances.insert(f, tally);
                proof {
                    assert(self.acceptances@ == old(self).acceptances@.update(f as int, entry));
                    assert forall|j: int| 0 <= j < self.acceptances@.len() implies #[trigger] tally_key(self.acceptances@[j]) == tally_key(old(self).acceptances@[j]) by {}
                    assert forall|k: (u64, Seq<char>)| #[trigger] self@.tally.contains_key(k) == old_tally.insert(key, voters(old(self)@, proposal, value@).insert(acceptor)).contains_key(k) by {
                        if old_tally.contains_key(k) {
                            let j = choose|j: int| 0 <= j < old(self).acceptances@.len() && #[trigger] tally_key(old(self).acceptances@[j]) == k;
                            assert(tally_key(self.acceptances@[j]) == k);
                        }
                        if self@.tally.contains_key(k) {
                            let j = choose|j: int| 0 <= j < self.acceptances@.len() && #[trigger] tally_key(self.acceptances@[j]) == k;
                            assert(tally_key(old(self).acceptances@[j]) == k);
                        }
                    }
                    assert forall|k: (u64, Seq<char>)| #[trigger] self@.tally.contains_key(k) implies self@.tally[k] == old_tally.insert(key, voters(old(self)@, proposal, value@).insert(acceptor))[k] by {
                        let j = choose|j: int| 0 <= j < self.acceptances@.len() && #[trigger] tally_key(self.acceptances@[j]) == k;
                        let jo = choose|j: int| 0 <= j < old(self).acceptances@.len() && #[trigger] tally_key(old(self).acceptances@[j]) == k;
                        assert(tally_key(old(self).acceptances@[j]) == k);
                        assert(j == jo);
                    }
                    assert(self@.tally =~= old_tally.insert(key, voters(old(self)@, proposal, value@).insert(acceptor)));
                }
                count
            },
            None => {
                let mut voters_set = IdSet::new();
                voters_set.insert(acceptor);
                let count = voters_set.len();
                let ghost entry_voters = voters_set@;
                self.acceptances.push(Tally { proposal, value: target, voters: voters_set });
                proof {
                    let last = self.acceptances@.len() - 1;
                    assert(tally_key(self.acceptances@[last]) == key);
                    assert(!old_tally.contains_key(key)) by {
                        if old_tally.contains_key(key) {
                            let j = choose|j: int| 0 <= j < old(self).acceptances@.len() && #[trigger] tally_key(old(self).acceptances@[j]) == key;
                            assert(false);
                        }
                    }
                    assert(entry_voters =~= Set::<u64>::empty().insert(acceptor));
                    assert forall|j: int| 0 <= j < last implies #[trigger] tally_key(self.acceptances@[j]) == tally_key(old(self).acceptances@[j]) by {}
                    assert forall|k: (u64, Seq<char>)| #[trigger] self@.tally.contains_key(k) == old_tally.insert(key, voters(old(self)@, proposal, value@).insert(acceptor)).contains_key(k) by {
                        if old_tally.contains_key(k) {
                            let j = choose|j: int| 0 <= j < old(self).acceptances@.len() && #[trigger] tally_key(old(self).acceptances@[j]) == k;
                            assert(tally_key(self.acceptances@[j]) == k);
                        }
                        if self@.tally.contains_key(k) && k != key {
                            let j = choose|j: int| 0 <= j < self.acceptances@.len() && #[trigger] tally_key(self.acceptances@[j]) == k;
                            assert(tally_key(old(self).acceptances@[j]) == k);
                        }
                    }
                    assert forall|k: (u64, Seq<char>)| #[trigger] self@.tally.contains_key(k) implies self@.tally[k] == old_tally.insert(key, voters(old(self)@, proposal, value@).insert(acceptor))[k] by {
                        let j = choose|j: int| 0 <= j < self.acceptances@.len() && #[trigger] tally_key(self.acceptances@[j]) == k;
                        if k == key {
                            assert(j == last);
                        } else {
                            let jo = choose|j: int| 0 <= j < old(self).acceptances@.len() && #[trigger] tally_key(old(self).acceptances@[j]) == k;
                            assert(tally_key(old(self).acceptances@[j]) == k);
                            assert(j == jo);
                        }
                    }
                    assert(self@.tally =~= old_tally.insert(key, voters(old(self)@, proposal, value@).insert(acceptor)));
                }
                count
            },
        }
    }

    /// The chosen value, if a proposal gathered a majority.
    pub fn chosen_value(&self) -> (v: Option<&str>)
        ensures
            match v {
                Some(s) => self@.chosen matches Some(c) && s@ == c.1,
                None => self@.chosen is None,
            },
    {
        match &self.chosen {
            Some(c) => Some(c.value.as_str()),
            None => None,
        }
    }

    /// The recorded events.
    pub fn history(&self) -> (h: &[PaxosEvent])
        ensures
            h@ == self@.history,
    {
        self.history.as_slice()
    }

    fn ensure_known_node(&self, node: NodeId) -> (r: Result<(), PaxosError>)
        requires
            self.wf(),
        ensures
            r == if self@.acceptors.contains_key(node.0) {
                Ok::<(), PaxosError>(())
            } else {
                Err(PaxosError::UnknownNode(node))
            },
    {
        if self.acceptors.contains_key(node.0) {
            Ok(())
        } else {
            Err(PaxosError::UnknownNode(node))
        }
    }
}

proof fn lemma_safe_index_reports(promises: Seq<Promise>)
    ensures
        safe_index(promises) matches Some(j) ==> 0 <= j < promises.len() && promises[j].accepted is Some,
    decreases promises.len(),
{
    if promises.len() > 0 {
        lemma_safe_index_reports(promises.drop_last());
    }
}

/// A choice, once made, never changes, and promises never go down.
pub proof fn lemma_choice_and_promises_are_stable(s: PaxosView, proposer: u64, acceptor: u64, proposal: u64, value: Seq<char>, id: u64)
    ensures
        s.chosen is Some ==> accept_outcome(s, acceptor, proposal, value).0.chosen == s.chosen,
        s.chosen is Some ==> prepare_outcome(s, proposer, acceptor, proposal).0.chosen == s.chosen,
        (s.acceptors.contains_key(id) && s.acceptors[id].promised is Some) ==> (accept_outcome(s, acceptor, proposal, value).0.acceptors[id].promised is Some && accept_outcome(s, acceptor, proposal, value).0.acceptors[id].promised->0 >= s.acceptors[id].promised->0),
        (s.acceptors.contains_key(id) && s.acceptors[id].promised is Some) ==> (prepare_outcome(s, proposer, acceptor, proposal).0.acceptors[id].promised is Some && prepare_outcome(s, proposer, acceptor, proposal).0.acceptors[id].promised->0 >= s.acceptors[id].promised->0),
{
}

} // verus!
