//! Agreeing on one value in a single logical round.
//!
//! Known nodes accept identifiable proposals; a node accepts at most one
//! proposal, and the first proposal accepted by a majority of the nodes is
//! decided for good. Every step is recorded in a history.

use vstd::prelude::*;
use crate::id_map::{IdMap, IdSet};

verus! {

/// Stable node identifier.
#[derive(Clone, Copy, Debug, PartialEq, Eq, PartialOrd, Ord, Hash)]
pub struct NodeId(pub u64);

/// Stable identifier of a proposal within the round.
#[derive(Clone, Copy, Debug, PartialEq, Eq, PartialOrd, Ord, Hash)]
pub struct ProposalId(pub u64);

/// Observable event of the round.
#[derive(Clone, Debug, PartialEq, Eq)]
pub enum ConsensusEvent {
    /// A node made a proposal.
    Proposed {
        /// Proposing node.
        proposer: NodeId,
        /// The proposal.
        proposal: ProposalId,
    },
    /// A node accepted a proposal.
    Accepted {
        /// Accepting node.
        node: NodeId,
        /// The proposal accepted.
        proposal: ProposalId,
    },
    /// A proposal reached a quorum.
    Decided {
        /// The decided proposal.
        proposal: ProposalId,
    },
    /// A node became unavailable.
    NodeFailed {
        /// The node.
        node: NodeId,
    },
    /// A node became available again.
    NodeRecovered {
        /// The node.
        node: NodeId,
    },
}

/// Explicit error of the round.
#[derive(Clone, Debug, PartialEq, Eq)]
pub enum ConsensusError {
    /// The node does not take part in the round.
    UnknownNode(NodeId),
    /// The proposal does not exist.
    UnknownProposal(ProposalId),
    /// The node is down or partitioned away.
    NodeUnavailable(NodeId),
    /// The node already accepted another proposal in this round.
    ConflictingAcceptance {
        /// The node.
        node: NodeId,
        /// The proposal it accepted before.
        accepted: ProposalId,
        /// The incompatible proposal tried afterwards.
        attempted: ProposalId,
    },
    /// The round already decided another proposal.
    AlreadyDecided {
        /// The decided proposal.
        decided: ProposalId,
        /// The incompatible proposal tried afterwards.
        attempted: ProposalId,
    },
}

/// Mathematical state of a [`ConsensusRound`].
pub struct ConsensusView {
    /// The participating nodes.
    pub nodes: Set<u64>,
    /// The nodes currently down.
    pub unavailable: Set<u64>,
    /// The value of each proposal.
    pub proposals: Map<u64, Seq<char>>,
    /// The proposal each node accepted.
    pub accepted: Map<u64, u64>,
    /// The nodes that accepted each proposal.
    pub votes: Map<u64, Set<u64>>,
    /// The decided proposal, if any.
    pub decided: Option<u64>,
    /// The recorded events.
    pub history: Seq<ConsensusEvent>,
}

/// Size of a majority of `n` nodes.
pub open spec fn majority(n: nat) -> nat {
    n / 2 + 1
}

/// The nodes that accepted proposal `p`.
pub open spec fn votes_of(s: ConsensusView, p: u64) -> Set<u64> {
    if s.votes.contains_key(p) {
        s.votes[p]
    } else {
        Set::empty()
    }
}

/// The error an acceptance meets, if any, in the order the round checks.
pub open spec fn accept_error(s: ConsensusView, node: u64, proposal: u64) -> Option<ConsensusError> {
    if !s.nodes.contains(node) {
        Some(ConsensusError::UnknownNode(NodeId(node)))
    } else if s.unavailable.contains(node) {
        Some(ConsensusError::NodeUnavailable(NodeId(node)))
    } else if !s.proposals.contains_key(proposal) {
        Some(ConsensusError::UnknownProposal(ProposalId(proposal)))
    } else if s.decided is Some && s.decided->0 != proposal {
        Some(
            ConsensusError::AlreadyDecided {
                decided: ProposalId(s.decided->0),
                attempted: ProposalId(proposal),
            },
        )
    } else if s.accepted.contains_key(node) && s.accepted[node] != proposal {
        Some(
            ConsensusError::ConflictingAcceptance {
                node: NodeId(node),
                accepted: ProposalId(s.accepted[node]),
                attempted: ProposalId(proposal),
            },
        )
    } else {
        None
    }
}

/// The state after a successful acceptance: a repeated acceptance changes
/// nothing; a first one records the vote and decides the proposal when it
/// is the first to reach a majority.
pub open spec fn after_accept(s: ConsensusView, node: u64, proposal: u64) -> ConsensusView {
    if s.accepted.contains_key(node) {
        s
    } else {
        let votes = votes_of(s, proposal).insert(node);
        let history = s.history.push(
            ConsensusEvent::Accepted { node: NodeId(node), proposal: ProposalId(proposal) },
        );
        let decides = s.decided is None && votes.len() >= majority(s.nodes.len());
        ConsensusView {
            accepted: s.accepted.insert(node, proposal),
            votes: s.votes.insert(proposal, votes),
            decided: if decides {
                Some(proposal)
            } else {
                s.decided
            },
            history: if decides {
                history.push(ConsensusEvent::Decided { proposal: ProposalId(proposal) })
            } else {
                history
            },
            ..s
        }
    }
}

/// Two disjoint groups of a finite set of nodes cannot both be majorities.
pub proof fn lemma_majorities_intersect(nodes: Set<u64>, a: Set<u64>, b: Set<u64>)
    requires
        nodes.finite(),
        a.subset_of(nodes),
        b.subset_of(nodes),
        a.disjoint(b),
    ensures
        a.len() < majority(nodes.len()) || b.len() < majority(nodes.len()),
{
    vstd::set_lib::lemma_len_subset(a, nodes);
    vstd::set_lib::lemma_len_subset(b, nodes);
    vstd::set_lib::lemma_set_disjoint_lens(a, b);
    vstd::set_lib::lemma_len_subset(a + b, nodes);
}

/// A consensus round with majority quorum.
#[derive(Clone, Debug, PartialEq, Eq)]
pub struct ConsensusRound {
    nodes: IdSet,
    unavailable_nodes: IdSet,
    proposals: IdMap<String>,
    accepted_by_node: IdMap<u64>,
    votes_by_proposal: IdMap<IdSet>,
    decided: Option<u64>,
    history: Vec<ConsensusEvent>,
}

impl View for ConsensusRound {
    type V = ConsensusView;

    closed spec fn view(&self) -> ConsensusView {
        ConsensusView {
            nodes: self.nodes@,
            unavailable: self.unavailable_nodes@,
            proposals: self.proposals@.map_values(|v: String| v@),
            accepted: self.accepted_by_node@,
            votes: self.votes_by_proposal@.map_values(|v: IdSet| v@),
            decided: self.decided,
            history: self.history@,
        }
    }
}

impl ConsensusRound {
    /// The round's structures are well formed and agree with each other:
    /// a node is among the voters of a proposal exactly when it accepted it,
    /// only known nodes vote, and a decided proposal is a registered one with
    /// a majority.
    pub closed spec fn wf(&self) -> bool {
        &&& self.nodes.inv()
        &&& self.unavailable_nodes.inv()
        &&& self.proposals.inv()
        &&& self.accepted_by_node.inv()
        &&& self.votes_by_proposal.inv()
        &&& forall|p: u64| #[trigger]
            self.votes_by_proposal@.contains_key(p) ==> self.votes_by_proposal@[p].inv()
        &&& forall|p: u64, n: u64|
            #[trigger] votes_of(self@, p).contains(n) <==> (self@.accepted.contains_key(n)
                && self@.accepted[n] == p)
        &&& forall|n: u64| #[trigger] self@.accepted.contains_key(n) ==> self@.nodes.contains(n)
        &&& self.decided matches Some(p) ==> votes_of(self@, p).len() >= majority(self@.nodes.len())
        &&& self.decided matches Some(p) ==> self@.proposals.contains_key(p)
    }

    /// The voters of each proposal are known nodes, distinct proposals have
    /// disjoint voters, and the decided proposal, if any, is registered and
    /// has a majority.
    pub proof fn lemma_votes(&self, p: u64, q: u64)
        requires
            self.wf(),
        ensures
            votes_of(self@, p).subset_of(self@.nodes),
            votes_of(self@, p).finite(),
            p != q ==> votes_of(self@, p).disjoint(votes_of(self@, q)),
            self@.decided matches Some(d) ==> votes_of(self@, d).len() >= majority(self@.nodes.len()),
            self@.decided matches Some(d) ==> self@.proposals.contains_key(d),
            self@.nodes.finite(),
    {
        vstd::set_lib::lemma_len_subset(votes_of(self@, p), self@.nodes);
    }

    /// Only one proposal can hold a majority, so the decided proposal is the
    /// only one that ever can.
    pub proof fn lemma_one_majority(&self, p: u64, q: u64)
        requires
            self.wf(),
            p != q,
        ensures
            votes_of(self@, p).len() < majority(self@.nodes.len()) || votes_of(self@, q).len()
                < majority(self@.nodes.len()),
            self@.decided == Some(p) ==> votes_of(self@, q).len() < majority(self@.nodes.len()),
    {
        self.lemma_votes(p, q);
        self.lemma_votes(q, p);
        lemma_majorities_intersect(self@.nodes, votes_of(self@, p), votes_of(self@, q));
    }

    /// A round over the given nodes, with nothing proposed yet.
    pub fn new(nodes: &[NodeId]) -> (r: Self)
        ensures
            r.wf(),
            r@.nodes == nodes@.map_values(|n: NodeId| n.0).to_set(),
            r@.unavailable == Set::<u64>::empty(),
            r@.proposals == Map::<u64, Seq<char>>::empty(),
            r@.accepted == Map::<u64, u64>::empty(),
            r@.votes == Map::<u64, Set<u64>>::empty(),
            r@.decided == None::<u64>,
            r@.history == Seq::<ConsensusEvent>::empty(),
    {
        let mut members = IdSet::new();
        let mut i: usize = 0;
        while i < nodes.len()
            invariant
                i <= nodes@.len(),
                members.inv(),
                members@ == nodes@.take(i as int).map_values(|n: NodeId| n.0).to_set(),
            decreases nodes@.len() - i,
        {
            members.insert(nodes[i].0);
            proof {
                assert(nodes@.take(i + 1).map_values(|n: NodeId| n.0) == nodes@.take(
                    i as int,
                ).map_values(|n: NodeId| n.0).push(nodes@[i as int].0));
                nodes@.take(i as int).map_values(|n: NodeId| n.0).lemma_push_to_set_commute(
                    nodes@[i as int].0,
                );
            }
            i = i + 1;
        }
        proof {
            assert(nodes@.take(i as int) == nodes@);
        }
        let r = ConsensusRound {
            nodes: members,
            unavailable_nodes: IdSet::new(),
            proposals: IdMap::new(),
            accepted_by_node: IdMap::new(),
            votes_by_proposal: IdMap::new(),
            decided: None,
            history: Vec::new(),
        };
        proof {
            assert(r@.proposals =~= Map::<u64, Seq<char>>::empty());
            assert(r@.votes =~= Map::<u64, Set<u64>>::empty());
        }
        r
    }

    /// Size of a majority quorum.
    pub fn quorum_size(&self) -> (q: usize)
        requires
            self.wf(),
        ensures
            q == majority(self@.nodes.len()),
    {
        self.nodes.len() / 2 + 1
    }

    /// Records a proposal and its value; proposing the same identifier again
    /// replaces the value.
    pub fn propose(&mut self, proposer: NodeId, proposal: ProposalId, value: &str)
        requires
            old(self).wf(),
        ensures
            final(self).wf(),
            final(self)@ == (ConsensusView {
                proposals: old(self)@.proposals.insert(proposal.0, value@),
                history: old(self)@.history.push(ConsensusEvent::Proposed { proposer, proposal }),
                ..old(self)@
            }),
    {
        self.proposals.insert(proposal.0, value.to_owned());
        self.history.push(ConsensusEvent::Proposed { proposer, proposal });
        proof {
            assert(self@.proposals =~= old(self)@.proposals.insert(proposal.0, value@));
            assert forall|p: u64, n: u64|
                #[trigger] votes_of(self@, p).contains(n) <==> (self@.accepted.contains_key(n)
                    && self@.accepted[n] == p) by {
                assert(votes_of(self@, p) == votes_of(old(self)@, p));
            }
            assert(self.decided matches Some(p) ==> votes_of(self@, p) == votes_of(old(self)@, p));
        }
    }

    /// A known, available node accepts a known proposal.
    ///
    /// Errors come in this order: unknown node, unavailable node, unknown
    /// proposal, another proposal already decided, the node already accepted
    /// another proposal. Accepting the same proposal twice changes nothing.
    pub fn accept(&mut self, node: NodeId, proposal: ProposalId) -> (r: Result<(), ConsensusError>)
        requires
            old(self).wf(),
        ensures
            final(self).wf(),
            r == match accept_error(old(self)@, node.0, proposal.0) {
                Some(e) => Err::<(), ConsensusError>(e),
                None => Ok(()),
            },
            final(self)@ == if accept_error(old(self)@, node.0, proposal.0) is Some {
                old(self)@
            } else {
                after_accept(old(self)@, node.0, proposal.0)
            },
            r is Ok && old(self)@.decided is None && !old(self)@.accepted.contains_key(node.0)
                && votes_of(old(self)@, proposal.0).insert(node.0).len() >= majority(
                old(self)@.nodes.len(),
            ) ==> final(self)@.decided == Some(proposal.0),
            old(self)@.decided is Some ==> final(self)@.decided == old(self)@.decided,
    {
        proof {
            if accept_error(old(self)@, node.0, proposal.0) is None {
                lemma_first_majority_decides(old(self)@, node.0, proposal.0);
            }
        }
        self.ensure_known_node(node)?;
        self.ensure_available_node(node)?;
        self.ensure_known_proposal(proposal)?;
        if let Some(decided) = self.decided {
            if decided != proposal.0 {
                return Err(
                    ConsensusError::AlreadyDecided {
                        decided: ProposalId(decided),
                        attempted: proposal,
                    },
                );
            }
        }
        if let Some(accepted) = self.accepted_by_node.get(node.0) {
            let accepted = *accepted;
            if accepted != proposal.0 {
                return Err(
                    ConsensusError::ConflictingAcceptance {
                        node,
                        accepted: ProposalId(accepted),
                        attempted: proposal,
                    },
                );
            }
            return Ok(());
        }
        let ghost s = self@;
        let quorum_size = self.quorum_size();
        self.accepted_by_node.insert(node.0, proposal.0);
        let mut votes = match self.votes_by_proposal.remove(proposal.0) {
            Some(v) => v,
            None => IdSet::new(),
        };
        votes.insert(node.0);
        let count = votes.len();
        self.votes_by_proposal.insert(proposal.0, votes);
        self.history.push(ConsensusEvent::Accepted { node, proposal });
        proof {
            assert(!votes_of(s, proposal.0).contains(node.0));
            assert(self@.votes =~= s.votes.insert(proposal.0, votes_of(s, proposal.0).insert(node.0)));
            assert(self@.accepted =~= s.accepted.insert(node.0, proposal.0));
            assert forall|p: u64, n: u64|
                #[trigger] votes_of(self@, p).contains(n) <==> (self@.accepted.contains_key(n)
                    && self@.accepted[n] == p) by {
                if p != proposal.0 {
                    assert(votes_of(self@, p) == votes_of(s, p));
                }
            }
        }
        let ghost mid = self@;
        if self.decided.is_none() && count >= quorum_size {
            self.decided = Some(proposal.0);
            self.history.push(ConsensusEvent::Decided { proposal });
        }
        proof {
            assert forall|p: u64| #[trigger] votes_of(self@, p) == votes_of(mid, p) by {}
            assert(count == votes_of(self@, proposal.0).len());
            if let Some(d) = s.decided {
                assert(d == proposal.0);
                assert(votes_of(self@, d) == votes_of(s, d).insert(node.0));
                vstd::set_lib::lemma_len_subset(votes_of(s, d), votes_of(self@, d));
            }
            assert(forall|p: u64| #[trigger]
                self.votes_by_proposal@.contains_key(p) ==> self.votes_by_proposal@[p].inv());
            assert(forall|n: u64| #[trigger] self@.accepted.contains_key(n) ==> self@.nodes.contains(n));
            assert(self.decided matches Some(p) ==> votes_of(self@, p).len() >= majority(self@.nodes.len()));
        }
        Ok(())
    }

    /// Marks a known node as unavailable.
    pub fn fail_node(&mut self, node: NodeId) -> (r: Result<(), ConsensusError>)
        requires
            old(self).wf(),
        ensures
            final(self).wf(),
            old(self)@.nodes.contains(node.0) ==> r == Ok::<(), ConsensusError>(()) && final(self)@ == (ConsensusView {
                unavailable: old(self)@.unavailable.insert(node.0),
                history: old(self)@.history.push(ConsensusEvent::NodeFailed { node }),
                ..old(self)@
            }),
            !old(self)@.nodes.contains(node.0) ==> r == Err::<(), ConsensusError>(
                ConsensusError::UnknownNode(node),
            ) && final(self)@ == old(self)@,
    {
        self.ensure_known_node(node)?;
        self.unavailable_nodes.insert(node.0);
        self.history.push(ConsensusEvent::NodeFailed { node });
        proof {
            assert forall|p: u64| #[trigger] votes_of(self@, p) == votes_of(old(self)@, p) by {}
        }
        Ok(())
    }

    /// Marks a known node as available again.
    pub fn recover_node(&mut self, node: NodeId) -> (r: Result<(), ConsensusError>)
        requires
            old(self).wf(),
        ensures
            final(self).wf(),
            old(self)@.nodes.contains(node.0) ==> r == Ok::<(), ConsensusError>(()) && final(self)@ == (ConsensusView {
                unavailable: old(self)@.unavailable.remove(node.0),
                history: old(self)@.history.push(ConsensusEvent::NodeRecovered { node }),
                ..old(self)@
            }),
            !old(self)@.nodes.contains(node.0) ==> r == Err::<(), ConsensusError>(
                ConsensusError::UnknownNode(node),
            ) && final(self)@ == old(self)@,
    {
        self.ensure_known_node(node)?;
        self.unavailable_nodes.remove(node.0);
        self.history.push(ConsensusEvent::NodeRecovered { node });
        proof {
            assert forall|p: u64| #[trigger] votes_of(self@, p) == votes_of(old(self)@, p) by {}
        }
        Ok(())
    }

    /// The decided value, if a proposal reached a quorum.
    pub fn decided_value(&self) -> (r: Option<&str>)
        requires
            self.wf(),
        ensures
            match self@.decided {
                Some(p) => r is Some && r->0@ == self@.proposals[p],
                None => r is None,
            },
    {
        match self.decided {
            Some(p) => match self.proposals.get(p) {
                Some(v) => Some(v.as_str()),
                None => None,
            },
            None => None,
        }
    }

    /// The recorded events.
    pub fn history(&self) -> (h: &[ConsensusEvent])
        ensures
            h@ == self@.history,
    {
        self.history.as_slice()
    }

    fn ensure_known_node(&self, node: NodeId) -> (r: Result<(), ConsensusError>)
        requires
            self.wf(),
        ensures
            r == if self@.nodes.contains(node.0) {
                Ok::<(), ConsensusError>(())
            } else {
                Err(ConsensusError::UnknownNode(node))
            },
    {
        if self.nodes.contains(node.0) {
            Ok(())
        } else {
            Err(ConsensusError::UnknownNode(node))
        }
    }

    fn ensure_available_node(&self, node: NodeId) -> (r: Result<(), ConsensusError>)
        requires
            self.wf(),
        ensures
            r == if self@.unavailable.contains(node.0) {
                Err(ConsensusError::NodeUnavailable(node))
            } else {
                Ok::<(), ConsensusError>(())
            },
    {
        if self.unavailable_nodes.contains(node.0) {
            Err(ConsensusError::NodeUnavailable(node))
        } else {
            Ok(())
        }
    }

    fn ensure_known_proposal(&self, proposal: ProposalId) -> (r: Result<(), ConsensusError>)
        requires
            self.wf(),
        ensures
            r == if self@.proposals.contains_key(proposal.0) {
                Ok::<(), ConsensusError>(())
            } else {
                Err(ConsensusError::UnknownProposal(proposal))
            },
    {
        if self.proposals.contains_key(proposal.0) {
            Ok(())
        } else {
            Err(ConsensusError::UnknownProposal(proposal))
        }
    }
}

/// Law of deciding: an acceptance decides its proposal exactly when it is
/// the first to give that proposal the votes of a majority of all the
/// round's nodes, whichever of them are down. A round already decided keeps
/// its decision, and any decision an acceptance takes is for the accepted
/// proposal, which then has a majority.
pub proof fn lemma_first_majority_decides(s: ConsensusView, node: u64, p: u64)
    requires
        accept_error(s, node, p) is None,
    ensures
        s.decided is Some ==> after_accept(s, node, p).decided == s.decided,
        s.decided is None && !s.accepted.contains_key(node) && votes_of(s, p).insert(node).len()
            >= majority(s.nodes.len()) ==> after_accept(s, node, p).decided == Some(p),
        s.decided is None && after_accept(s, node, p).decided is Some ==> after_accept(s, node, p).decided
            == Some(p) && votes_of(after_accept(s, node, p), p).len() >= majority(s.nodes.len()),
        after_accept(s, node, p).nodes == s.nodes,
{
}

/// Once a round has decided, no acceptance changes the decision.
pub proof fn lemma_decision_is_final(s: ConsensusView, node: u64, proposal: u64)
    requires
        s.decided is Some,
    ensures
        accept_error(s, node, proposal) is None ==> after_accept(s, node, proposal).decided
            == s.decided,
{
}

} // verus!
