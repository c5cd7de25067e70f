//! Deterministic leader election by majority.
//!
//! Nodes have terms, roles and at most one vote per term. A candidate opens
//! a new term, collects votes and becomes leader once a majority voted for
//! it in that term. Nodes can fail and recover; every step is recorded.

use vstd::prelude::*;
use crate::id_map::{IdMap, IdSet, count_where, strictly_increasing};

verus! {

/// Stable node identifier.
#[derive(Clone, Copy, Debug, PartialEq, Eq, PartialOrd, Ord, Hash)]
pub struct NodeId(pub u64);

/// Logical election term.
#[derive(Clone, Copy, Debug, PartialEq, Eq, PartialOrd, Ord, Hash)]
pub struct ElectionTerm(pub u64);

/// Local role of a node.
#[derive(Clone, Copy, Debug, PartialEq, Eq)]
pub enum LeadershipRole {
    /// Not running for election.
    Follower,
    /// Asking for votes.
    Candidate,
    /// Won a majority in its term.
    Leader,
}

/// Observable event of the election.
#[derive(Clone, Debug, PartialEq, Eq)]
pub enum ElectionEvent {
    /// A candidate opened an election.
    ElectionStarted {
        /// The candidate.
        candidate: NodeId,
        /// Term of the election.
        term: ElectionTerm,
    },
    /// A node granted its vote.
    VoteGranted {
        /// The voter.
        voter: NodeId,
        /// The candidate voted for.
        candidate: NodeId,
        /// Term of the vote.
        term: ElectionTerm,
    },
    /// A candidate won a majority.
    LeaderElected {
        /// The leader.
        leader: NodeId,
        /// Term of the leadership.
        term: ElectionTerm,
    },
    /// A node became unavailable.
    NodeFailed {
        /// The node.
        node: NodeId,
    },
    /// A node became available again.
    NodeRecovered {
        /// The node.
        node: NodeId,
    },
}

/// Explicit error of the election.
#[derive(Clone, Debug, PartialEq, Eq)]
pub enum LeaderElectionError {
    /// The node is not in the group.
    UnknownNode(NodeId),
    /// The node is down or partitioned away.
    NodeUnavailable(NodeId),
    /// The term tried is older than the current one.
    StaleTerm {
        /// The node refusing the term.
        node: NodeId,
        /// The current term.
        current: ElectionTerm,
        /// The term tried.
        attempted: ElectionTerm,
    },
    /// The node already voted for another candidate in this term.
    AlreadyVoted {
        /// The voter.
        voter: NodeId,
        /// Term of the vote.
        term: ElectionTerm,
        /// The candidate voted for before.
        voted_for: NodeId,
        /// The candidate tried afterwards.
        attempted: NodeId,
    },
    /// The candidate has no majority.
    ElectionWithoutMajority {
        /// The candidate.
        candidate: NodeId,
        /// Term of the election.
        term: ElectionTerm,
        /// Votes it has.
        votes: usize,
        /// Votes it needs.
        quorum: usize,
    },
}

/// Mathematical state of one node.
pub struct ElectionNodeView {
    /// Current term.
    pub current_term: u64,
    /// Current role.
    pub role: LeadershipRole,
    /// The candidate voted for, by term.
    pub votes: Map<u64, u64>,
}

/// Mathematical state of a [`LeaderElection`].
pub struct ElectionView {
    /// The nodes, by identifier.
    pub nodes: Map<u64, ElectionNodeView>,
    /// The node identifiers, in ascending order.
    pub ids: Seq<u64>,
    /// The nodes currently down.
    pub unavailable: Set<u64>,
    /// The current leader, if any.
    pub leader: Option<u64>,
    /// The recorded events.
    pub history: Seq<ElectionEvent>,
}

/// Size of a majority of the group.
pub open spec fn quorum(s: ElectionView) -> nat {
    s.nodes.len() / 2 + 1
}

/// Highest current term among the nodes listed in `ids` (zero for none).
pub open spec fn max_term(nodes: Map<u64, ElectionNodeView>, ids: Seq<u64>) -> u64
    decreases ids.len(),
{
    if ids.len() == 0 {
        0
    } else {
        let rest = max_term(nodes, ids.drop_last());
        let t = nodes[ids.last()].current_term;
        if rest >= t {
            rest
        } else {
            t
        }
    }
}

/// Node `id` voted for `candidate` in `term`.
pub open spec fn voted_for(s: ElectionView, id: u64, candidate: u64, term: u64) -> bool {
    s.nodes[id].votes.contains_key(term) && s.nodes[id].votes[term] == candidate
}

/// How many nodes voted for `candidate` in `term`.
pub open spec fn votes_for(s: ElectionView, candidate: u64, term: u64) -> nat {
    count_where(s.ids, |id: u64| voted_for(s, id, candidate, term))
}

/// The first error a node meets when it must exist and be available.
pub open spec fn availability_error(s: ElectionView, node: u64) -> Option<LeaderElectionError> {
    if !s.nodes.contains_key(node) {
        Some(LeaderElectionError::UnknownNode(NodeId(node)))
    } else if s.unavailable.contains(node) {
        Some(LeaderElectionError::NodeUnavailable(NodeId(node)))
    } else {
        None
    }
}

/// Outcome of a candidate opening an election.
pub open spec fn start_outcome(s: ElectionView, candidate: u64) -> (ElectionView, Result<ElectionTerm, LeaderElectionError>) {
    match availability_error(s, candidate) {
        Some(e) => (s, Err(e)),
        None => {
            let node = s.nodes[candidate];
            let term = (node.current_term + 1) as u64;
            (
                ElectionView {
                    nodes: s.nodes.insert(
                        candidate,
                        ElectionNodeView {
                            current_term: term,
                            role: LeadershipRole::Candidate,
                            votes: node.votes.insert(term, candidate),
                        },
                    ),
                    leader: None,
                    history: s.history.push(
                        ElectionEvent::ElectionStarted {
                            candidate: NodeId(candidate),
                            term: ElectionTerm(term),
                        },
                    ),
                    ..s
                },
                Ok(ElectionTerm(term)),
            )
        },
    }
}

/// Outcome of asking `voter` to vote for `candidate` in `term`.
pub open spec fn grant_outcome(s: ElectionView, voter: u64, candidate: u64, term: u64) -> (ElectionView, Result<(), LeaderElectionError>) {
    if !s.nodes.contains_key(candidate) {
        (s, Err(LeaderElectionError::UnknownNode(NodeId(candidate))))
    } else if availability_error(s, voter) is Some {
        (s, Err(availability_error(s, voter)->0))
    } else if term < max_term(s.nodes, s.ids) {
        (
            s,
            Err(
                LeaderElectionError::StaleTerm {
                    node: NodeId(voter),
                    current: ElectionTerm(max_term(s.nodes, s.ids)),
                    attempted: ElectionTerm(term),
                },
            ),
        )
    } else {
        let node = s.nodes[voter];
        let bumped = if term > node.current_term {
            ElectionNodeView { current_term: term, role: LeadershipRole::Follower, votes: node.votes }
        } else {
            node
        };
        let after_bump = ElectionView { nodes: s.nodes.insert(voter, bumped), ..s };
        if bumped.votes.contains_key(term) {
            if bumped.votes[term] != candidate {
                (
                    after_bump,
                    Err(
                        LeaderElectionError::AlreadyVoted {
                            voter: NodeId(voter),
                            term: ElectionTerm(term),
                            voted_for: NodeId(bumped.votes[term]),
                            attempted: NodeId(candidate),
                        },
                    ),
                )
            } else {
                (after_bump, Ok(()))
            }
        } else {
            (
                ElectionView {
                    nodes: s.nodes.insert(
                        voter,
                        ElectionNodeView { votes: bumped.votes.insert(term, candidate), ..bumped },
                    ),
                    history: s.history.push(
                        ElectionEvent::VoteGranted {
                            voter: NodeId(voter),
                            candidate: NodeId(candidate),
                            term: ElectionTerm(term),
                        },
                    ),
                    ..s
                },
                Ok(()),
            )
        }
    }
}

/// The nodes once `candidate` wins `term`: it leads, and every node not
/// already past that term follows in it.
pub open spec fn elected_nodes(nodes: Map<u64, ElectionNodeView>, candidate: u64, term: u64) -> Map<u64, ElectionNodeView> {
    Map::new(
        |id: u64| nodes.contains_key(id),
        |id: u64|
            if id == candidate {
                ElectionNodeView { current_term: term, role: LeadershipRole::Leader, votes: nodes[id].votes }
            } else if nodes[id].current_term <= term {
                ElectionNodeView { current_term: term, role: LeadershipRole::Follower, votes: nodes[id].votes }
            } else {
                nodes[id]
            },
    )
}

/// Outcome of closing `candidate`'s election.
pub open spec fn finish_outcome(s: ElectionView, candidate: u64) -> (ElectionView, Result<(), LeaderElectionError>) {
    if !s.nodes.contains_key(candidate) {
        (s, Err(LeaderElectionError::UnknownNode(NodeId(candidate))))
    } else {
        let term = s.nodes[candidate].current_term;
        let votes = votes_for(s, candidate, term);
        if votes < quorum(s) {
            (
                s,
                Err(
                    LeaderElectionError::ElectionWithoutMajority {
                        candidate: NodeId(candidate),
                        term: ElectionTerm(term),
                        votes: votes as usize,
                        quorum: quorum(s) as usize,
                    },
                ),
            )
        } else {
            (
                ElectionView {
                    nodes: elected_nodes(s.nodes, candidate, term),
                    leader: Some(candidate),
                    history: s.history.push(
                        ElectionEvent::LeaderElected {
                            leader: NodeId(candidate),
                            term: ElectionTerm(term),
                        },
                    ),
                    ..s
                },
                Ok(()),
            )
        }
    }
}

/// No term is higher than the highest term.
pub proof fn lemma_max_term(nodes: Map<u64, ElectionNodeView>, ids: Seq<u64>)
    ensures
        forall|i: int| 0 <= i < ids.len() ==> nodes[#[trigger] ids[i]].current_term <= max_term(nodes, ids),
    decreases ids.len(),
{
    if ids.len() > 0 {
        lemma_max_term(nodes, ids.drop_last());
        assert forall|i: int| 0 <= i < ids.len() implies nodes[#[trigger] ids[i]].current_term
            <= max_term(nodes, ids) by {
            if i < ids.len() - 1 {
                assert(ids.drop_last()[i] == ids[i]);
            }
        }
    }
}

/// Election safety: in one term, at most one candidate can hold a majority
/// of the votes, because each node votes at most once per term.
pub proof fn lemma_one_winner_per_term(s: ElectionView, a: u64, b: u64, term: u64)
    requires
        s.ids.len() == s.nodes.len(),
        votes_for(s, a, term) >= quorum(s),
        votes_for(s, b, term) >= quorum(s),
    ensures
        a == b,
{
    if a != b {
        crate::id_map::lemma_count_where_disjoint(
            s.ids,
            |id: u64| voted_for(s, id, a, term),
            |id: u64| voted_for(s, id, b, term),
        );
    }
}

/// A vote, once cast, is never changed: neither opening an election nor
/// granting a vote touches a vote already cast for a term, provided no node
/// holds a vote for a term beyond its own.
pub proof fn lemma_votes_are_permanent(s: ElectionView, node: u64, voter: u64, candidate: u64, term: u64, id: u64, t: u64)
    requires
        forall|x: u64, u: u64| #[trigger] s.nodes.contains_key(x) && #[trigger] s.nodes[x].votes.contains_key(u) ==> u <= s.nodes[x].current_term,
        availability_error(s, node) is None ==> s.nodes[node].current_term < u64::MAX,
        s.nodes.contains_key(id),
        s.nodes[id].votes.contains_key(t),
    ensures
        start_outcome(s, node).0.nodes[id].votes.contains_key(t),
        start_outcome(s, node).0.nodes[id].votes[t] == s.nodes[id].votes[t],
        grant_outcome(s, voter, candidate, term).0.nodes[id].votes.contains_key(t),
        grant_outcome(s, voter, candidate, term).0.nodes[id].votes[t] == s.nodes[id].votes[t],
{
    assert(s.nodes.contains_key(id) && s.nodes[id].votes.contains_key(t));
}

/// Deterministic majority election.
#[derive(Clone, Debug, PartialEq, Eq)]
pub struct LeaderElection {
    nodes: IdMap<ElectionNode>,
    unavailable_nodes: IdSet,
    leader: Option<u64>,
    history: Vec<ElectionEvent>,
}

#[derive(Clone, Debug, PartialEq, Eq)]
struct ElectionNode {
    current_term: u64,
    role: LeadershipRole,
    votes_by_term: IdMap<u64>,
}

impl View for ElectionNode {
    type V = ElectionNodeView;

    closed spec fn view(&self) -> ElectionNodeView {
        ElectionNodeView { current_term: self.current_term, role: self.role, votes: self.votes_by_term@ }
    }
}

impl ElectionNode {
    closed spec fn wf(&self) -> bool {
        self.votes_by_term.inv()
    }

    fn new() -> (n: Self)
        ensures
            n.wf(),
            n@ == (ElectionNodeView {
                current_term: 0,
                role: LeadershipRole::Follower,
                votes: Map::empty(),
            }),
    {
        ElectionNode { current_term: 0, role: LeadershipRole::Follower, votes_by_term: IdMap::new() }
    }

    fn with(&self, current_term: u64, role: LeadershipRole) -> (n: Self)
        requires
            self.wf(),
        ensures
            n.wf(),
            n@ == (ElectionNodeView { current_term, role, votes: self@.votes }),
    {
        ElectionNode { current_term, role, votes_by_term: self.votes_by_term.duplicate() }
    }
}

impl View for LeaderElection {
    type V = ElectionView;

    closed spec fn view(&self) -> ElectionView {
        ElectionView {
            nodes: self.nodes@.map_values(|n: ElectionNode| n@),
            ids: self.nodes.key_seq(),
            unavailable: self.unavailable_nodes@,
            leader: self.leader,
            history: self.history@,
        }
    }
}

impl LeaderElection {
    /// The election's structures are well formed, and no node holds a vote
    /// for a term beyond its current one.
    pub closed spec fn wf(&self) -> bool {
        &&& self.nodes.inv()
        &&& self.unavailable_nodes.inv()
        &&& forall|id: u64| #[trigger] self.nodes@.contains_key(id) ==> self.nodes@[id].wf()
        &&& forall|id: u64, t: u64|
            #[trigger] self@.nodes.contains_key(id) && #[trigger] self@.nodes[id].votes.contains_key(t)
                ==> t <= self@.nodes[id].current_term
    }

    /// Facts that the well-formedness gives callers.
    pub proof fn lemma_wf(&self)
        requires
            self.wf(),
        ensures
            strictly_increasing(self@.ids),
            self@.ids.len() == self@.nodes.len(),
            forall|id: u64| #[trigger] self@.nodes.contains_key(id) <==> self@.ids.contains(id),
            forall|id: u64, t: u64|
                #[trigger] self@.nodes.contains_key(id) && #[trigger] self@.nodes[id].votes.contains_key(t)
                    ==> t <= self@.nodes[id].current_term,
    {
        assert(self@.nodes.dom() =~= self.nodes@.dom());
        assert forall|id: u64| #[trigger] self@.nodes.contains_key(id) <==> self@.ids.contains(id) by {
            if self@.ids.contains(id) {
                let i = choose|i: int| 0 <= i < self@.ids.len() && self@.ids[i] == id;
                assert(self.nodes@.contains_key(self.nodes.key_seq()[i]));
            }
        }
    }

    /// An election over the given nodes, all followers in term zero.
    pub fn new(nodes: &[NodeId]) -> (e: Self)
        ensures
            e.wf(),
            forall|id: u64| #[trigger] e@.nodes.contains_key(id) <==> exists|i: int|
                0 <= i < nodes@.len() && nodes@[i].0 == id,
            forall|id: u64| #[trigger] e@.nodes.contains_key(id) ==> e@.nodes[id] == (ElectionNodeView {
                current_term: 0,
                role: LeadershipRole::Follower,
                votes: Map::empty(),
            }),
            e@.unavailable == Set::<u64>::empty(),
            e@.leader == None::<u64>,
            e@.history == Seq::<ElectionEvent>::empty(),
    {
        let mut map: IdMap<ElectionNode> = IdMap::new();
        let mut i: usize = 0;
        while i < nodes.len()
            invariant
                i <= nodes@.len(),
                map.inv(),
                forall|id: u64| #[trigger] map@.contains_key(id) ==> map@[id].wf() && map@[id]@ == (ElectionNodeView {
                    current_term: 0,
                    role: LeadershipRole::Follower,
                    votes: Map::empty(),
                }),
                forall|id: u64| #[trigger] map@.contains_key(id) <==> exists|p: int|
                    0 <= p < i && nodes@[p].0 == id,
            decreases nodes@.len() - i,
        {
            let ghost before = map@;
            map.insert(nodes[i].0, ElectionNode::new());
            proof {
                assert forall|id: u64| #[trigger] map@.contains_key(id) <==> exists|p: int|
                    0 <= p < i + 1 && nodes@[p].0 == id by {
                    if before.contains_key(id) {
                        let p = choose|p: int| 0 <= p < i && nodes@[p].0 == id;
                        assert(0 <= p < i + 1 && nodes@[p].0 == id);
                    }
                    if id == nodes@[i as int].0 {
                        assert(nodes@[i as int].0 == id);
                    }
                }
            }
            i = i + 1;
        }
        LeaderElection { nodes: map, unavailable_nodes: IdSet::new(), leader: None, history: Vec::new() }
    }

    /// Size of a majority quorum.
    pub fn quorum_size(&self) -> (q: usize)
        requires
            self.wf(),
        ensures
            q == quorum(self@),
    {
        proof {
            assert(self@.nodes.dom() =~= self.nodes@.dom());
        }
        self.nodes.len() / 2 + 1
    }

    /// The current leader, if one was elected.
    pub fn leader(&self) -> (l: Option<NodeId>)
        ensures
            l == match self@.leader {
                Some(id) => Some(NodeId(id)),
                None => None,
            },
    {
        match self.leader {
            Some(id) => Some(NodeId(id)),
            None => None,
        }
    }

    /// Local role of a known node.
    pub fn role(&self, node: NodeId) -> (r: Result<LeadershipRole, LeaderElectionError>)
        requires
            self.wf(),
        ensures
            r == if self@.nodes.contains_key(node.0) {
                Ok::<LeadershipRole, LeaderElectionError>(self@.nodes[node.0].role)
            } else {
                Err(LeaderElectionError::UnknownNode(node))
            },
    {
        match self.nodes.get(node.0) {
            Some(n) => Ok(n.role),
            None => Err(LeaderElectionError::UnknownNode(node)),
        }
    }

    /// The recorded events.
    pub fn history(&self) -> (h: &[ElectionEvent])
        ensures
            h@ == self@.history,
    {
        self.history.as_slice()
    }

    /// A known, available candidate opens the next term, votes for itself
    /// and becomes a candidate; there is no leader until the election ends.
    pub fn start_election(&mut self, candidate: NodeId) -> (r: Result<ElectionTerm, LeaderElectionError>)
        requires
            old(self).wf(),
            availability_error(old(self)@, candidate.0) is None ==> old(self)@.nodes[candidate.0].current_term
                < u64::MAX,
        ensures
            final(self).wf(),
            (final(self)@, r) == start_outcome(old(self)@, candidate.0),
    {
        self.ensure_available_node(candidate)?;
        let node = self.nodes.get(candidate.0).unwrap();
        let term = node.current_term + 1;
        let mut updated = node.with(term, LeadershipRole::Candidate);
        updated.votes_by_term.insert(term, candidate.0);
        self.nodes.insert(candidate.0, updated);
        self.leader = None;
        self.history.push(
            ElectionEvent::ElectionStarted { candidate, term: ElectionTerm(term) },
        );
        proof {
            let expected = start_outcome(old(self)@, candidate.0).0;
            assert(self@.nodes =~= expected.nodes);
            assert forall|id: u64, t: u64|
                #[trigger] self@.nodes.contains_key(id) && #[trigger] self@.nodes[id].votes.contains_key(t)
                    implies t <= self@.nodes[id].current_term by {
                if id != candidate.0 {
                    assert(old(self)@.nodes.contains_key(id) && old(self)@.nodes[id].votes.contains_key(t));
                } else if t != term {
                    assert(old(self)@.nodes[id].votes.contains_key(t));
                }
            }
        }
        Ok(ElectionTerm(term))
    }

    /// `voter` grants its vote for `term` to `candidate`.
    ///
    /// The candidate must exist and the voter must exist and be available; a
    /// term older than the highest term in the group is stale. A newer term
    /// moves the voter to it as a follower. A voter votes at most once per
    /// term: voting again for the same candidate changes nothing more, voting
    /// for another one is refused.
    pub fn grant_vote(&mut self, voter: NodeId, candidate: NodeId, term: ElectionTerm) -> (r: Result<(), LeaderElectionError>)
        requires
            old(self).wf(),
        ensures
            final(self).wf(),
            (final(self)@, r) == grant_outcome(old(self)@, voter.0, candidate.0, term.0),
    {
        self.ensure_known_node(candidate)?;
        self.ensure_available_node(voter)?;
        let current_term = self.highest_term();
        if term.0 < current_term.0 {
            return Err(
                LeaderElectionError::StaleTerm { node: voter, current: current_term, attempted: term },
            );
        }
        proof {
            self.lemma_wf();
            lemma_max_term(self@.nodes, self@.ids);
            let i = choose|i: int| 0 <= i < self@.ids.len() && self@.ids[i] == voter.0;
            assert(self@.nodes[self@.ids[i]].current_term <= current_term.0);
        }
        let node = self.nodes.get(voter.0).unwrap();
        if term.0 < node.current_term {
            return Err(
                LeaderElectionError::StaleTerm {
                    node: voter,
                    current: ElectionTerm(node.current_term),
                    attempted: term,
                },
            );
        }
        let mut updated = if term.0 > node.current_term {
            node.with(term.0, LeadershipRole::Follower)
        } else {
            node.with(node.current_term, node.role)
        };
        let previous = match updated.votes_by_term.get(term.0) {
            Some(c) => Some(*c),
            None => None,
        };
        if let Some(voted_for) = previous {
            self.nodes.insert(voter.0, updated);
            proof {
                let expected = grant_outcome(old(self)@, voter.0, candidate.0, term.0).0;
                assert(self@.nodes =~= expected.nodes);
                self.lemma_keep_votes_bound(old(self)@, voter.0);
            }
            if voted_for != candidate.0 {
                return Err(
                    LeaderElectionError::AlreadyVoted {
                        voter,
                        term,
                        voted_for: NodeId(voted_for),
                        attempted: candidate,
                    },
                );
            }
            return Ok(());
        }
        updated.votes_by_term.insert(term.0, candidate.0);
        self.nodes.insert(voter.0, updated);
        self.history.push(ElectionEvent::VoteGranted { voter, candidate, term });
        proof {
            let expected = grant_outcome(old(self)@, voter.0, candidate.0, term.0).0;
            assert(self@.nodes =~= expected.nodes);
            self.lemma_keep_votes_bound(old(self)@, voter.0);
        }
        Ok(())
    }

    proof fn lemma_keep_votes_bound(&self, before: ElectionView, changed: u64)
        requires
            forall|id: u64, t: u64|
                #[trigger] before.nodes.contains_key(id) && #[trigger] before.nodes[id].votes.contains_key(t)
                    ==> t <= before.nodes[id].current_term,
            forall|id: u64| #[trigger] self@.nodes.contains_key(id) && id != changed ==> before.nodes.contains_key(id) && self@.nodes[id] == before.nodes[id],
            self@.nodes.contains_key(changed) ==> forall|t: u64| #[trigger] self@.nodes[changed].votes.contains_key(t) ==> t <= self@.nodes[changed].current_term,
        ensures
            forall|id: u64, t: u64|
                #[trigger] self@.nodes.contains_key(id) && #[trigger] self@.nodes[id].votes.contains_key(t)
                    ==> t <= self@.nodes[id].current_term,
    {
        assert forall|id: u64, t: u64|
            #[trigger] self@.nodes.contains_key(id) && #[trigger] self@.nodes[id].votes.contains_key(t)
                implies t <= self@.nodes[id].current_term by {
            if id != changed {
                assert(before.nodes.contains_key(id) && before.nodes[id].votes.contains_key(t));
            }
        }
    }

    /// Closes `candidate`'s election: with a majority of votes in its current
    /// term it becomes leader, and every node not already past that term
    /// follows it in that term.
    pub fn finish_election(&mut self, candidate: NodeId) -> (r: Result<(), LeaderElectionError>)
        requires
            old(self).wf(),
        ensures
            final(self).wf(),
            (final(self)@, r) == finish_outcome(old(self)@, candidate.0),
    {
        let term = match self.nodes.get(candidate.0) {
            Some(n) => n.current_term,
            None => {
                return Err(LeaderElectionError::UnknownNode(candidate));
            },
        };
        let ghost s = self@;
        let ghost pred = |id: u64| voted_for(s, id, candidate.0, term);
        let len = self.nodes.len();
        let mut votes: usize = 0;
        let mut i: usize = 0;
        while i < len
            invariant
                i <= len,
                len == s.ids.len(),
                self.wf(),
                self@ == s,
                pred == (|id: u64| voted_for(s, id, candidate.0, term)),
                votes == count_where(s.ids.take(i as int), pred),
            decreases len - i,
        {
            let node = self.nodes.value_at(i);
            proof {
                assert(s.ids.take(i + 1).drop_last() == s.ids.take(i as int));
                crate::id_map::lemma_count_where_bound(s.ids.take(i as int), pred);
                assert(self.nodes@.contains_key(self.nodes.key_seq()[i as int]));
            }
            let voted = match node.votes_by_term.get(term) {
                Some(c) => *c == candidate.0,
                None => false,
            };
            if voted {
                votes = votes + 1;
            }
            i = i + 1;
        }
        proof {
            assert(s.ids.take(i as int) == s.ids);
        }
        let quorum = self.quorum_size();
        if votes < quorum {
            return Err(
                LeaderElectionError::ElectionWithoutMajority {
                    candidate,
                    term: ElectionTerm(term),
                    votes,
                    quorum,
                },
            );
        }
        let ghost target = elected_nodes(s.nodes, candidate.0, term);
        let mut j: usize = 0;
        while j < len
            invariant
                j <= len,
                len == s.ids.len(),
                self.nodes.inv(),
                self.unavailable_nodes == old(self).unavailable_nodes,
                self.leader == old(self).leader,
                self.history == old(self).history,
                self.nodes.key_seq() == s.ids,
                s == old(self)@,
                target == elected_nodes(s.nodes, candidate.0, term),
                forall|id: u64| #[trigger] self.nodes@.contains_key(id) ==> self.nodes@[id].wf(),
                forall|id: u64| #[trigger] self@.nodes.contains_key(id) <==> s.nodes.contains_key(id),
                forall|k: int| 0 <= k < j ==> self@.nodes[#[trigger] s.ids[k]] == target[s.ids[k]],
                forall|k: int| j <= k < len ==> self@.nodes[#[trigger] s.ids[k]] == s.nodes[s.ids[k]],
            decreases len - j,
        {
            let id = self.nodes.key_at(j);
            let node = self.nodes.value_at(j);
            proof {
                assert(self.nodes@.contains_key(self.nodes.key_seq()[j as int]));
                assert(self@.nodes[s.ids[j as int]] == s.nodes[s.ids[j as int]]);
                assert(self@.nodes.contains_key(id));
                assert(s.nodes.contains_key(id));
                assert(node@ == s.nodes[id]);
            }
            let updated = if id == candidate.0 {
                node.with(term, LeadershipRole::Leader)
            } else if node.current_term <= term {
                node.with(term, LeadershipRole::Follower)
            } else {
                node.with(node.current_term, node.role)
            };
            let ghost prev = self@.nodes;
            let ghost new_node = updated@;
            self.nodes.insert(id, updated);
            proof {
                assert(self@.nodes =~= prev.insert(id, new_node));
                assert(prev.contains_key(id));
                assert forall|x: u64| #[trigger] self@.nodes.contains_key(x) <==> s.nodes.contains_key(x) by {
                    assert(prev.contains_key(x) <==> s.nodes.contains_key(x));
                }
                assert(new_node == target[id]);
                assert(crate::id_map::strictly_increasing(s.ids));
                assert forall|k: int| 0 <= k < j + 1 implies self@.nodes[#[trigger] s.ids[k]] == target[s.ids[k]] by {
                    if k < j {
                        assert(s.ids[k] < s.ids[j as int]);
                    }
                }
                assert forall|k: int| j + 1 <= k < len implies self@.nodes[#[trigger] s.ids[k]] == s.nodes[s.ids[k]] by {
                    assert(s.ids[j as int] < s.ids[k]);
                }
            }
            j = j + 1;
        }
        self.leader = Some(candidate.0);
        self.history.push(
            ElectionEvent::LeaderElected { leader: candidate, term: ElectionTerm(term) },
        );
        proof {
            self.lemma_wf();
            assert forall|id: u64| #[trigger] self@.nodes.contains_key(id) implies self@.nodes[id] == target[id] by {
                let k = choose|k: int| 0 <= k < self@.ids.len() && self@.ids[k] == id;
                assert(self@.nodes[s.ids[k]] == target[s.ids[k]]);
            }
            assert(self@.nodes =~= target);
            assert forall|id: u64, t: u64|
                #[trigger] self@.nodes.contains_key(id) && #[trigger] self@.nodes[id].votes.contains_key(t)
                    implies t <= self@.nodes[id].current_term by {
                assert(s.nodes.contains_key(id) && s.nodes[id].votes.contains_key(t));
            }
        }
        Ok(())
    }

    /// Marks a known node as unavailable.
    pub fn fail_node(&mut self, node: NodeId) -> (r: Result<(), LeaderElectionError>)
        requires
            old(self).wf(),
        ensures
            final(self).wf(),
            old(self)@.nodes.contains_key(node.0) ==> r == Ok::<(), LeaderElectionError>(()) && final(self)@ == (ElectionView {
                unavailable: old(self)@.unavailable.insert(node.0),
                history: old(self)@.history.push(ElectionEvent::NodeFailed { node }),
                ..old(self)@
            }),
            !old(self)@.nodes.contains_key(node.0) ==> r == Err::<(), LeaderElectionError>(
                LeaderElectionError::UnknownNode(node),
            ) && final(self)@ == old(self)@,
    {
        self.ensure_known_node(node)?;
        self.unavailable_nodes.insert(node.0);
        self.history.push(ElectionEvent::NodeFailed { node });
        Ok(())
    }

    /// Marks a known node as available again.
    pub fn recover_node(&mut self, node: NodeId) -> (r: Result<(), LeaderElectionError>)
        requires
            old(self).wf(),
        ensures
            final(self).wf(),
            old(self)@.nodes.contains_key(node.0) ==> r == Ok::<(), LeaderElectionError>(()) && final(self)@ == (ElectionView {
                unavailable: old(self)@.unavailable.remove(node.0),
                history: old(self)@.history.push(ElectionEvent::NodeRecovered { node }),
                ..old(self)@
            }),
            !old(self)@.nodes.contains_key(node.0) ==> r == Err::<(), LeaderElectionError>(
                LeaderElectionError::UnknownNode(node),
            ) && final(self)@ == old(self)@,
    {
        self.ensure_known_node(node)?;
        self.unavailable_nodes.remove(node.0);
        self.history.push(ElectionEvent::NodeRecovered { node });
        Ok(())
    }

    fn ensure_known_node(&self, node: NodeId) -> (r: Result<(), LeaderElectionError>)
        requires
            self.wf(),
        ensures
            r == if self@.nodes.contains_key(node.0) {
                Ok::<(), LeaderElectionError>(())
            } else {
                Err(LeaderElectionError::UnknownNode(node))
            },
    {
        if self.nodes.contains_key(node.0) {
            Ok(())
        } else {
            Err(LeaderElectionError::UnknownNode(node))
        }
    }

    fn ensure_available_node(&self, node: NodeId) -> (r: Result<(), LeaderElectionError>)
        requires
            self.wf(),
        ensures
            r == match availability_error(self@, node.0) {
                Some(e) => Err::<(), LeaderElectionError>(e),
                None => Ok(()),
            },
    {
        self.ensure_known_node(node)?;
        if self.unavailable_nodes.contains(node.0) {
            Err(LeaderElectionError::NodeUnavailable(node))
        } else {
            Ok(())
        }
    }

    fn highest_term(&self) -> (t: ElectionTerm)
        requires
            self.wf(),
        ensures
            t.0 == max_term(self@.nodes, self@.ids),
    {
        let len = self.nodes.len();
        let mut highest: u64 = 0;
        let mut i: usize = 0;
        while i < len
            invariant
                i <= len,
                len == self@.ids.len(),
                self.wf(),
                highest == max_term(self@.nodes, self@.ids.take(i as int)),
            decreases len - i,
        {
            let node = self.nodes.value_at(i);
            proof {
                assert(self@.ids.take(i + 1).drop_last() == self@.ids.take(i as int));
                assert(self.nodes@.contains_key(self.nodes.key_seq()[i as int]));
            }
            if node.current_term > highest {
                highest = node.current_term;
            }
            i = i + 1;
        }
        proof {
            assert(self@.ids.take(i as int) == self@.ids);
        }
        ElectionTerm(highest)
    }
}

} // verus!
