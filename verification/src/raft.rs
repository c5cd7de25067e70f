//! The core rules of Raft: terms, roles, one vote per term, a replicated
//! log and commit by majority.
//!
//! Execution is deterministic and driven step by step; there is no network,
//! storage or timer.

use vstd::prelude::*;
use crate::id_map::{IdMap, count_where, strictly_increasing};

verus! {

/// Stable node identifier.
#[derive(Clone, Copy, Debug, PartialEq, Eq, PartialOrd, Ord, Hash)]
pub struct NodeId(pub u64);

/// Monotonic logical term.
#[derive(Clone, Copy, Debug, PartialEq, Eq, PartialOrd, Ord, Hash)]
pub struct Term(pub u64);

/// Position of an entry in the replicated log, starting at one.
#[derive(Clone, Copy, Debug, PartialEq, Eq, PartialOrd, Ord, Hash)]
pub struct LogIndex(pub u64);

/// Local role of a node.
#[derive(Clone, Copy, Debug, PartialEq, Eq)]
pub enum Role {
    /// Follows the current leader or waits for an election.
    Follower,
    /// Asks for votes to become leader.
    Candidate,
    /// Coordinates replication during a term.
    Leader,
}

/// An entry of the replicated log.
#[derive(Clone, Debug, PartialEq, Eq)]
pub struct LogEntry {
    /// Stable index of the entry.
    pub index: LogIndex,
    /// Term in which the leader created the entry.
    pub term: Term,
    /// The command, as text.
    pub command: String,
}

/// Mathematical value of a [`LogEntry`].
pub struct LogEntryView {
    /// Index of the entry.
    pub index: u64,
    /// Term of the entry.
    pub term: u64,
    /// The command.
    pub command: Seq<char>,
}

impl View for LogEntry {
    type V = LogEntryView;

    open spec fn view(&self) -> LogEntryView {
        LogEntryView { index: self.index.0, term: self.term.0, command: self.command@ }
    }
}

/// Observable event of the cluster.
#[derive(Clone, Debug, PartialEq, Eq)]
pub enum RaftEvent {
    /// A candidate opened an election.
    ElectionStarted {
        /// The candidate.
        candidate: NodeId,
        /// Term of the election.
        term: Term,
    },
    /// A node granted its vote.
    VoteGranted {
        /// The voter.
        voter: NodeId,
        /// The candidate voted for.
        candidate: NodeId,
        /// Term of the vote.
        term: Term,
    },
    /// A candidate won a majority and leads.
    LeaderElected {
        /// The leader.
        leader: NodeId,
        /// Term of the leadership.
        term: Term,
    },
    /// The leader appended an entry to its log.
    EntryAppended {
        /// The leader.
        leader: NodeId,
        /// Index of the entry.
        index: LogIndex,
        /// Term of the entry.
        term: Term,
    },
    /// A follower took an entry from the leader.
    EntryReplicated {
        /// The leader.
        leader: NodeId,
        /// The follower.
        follower: NodeId,
        /// Index replicated.
        index: LogIndex,
    },
    /// An entry reached a majority and is committed.
    EntryCommitted {
        /// Index committed.
        index: LogIndex,
    },
}

/// Explicit error of the cluster.
#[derive(Clone, Debug, PartialEq, Eq)]
pub enum RaftError {
    /// The node is not in the cluster.
    UnknownNode(NodeId),
    /// The message belongs to an old term.
    StaleTerm {
        /// The node refusing the term.
        node: NodeId,
        /// Its current term.
        current: Term,
        /// The term tried.
        attempted: Term,
    },
    /// The node already voted for another candidate in this term.
    AlreadyVoted {
        /// The voter.
        voter: NodeId,
        /// Term of the vote.
        term: Term,
        /// The candidate voted for before.
        voted_for: NodeId,
        /// The candidate tried afterwards.
        attempted: NodeId,
    },
    /// The candidate has no majority.
    ElectionWithoutMajority {
        /// The candidate.
        candidate: NodeId,
        /// Term of the election.
        term: Term,
        /// Votes it has.
        votes: usize,
        /// Votes it needs.
        quorum: usize,
    },
    /// An operation for the leader was called on another role.
    NotLeader {
        /// The node that tried to lead.
        node: NodeId,
        /// Its role.
        role: Role,
    },
    /// The leader's log has no entry at this index.
    UnknownLogEntry(LogIndex),
    /// The follower's log does not match the expected prefix.
    LogConflict {
        /// The node holding the conflict.
        node: NodeId,
        /// The conflicting index.
        index: LogIndex,
    },
    /// The entry is not yet on a majority.
    EntryWithoutMajority {
        /// The index.
        index: LogIndex,
        /// Replicas holding it.
        replicas: usize,
        /// Replicas needed.
        quorum: usize,
    },
    /// A committed entry was about to change.
    CommittedEntryCannotChange {
        /// The node protecting the entry.
        node: NodeId,
        /// The protected index.
        index: LogIndex,
    },
}

/// Mathematical state of one node.
pub struct RaftNodeView {
    /// Current term.
    pub current_term: u64,
    /// Current role.
    pub role: Role,
    /// The candidate voted for, by term.
    pub voted_for: Map<u64, u64>,
    /// The log.
    pub log: Seq<LogEntryView>,
    /// Highest index known committed, if any.
    pub commit_index: Option<u64>,
}

/// Mathematical state of a [`RaftCluster`].
pub struct RaftView {
    /// The nodes, by identifier.
    pub nodes: Map<u64, RaftNodeView>,
    /// The node identifiers, in ascending order.
    pub ids: Seq<u64>,
    /// The current leader, if any.
    pub leader: Option<u64>,
    /// The recorded events.
    pub history: Seq<RaftEvent>,
}

/// Size of a majority of the cluster.
pub open spec fn quorum(s: RaftView) -> nat {
    s.nodes.len() / 2 + 1
}

/// The entry of `log` at `index` (indices start at one).
pub open spec fn entry_at(log: Seq<LogEntryView>, index: u64) -> Option<LogEntryView> {
    if index == 0 || index > log.len() {
        None
    } else {
        Some(log[index - 1])
    }
}

/// The commit index reaches `index`.
pub open spec fn commits(commit_index: Option<u64>, index: u64) -> bool {
    commit_index matches Some(c) && c >= index
}

/// Node `id` voted for `candidate` in `term`.
pub open spec fn voted_for(s: RaftView, id: u64, candidate: u64, term: u64) -> bool {
    s.nodes[id].voted_for.contains_key(term) && s.nodes[id].voted_for[term] == candidate
}

/// How many nodes voted for `candidate` in `term`.
pub open spec fn votes_for(s: RaftView, candidate: u64, term: u64) -> nat {
    count_where(s.ids, |id: u64| voted_for(s, id, candidate, term))
}

/// How many nodes hold exactly `entry` at `index`.
pub open spec fn replicas_of(s: RaftView, index: u64, entry: LogEntryView) -> nat {
    count_where(s.ids, |id: u64| entry_at(s.nodes[id].log, index) == Some(entry))
}

/// The error an operation reserved to the leader meets, if any.
pub open spec fn leader_error(s: RaftView, node: u64) -> Option<RaftError> {
    if !s.nodes.contains_key(node) {
        Some(RaftError::UnknownNode(NodeId(node)))
    } else if s.nodes[node].role != Role::Leader {
        Some(RaftError::NotLeader { node: NodeId(node), role: s.nodes[node].role })
    } else {
        None
    }
}

/// Outcome of a candidate opening an election.
pub open spec fn start_outcome(s: RaftView, candidate: u64) -> (RaftView, Result<Term, RaftError>) {
    if !s.nodes.contains_key(candidate) {
        (s, Err(RaftError::UnknownNode(NodeId(candidate))))
    } else {
        let node = s.nodes[candidate];
        let term = (node.current_term + 1) as u64;
        (
            RaftView {
                nodes: s.nodes.insert(
                    candidate,
                    RaftNodeView {
                        current_term: term,
                        role: Role::Candidate,
                        voted_for: node.voted_for.insert(term, candidate),
                        ..node
                    },
                ),
                leader: None,
                history: s.history.push(
                    RaftEvent::ElectionStarted { candidate: NodeId(candidate), term: Term(term) },
                ),
                ..s
            },
            Ok(Term(term)),
        )
    }
}

/// Outcome of asking `voter` to vote for `candidate` in `term`.
pub open spec fn vote_outcome(s: RaftView, voter: u64, candidate: u64, term: u64) -> (RaftView, Result<(), RaftError>) {
    if !s.nodes.contains_key(candidate) {
        (s, Err(RaftError::UnknownNode(NodeId(candidate))))
    } else if !s.nodes.contains_key(voter) {
        (s, Err(RaftError::UnknownNode(NodeId(voter))))
    } else if term < s.nodes[voter].current_term {
        (
            s,
            Err(
                RaftError::StaleTerm {
                    node: NodeId(voter),
                    current: Term(s.nodes[voter].current_term),
                    attempted: Term(term),
                },
            ),
        )
    } else {
        let node = s.nodes[voter];
        let bumped = if term > node.current_term {
            RaftNodeView { current_term: term, role: Role::Follower, ..node }
        } else {
            node
        };
        let after_bump = RaftView { nodes: s.nodes.insert(voter, bumped), ..s };
        if bumped.voted_for.contains_key(term) {
            if bumped.voted_for[term] != candidate {
                (
                    after_bump,
                    Err(
                        RaftError::AlreadyVoted {
                            voter: NodeId(voter),
                            term: Term(term),
                            voted_for: NodeId(bumped.voted_for[term]),
                            attempted: NodeId(candidate),
                        },
                    ),
                )
            } else {
                (after_bump, Ok(()))
            }
        } else {
            (
                RaftView {
                    nodes: s.nodes.insert(
                        voter,
                        RaftNodeView { voted_for: bumped.voted_for.insert(term, candidate), ..bumped },
                    ),
                    history: s.history.push(
                        RaftEvent::VoteGranted {
                            voter: NodeId(voter),
                            candidate: NodeId(candidate),
                            term: Term(term),
                        },
                    ),
                    ..s
                },
                Ok(()),
            )
        }
    }
}

/// The nodes once `candidate` wins `term`: it leads, and every node not
/// already past that term follows in it.
pub open spec fn elected_nodes(nodes: Map<u64, RaftNodeView>, candidate: u64, term: u64) -> Map<u64, RaftNodeView> {
    Map::new(
        |id: u64| nodes.contains_key(id),
        |id: u64|
            if id == candidate {
                RaftNodeView { current_term: term, role: Role::Leader, ..nodes[id] }
            } else if nodes[id].current_term <= term {
                RaftNodeView { current_term: term, role: Role::Follower, ..nodes[id] }
            } else {
                nodes[id]
            },
    )
}

/// Outcome of closing `candidate`'s election.
pub open spec fn finish_outcome(s: RaftView, candidate: u64) -> (RaftView, Result<(), RaftError>) {
    if !s.nodes.contains_key(candidate) {
        (s, Err(RaftError::UnknownNode(NodeId(candidate))))
    } else {
        let term = s.nodes[candidate].current_term;
        let votes = votes_for(s, candidate, term);
        if votes < quorum(s) {
            (
                s,
                Err(
                    RaftError::ElectionWithoutMajority {
                        candidate: NodeId(candidate),
                        term: Term(term),
                        votes: votes as usize,
                        quorum: quorum(s) as usize,
                    },
                ),
            )
        } else {
            (
                RaftView {
                    nodes: elected_nodes(s.nodes, candidate, term),
                    leader: Some(candidate),
                    history: s.history.push(
                        RaftEvent::LeaderElected { leader: NodeId(candidate), term: Term(term) },
                    ),
                    ..s
                },
                Ok(()),
            )
        }
    }
}

/// Outcome of the leader appending a command to its log.
pub open spec fn append_outcome(s: RaftView, leader: u64, command: Seq<char>) -> (RaftView, Result<LogIndex, RaftError>) {
    match leader_error(s, leader) {
        Some(e) => (s, Err(e)),
        None => {
            let node = s.nodes[leader];
            let index = (node.log.len() + 1) as u64;
            let entry = LogEntryView { index, term: node.current_term, command };
            (
                RaftView {
                    nodes: s.nodes.insert(leader, RaftNodeView { log: node.log.push(entry), ..node }),
                    history: s.history.push(
                        RaftEvent::EntryAppended {
                            leader: NodeId(leader),
                            index: LogIndex(index),
                            term: Term(node.current_term),
                        },
                    ),
                    ..s
                },
                Ok(LogIndex(index)),
            )
        },
    }
}

/// The error a follower's log meets when it must take `entry`, if any.
pub open spec fn receive_error(follower: u64, node: RaftNodeView, entry: LogEntryView) -> Option<RaftError> {
    match entry_at(node.log, entry.index) {
        Some(existing) => if existing == entry {
            None
        } else if commits(node.commit_index, entry.index) {
            Some(RaftError::CommittedEntryCannotChange { node: NodeId(follower), index: LogIndex(entry.index) })
        } else {
            Some(RaftError::LogConflict { node: NodeId(follower), index: LogIndex(entry.index) })
        },
        None => if entry.index != node.log.len() + 1 {
            Some(RaftError::LogConflict { node: NodeId(follower), index: LogIndex(entry.index) })
        } else if entry.index > 1 && entry_at(node.log, (entry.index - 1) as u64) is None {
            Some(RaftError::LogConflict { node: NodeId(follower), index: LogIndex((entry.index - 1) as u64) })
        } else {
            None
        },
    }
}

/// Outcome of the leader replicating its entry at `index` to `follower`.
pub open spec fn replicate_outcome(s: RaftView, leader: u64, follower: u64, index: u64) -> (RaftView, Result<(), RaftError>) {
    if leader_error(s, leader) is Some {
        (s, Err(leader_error(s, leader)->0))
    } else if entry_at(s.nodes[leader].log, index) is None {
        (s, Err(RaftError::UnknownLogEntry(LogIndex(index))))
    } else if !s.nodes.contains_key(follower) {
        (s, Err(RaftError::UnknownNode(NodeId(follower))))
    } else {
        let entry = entry_at(s.nodes[leader].log, index)->0;
        let node = s.nodes[follower];
        if receive_error(follower, node, entry) is Some {
            (s, Err(receive_error(follower, node, entry)->0))
        } else if entry_at(node.log, index) == Some(entry) {
            (s, Ok(()))
        } else {
            let term = if node.current_term >= entry.term {
                node.current_term
            } else {
                entry.term
            };
            (
                RaftView {
                    nodes: s.nodes.insert(
                        follower,
                        RaftNodeView { current_term: term, log: node.log.push(entry), ..node },
                    ),
                    history: s.history.push(
                        RaftEvent::EntryReplicated {
                            leader: NodeId(leader),
                            follower: NodeId(follower),
                            index: LogIndex(index),
                        },
                    ),
                    ..s
                },
                Ok(()),
            )
        }
    }
}

/// The nodes once the entry at `index` is committed: every node holding
/// that exact entry records `index` as its commit index.
pub open spec fn committed_nodes(nodes: Map<u64, RaftNodeView>, index: u64, entry: LogEntryView) -> Map<u64, RaftNodeView> {
    Map::new(
        |id: u64| nodes.contains_key(id),
        |id: u64|
            if entry_at(nodes[id].log, index) == Some(entry) {
                RaftNodeView { commit_index: Some(index), ..nodes[id] }
            } else {
                nodes[id]
            },
    )
}

/// Outcome of the leader committing its entry at `index`.
pub open spec fn commit_outcome(s: RaftView, leader: u64, index: u64) -> (RaftView, Result<(), RaftError>) {
    if leader_error(s, leader) is Some {
        (s, Err(leader_error(s, leader)->0))
    } else if entry_at(s.nodes[leader].log, index) is None {
        (s, Err(RaftError::UnknownLogEntry(LogIndex(index))))
    } else {
        let entry = entry_at(s.nodes[leader].log, index)->0;
        let replicas = replicas_of(s, index, entry);
        if replicas < quorum(s) {
            (
                s,
                Err(
                    RaftError::EntryWithoutMajority {
                        index: LogIndex(index),
                        replicas: replicas as usize,
                        quorum: quorum(s) as usize,
                    },
                ),
            )
        } else {
            (
                RaftView {
                    nodes: committed_nodes(s.nodes, index, entry),
                    history: s.history.push(RaftEvent::EntryCommitted { index: LogIndex(index) }),
                    ..s
                },
                Ok(()),
            )
        }
    }
}

/// The committed command at `index` as the current leader knows it.
pub open spec fn committed_command_of(s: RaftView, index: u64) -> Option<Seq<char>> {
    match s.leader {
        Some(l) => if s.nodes.contains_key(l) && commits(s.nodes[l].commit_index, index) && entry_at(
            s.nodes[l].log,
            index,
        ) is Some {
            Some(entry_at(s.nodes[l].log, index)->0.command)
        } else {
            None
        },
        None => None,
    }
}

/// The log installed from a list of terms and commands, indexed from one.
pub open spec fn scenario_log(entries: Seq<(Term, &str)>) -> Seq<LogEntryView> {
    Seq::new(
        entries.len(),
        |p: int| LogEntryView { index: (p + 1) as u64, term: entries[p].0.0, command: entries[p].1@ },
    )
}

/// Election safety: in one term at most one candidate can hold a majority
/// of the votes, because each node votes at most once per term.
pub proof fn lemma_one_leader_per_term(s: RaftView, a: u64, b: u64, term: u64)
    requires
        s.ids.len() == s.nodes.len(),
        votes_for(s, a, term) >= quorum(s),
        votes_for(s, b, term) >= quorum(s),
    ensures
        a == b,
{
    if a != b {
        crate::id_map::lemma_count_where_disjoint(
            s.ids,
            |id: u64| voted_for(s, id, a, term),
            |id: u64| voted_for(s, id, b, term),
        );
    }
}

/// Terms never go back: no step lowers the term of any node.
pub proof fn lemma_terms_never_decrease(s: RaftView, a: u64, b: u64, t: u64, index: u64, command: Seq<char>, id: u64)
    requires
        s.nodes.contains_key(id),
        s.nodes.contains_key(a) ==> s.nodes[a].current_term < u64::MAX,
    ensures
        start_outcome(s, a).0.nodes[id].current_term >= s.nodes[id].current_term,
        vote_outcome(s, a, b, t).0.nodes[id].current_term >= s.nodes[id].current_term,
        finish_outcome(s, a).0.nodes[id].current_term >= s.nodes[id].current_term,
        append_outcome(s, a, command).0.nodes[id].current_term >= s.nodes[id].current_term,
        replicate_outcome(s, a, b, index).0.nodes[id].current_term >= s.nodes[id].current_term,
        commit_outcome(s, a, index).0.nodes[id].current_term >= s.nodes[id].current_term,
{
}

/// Replication only appends: every entry a follower held stays in place,
/// and the same goes for every node's log under any step but log
/// installation.
pub proof fn lemma_logs_only_grow(s: RaftView, a: u64, b: u64, t: u64, index: u64, command: Seq<char>, id: u64, p: int)
    requires
        s.nodes.contains_key(id),
        0 <= p < s.nodes[id].log.len(),
    ensures
        replicate_outcome(s, a, b, index).0.nodes[id].log.len() >= s.nodes[id].log.len(),
        replicate_outcome(s, a, b, index).0.nodes[id].log[p] == s.nodes[id].log[p],
        append_outcome(s, a, command).0.nodes[id].log[p] == s.nodes[id].log[p],
        commit_outcome(s, a, index).0.nodes[id].log == s.nodes[id].log,
        vote_outcome(s, a, b, t).0.nodes[id].log == s.nodes[id].log,
        finish_outcome(s, a).0.nodes[id].log == s.nodes[id].log,
        start_outcome(s, a).0.nodes[id].log == s.nodes[id].log,
{
}

/// Committing needs a majority of nodes holding the exact entry.
pub proof fn lemma_commit_needs_majority(s: RaftView, leader: u64, index: u64)
    ensures
        commit_outcome(s, leader, index).1 is Ok ==> replicas_of(
            s,
            index,
            entry_at(s.nodes[leader].log, index)->0,
        ) >= quorum(s),
{
}

/// Every vote a node recorded is for a term it has reached.
pub open spec fn votes_within_terms(s: RaftView) -> bool {
    forall|id: u64, t: u64|
        #![trigger s.nodes[id].voted_for.contains_key(t)]
        s.nodes.contains_key(id) && s.nodes[id].voted_for.contains_key(t) ==> t <= s.nodes[id].current_term
}

/// The event, when it records a leader, names one that holds a majority of
/// the votes of its term.
pub open spec fn backed(s: RaftView, e: RaftEvent) -> bool {
    match e {
        RaftEvent::LeaderElected { leader, term } => votes_for(s, leader.0, term.0) >= quorum(s),
        _ => true,
    }
}

/// The invariant of every cluster: the identifiers list the nodes in
/// ascending order, votes are only for reached terms, and every leader the
/// history records still holds a majority of the votes of its term.
pub open spec fn raft_invariant(s: RaftView) -> bool {
    &&& s.ids.len() == s.nodes.len()
    &&& strictly_increasing(s.ids)
    &&& forall|id: u64| #[trigger] s.nodes.contains_key(id) <==> s.ids.contains(id)
    &&& votes_within_terms(s)
    &&& forall|i: int| 0 <= i < s.history.len() ==> #[trigger] backed(s, s.history[i])
}

/// No vote recorded in `s` is missing or different in `s2`.
pub open spec fn votes_kept(s: RaftView, s2: RaftView) -> bool {
    forall|id: u64, t: u64|
        #![trigger s.nodes[id].voted_for.contains_key(t)]
        s.nodes.contains_key(id) && s.nodes[id].voted_for.contains_key(t) ==> s2.nodes.contains_key(id)
            && s2.nodes[id].voted_for.contains_key(t) && s2.nodes[id].voted_for[t] == s.nodes[id].voted_for[t]
}

/// The history of `s2` starts with the whole history of `s`.
pub open spec fn history_extends(s: RaftView, s2: RaftView) -> bool {
    &&& s.history.len() <= s2.history.len()
    &&& s2.history.subrange(0, s.history.len() as int) == s.history
}

proof fn lemma_votes_for_kept(s: RaftView, s2: RaftView, c: u64, t: u64)
    requires
        raft_invariant(s),
        s2.ids == s.ids,
        votes_kept(s, s2),
    ensures
        votes_for(s2, c, t) >= votes_for(s, c, t),
{
    let p = |id: u64| voted_for(s, id, c, t);
    let q = |id: u64| voted_for(s2, id, c, t);
    assert forall|i: int| 0 <= i < s.ids.len() && #[trigger] p(s.ids[i]) implies q(s.ids[i]) by {
        let id = s.ids[i];
        assert(s.ids.contains(id));
        assert(s.nodes.contains_key(id));
        assert(s.nodes[id].voted_for.contains_key(t));
    }
    crate::id_map::lemma_count_where_mono(s.ids, p, q);
}

proof fn lemma_invariant_kept(s: RaftView, s2: RaftView)
    requires
        raft_invariant(s),
        s2.ids == s.ids,
        s2.nodes.dom() == s.nodes.dom(),
        votes_kept(s, s2),
        votes_within_terms(s2),
        history_extends(s, s2),
        forall|i: int| s.history.len() <= i < s2.history.len() ==> #[trigger] backed(s2, s2.history[i]),
    ensures
        raft_invariant(s2),
{
    assert(s2.nodes.len() == s.nodes.len());
    assert forall|id: u64| #[trigger] s2.nodes.contains_key(id) <==> s2.ids.contains(id) by {
        assert(s2.nodes.dom().contains(id) == s.nodes.dom().contains(id));
        assert(s.nodes.contains_key(id) <==> s.ids.contains(id));
    }
    assert forall|i: int| 0 <= i < s2.history.len() implies #[trigger] backed(s2, s2.history[i]) by {
        if i < s.history.len() {
            assert(s2.history[i] == s2.history.subrange(0, s.history.len() as int)[i]);
            assert(backed(s, s.history[i]));
            match s.history[i] {
                RaftEvent::LeaderElected { leader, term } => {
                    lemma_votes_for_kept(s, s2, leader.0, term.0);
                },
                _ => {},
            }
        }
    }
}

proof fn lemma_start_keeps(s: RaftView, a: u64)
    requires
        raft_invariant(s),
        s.nodes.contains_key(a) ==> s.nodes[a].current_term < u64::MAX,
    ensures
        raft_invariant(start_outcome(s, a).0),
        votes_kept(s, start_outcome(s, a).0),
        history_extends(s, start_outcome(s, a).0),
{
    let s2 = start_outcome(s, a).0;
    if s.nodes.contains_key(a) {
        assert(s2.nodes.dom() =~= s.nodes.dom());
        assert(s2.history.subrange(0, s.history.len() as int) =~= s.history);
        lemma_invariant_kept(s, s2);
    } else {
        assert(s2.history.subrange(0, s.history.len() as int) =~= s.history);
    }
}

proof fn lemma_vote_keeps(s: RaftView, v: u64, c: u64, t: u64)
    requires
        raft_invariant(s),
    ensures
        raft_invariant(vote_outcome(s, v, c, t).0),
        votes_kept(s, vote_outcome(s, v, c, t).0),
        history_extends(s, vote_outcome(s, v, c, t).0),
{
    let s2 = vote_outcome(s, v, c, t).0;
    assert(s2.history.subrange(0, s.history.len() as int) =~= s.history);
    if s.nodes.contains_key(c) && s.nodes.contains_key(v) && t >= s.nodes[v].current_term {
        assert(s2.nodes.dom() =~= s.nodes.dom());
        lemma_invariant_kept(s, s2);
    }
}

proof fn lemma_finish_keeps(s: RaftView, a: u64)
    requires
        raft_invariant(s),
    ensures
        raft_invariant(finish_outcome(s, a).0),
        votes_kept(s, finish_outcome(s, a).0),
        history_extends(s, finish_outcome(s, a).0),
{
    let s2 = finish_outcome(s, a).0;
    assert(s2.history.subrange(0, s.history.len() as int) =~= s.history);
    if finish_outcome(s, a).1 is Ok {
        let term = s.nodes[a].current_term;
        assert(s2.nodes.dom() =~= s.nodes.dom());
        lemma_votes_for_kept(s, s2, a, term);
        assert(backed(s2, s2.history[s.history.len() as int]));
        lemma_invariant_kept(s, s2);
    }
}

proof fn lemma_log_steps_keep(s: RaftView, a: u64, b: u64, index: u64, command: Seq<char>)
    requires
        raft_invariant(s),
    ensures
        raft_invariant(append_outcome(s, a, command).0),
        votes_kept(s, append_outcome(s, a, command).0),
        history_extends(s, append_outcome(s, a, command).0),
        raft_invariant(replicate_outcome(s, a, b, index).0),
        votes_kept(s, replicate_outcome(s, a, b, index).0),
        history_extends(s, replicate_outcome(s, a, b, index).0),
        raft_invariant(commit_outcome(s, a, index).0),
        votes_kept(s, commit_outcome(s, a, index).0),
        history_extends(s, commit_outcome(s, a, index).0),
{
    let s1 = append_outcome(s, a, command).0;
    assert(s1.history.subrange(0, s.history.len() as int) =~= s.history);
    if append_outcome(s, a, command).1 is Ok {
        assert(s1.nodes.dom() =~= s.nodes.dom());
        lemma_invariant_kept(s, s1);
    }
    let s2 = replicate_outcome(s, a, b, index).0;
    assert(s2.history.subrange(0, s.history.len() as int) =~= s.history);
    if s2 != s {
        assert(s2.nodes.dom() =~= s.nodes.dom());
        lemma_invariant_kept(s, s2);
    }
    let s3 = commit_outcome(s, a, index).0;
    assert(s3.history.subrange(0, s.history.len() as int) =~= s.history);
    if commit_outcome(s, a, index).1 is Ok {
        assert(s3.nodes.dom() =~= s.nodes.dom());
        lemma_invariant_kept(s, s3);
    }
}

/// The cluster once `log` is installed on node `a`.
pub open spec fn with_log(s: RaftView, a: u64, log: Seq<LogEntryView>) -> RaftView {
    RaftView { nodes: s.nodes.insert(a, RaftNodeView { log, ..s.nodes[a] }), ..s }
}

proof fn lemma_install_keeps(s: RaftView, a: u64, log: Seq<LogEntryView>)
    requires
        raft_invariant(s),
        s.nodes.contains_key(a),
    ensures
        raft_invariant(with_log(s, a, log)),
        votes_kept(s, with_log(s, a, log)),
        history_extends(s, with_log(s, a, log)),
{
    let s2 = with_log(s, a, log);
    assert(s2.nodes.dom() =~= s.nodes.dom());
    assert(s2.history.subrange(0, s.history.len() as int) =~= s.history);
    lemma_invariant_kept(s, s2);
}

/// Law: every operation on a cluster keeps its invariant, never takes back
/// or changes a recorded vote, and only appends to the history.
pub proof fn lemma_steps_keep_votes(
    s: RaftView,
    a: u64,
    b: u64,
    t: u64,
    index: u64,
    command: Seq<char>,
    log: Seq<LogEntryView>,
)
    requires
        raft_invariant(s),
        s.nodes.contains_key(a) ==> s.nodes[a].current_term < u64::MAX,
    ensures
        raft_invariant(start_outcome(s, a).0) && votes_kept(s, start_outcome(s, a).0)
            && history_extends(s, start_outcome(s, a).0),
        raft_invariant(vote_outcome(s, a, b, t).0) && votes_kept(s, vote_outcome(s, a, b, t).0)
            && history_extends(s, vote_outcome(s, a, b, t).0),
        raft_invariant(finish_outcome(s, a).0) && votes_kept(s, finish_outcome(s, a).0)
            && history_extends(s, finish_outcome(s, a).0),
        raft_invariant(append_outcome(s, a, command).0) && votes_kept(s, append_outcome(s, a, command).0)
            && history_extends(s, append_outcome(s, a, command).0),
        raft_invariant(replicate_outcome(s, a, b, index).0) && votes_kept(
            s,
            replicate_outcome(s, a, b, index).0,
        ) && history_extends(s, replicate_outcome(s, a, b, index).0),
        raft_invariant(commit_outcome(s, a, index).0) && votes_kept(s, commit_outcome(s, a, index).0)
            && history_extends(s, commit_outcome(s, a, index).0),
        s.nodes.contains_key(a) ==> raft_invariant(with_log(s, a, log)) && votes_kept(s, with_log(s, a, log))
            && history_extends(s, with_log(s, a, log)),
{
    lemma_start_keeps(s, a);
    lemma_vote_keeps(s, a, b, t);
    lemma_finish_keeps(s, a);
    lemma_log_steps_keep(s, a, b, index, command);
    if s.nodes.contains_key(a) {
        lemma_install_keeps(s, a, log);
    }
}

/// Law (election safety over any run): in every cluster the history names
/// at most one leader per term. Every successful election appends its
/// `LeaderElected` event, and no operation removes an event, so two
/// elections won in the same term, in any calls, won by the same node.
pub proof fn lemma_one_leader_per_term_in_history(s: RaftView, i: int, j: int, a: u64, b: u64, term: u64)
    requires
        raft_invariant(s),
        0 <= i < s.history.len(),
        0 <= j < s.history.len(),
        s.history[i] == (RaftEvent::LeaderElected { leader: NodeId(a), term: Term(term) }),
        s.history[j] == (RaftEvent::LeaderElected { leader: NodeId(b), term: Term(term) }),
    ensures
        a == b,
{
    assert(backed(s, s.history[i]));
    assert(backed(s, s.history[j]));
    lemma_one_leader_per_term(s, a, b, term);
}

#[derive(Clone, Debug, PartialEq, Eq)]
struct RaftNode {
    current_term: u64,
    role: Role,
    voted_for: IdMap<u64>,
    log: Vec<LogEntry>,
    commit_index: Option<u64>,
}

impl View for RaftNode {
    type V = RaftNodeView;

    closed spec fn view(&self) -> RaftNodeView {
        RaftNodeView {
            current_term: self.current_term,
            role: self.role,
            voted_for: self.voted_for@,
            log: self.log@.map_values(|e: LogEntry| e@),
            commit_index: self.commit_index,
        }
    }
}

fn copy_entry(e: &LogEntry) -> (r: LogEntry)
    ensures
        r@ == e@,
{
    LogEntry { index: e.index, term: e.term, command: e.command.clone() }
}

fn same_entry(a: &LogEntry, b: &LogEntry) -> (r: bool)
    ensures
        r == (a@ == b@),
{
    a.index.0 == b.index.0 && a.term.0 == b.term.0 && a.command == b.command
}

fn copy_log(log: &Vec<LogEntry>) -> (r: Vec<LogEntry>)
    ensures
        r@.map_values(|e: LogEntry| e@) == log@.map_values(|e: LogEntry| e@),
{
    let mut r: Vec<LogEntry> = Vec::new();
    let mut i: usize = 0;
    while i < log.len()
        invariant
            i <= log@.len(),
            r@.map_values(|e: LogEntry| e@) == log@.take(i as int).map_values(|e: LogEntry| e@),
        decreases log@.len() - i,
    {
        r.push(copy_entry(&log[i]));
        proof {
            assert(log@.take(i + 1).map_values(|e: LogEntry| e@) =~= log@.take(i as int).map_values(
                |e: LogEntry| e@,
            ).push(log@[i as int]@));
            assert(r@.map_values(|e: LogEntry| e@) =~= log@.take(i as int).map_values(
                |e: LogEntry| e@,
            ).push(log@[i as int]@));
        }
        i = i + 1;
    }
    proof {
        assert(log@.take(i as int) == log@);
    }
    r
}

impl RaftNode {
    closed spec fn wf(&self) -> bool {
        self.voted_for.inv()
    }

    fn new() -> (n: Self)
        ensures
            n.wf(),
            n@ == (RaftNodeView {
                current_term: 0,
                role: Role::Follower,
                voted_for: Map::empty(),
                log: Seq::empty(),
                commit_index: None,
            }),
    {
        let n = RaftNode {
            current_term: 0,
            role: Role::Follower,
            voted_for: IdMap::new(),
            log: Vec::new(),
            commit_index: None,
        };
        proof {
            assert(n@.log =~= Seq::<LogEntryView>::empty());
        }
        n
    }

    fn duplicate(&self) -> (n: Self)
        requires
            self.wf(),
        ensures
            n.wf(),
            n@ == self@,
    {
        RaftNode {
            current_term: self.current_term,
            role: self.role,
            voted_for: self.voted_for.duplicate(),
            log: copy_log(&self.log),
            commit_index: self.commit_index,
        }
    }

    fn log_entry(&self, index: LogIndex) -> (r: Option<&LogEntry>)
        ensures
            match r {
                Some(e) => entry_at(self@.log, index.0) == Some(e@),
                None => entry_at(self@.log, index.0) is None,
            },
    {
        if index.0 == 0 || index.0 > self.log.len() as u64 {
            None
        } else {
            Some(&self.log[(index.0 - 1) as usize])
        }
    }
}

fn ensure_log_can_receive(follower: NodeId, follower_node: &RaftNode, entry: &LogEntry) -> (r: Result<(), RaftError>)
    ensures
        r == match receive_error(follower.0, follower_node@, entry@) {
            Some(e) => Err::<(), RaftError>(e),
            None => Ok(()),
        },
{
    if let Some(existing) = follower_node.log_entry(entry.index) {
        if same_entry(existing, entry) {
            return Ok(());
        }
        let committed = match follower_node.commit_index {
            Some(c) => c >= entry.index.0,
            None => false,
        };
        if committed {
            return Err(RaftError::CommittedEntryCannotChange { node: follower, index: entry.index });
        }
        return Err(RaftError::LogConflict { node: follower, index: entry.index });
    }
    let len = follower_node.log.len() as u64;
    if len == u64::MAX || entry.index.0 != len + 1 {
        return Err(RaftError::LogConflict { node: follower, index: entry.index });
    }
    if entry.index.0 > 1 {
        let previous = LogIndex(entry.index.0 - 1);
        if follower_node.log_entry(previous).is_none() {
            return Err(RaftError::LogConflict { node: follower, index: previous });
        }
    }
    Ok(())
}

/// A Raft cluster with deterministic execution.
#[derive(Clone, Debug, PartialEq, Eq)]
pub struct RaftCluster {
    nodes: IdMap<RaftNode>,
    leader: Option<u64>,
    history: Vec<RaftEvent>,
}

impl View for RaftCluster {
    type V = RaftView;

    closed spec fn view(&self) -> RaftView {
        RaftView {
            nodes: self.nodes@.map_values(|n: RaftNode| n@),
            ids: self.nodes.key_seq(),
            leader: self.leader,
            history: self.history@,
        }
    }
}

impl RaftCluster {
    closed spec fn fields_wf(&self) -> bool {
        &&& self.nodes.inv()
        &&& forall|id: u64| #[trigger] self.nodes@.contains_key(id) ==> self.nodes@[id].wf()
    }

    /// The cluster's structures are well formed and its state keeps the
    /// cluster invariant.
    pub closed spec fn wf(&self) -> bool {
        &&& self.fields_wf()
        &&& raft_invariant(self@)
    }

    /// Facts that the well-formedness gives callers.
    pub proof fn lemma_wf(&self)
        requires
            self.wf(),
        ensures
            strictly_increasing(self@.ids),
            self@.ids.len() == self@.nodes.len(),
            forall|id: u64| #[trigger] self@.nodes.contains_key(id) <==> self@.ids.contains(id),
            raft_invariant(self@),
    {
        self.lemma_fields_wf();
    }

    proof fn lemma_fields_wf(&self)
        requires
            self.fields_wf(),
        ensures
            strictly_increasing(self@.ids),
            self@.ids.len() == self@.nodes.len(),
            forall|id: u64| #[trigger] self@.nodes.contains_key(id) <==> self@.ids.contains(id),
    {
        assert(self@.nodes.dom() =~= self.nodes@.dom());
        assert forall|id: u64| #[trigger] self@.nodes.contains_key(id) <==> self@.ids.contains(id) by {
            if self@.ids.contains(id) {
                let i = choose|i: int| 0 <= i < self@.ids.len() && self@.ids[i] == id;
                assert(self.nodes@.contains_key(self.nodes.key_seq()[i]));
            }
        }
    }

    /// A cluster of followers in term zero with empty logs.
    pub fn new(nodes: &[NodeId]) -> (c: Self)
        ensures
            c.wf(),
            forall|id: u64| #[trigger] c@.nodes.contains_key(id) <==> exists|i: int|
                0 <= i < nodes@.len() && nodes@[i].0 == id,
            forall|id: u64| #[trigger] c@.nodes.contains_key(id) ==> c@.nodes[id] == (RaftNodeView {
                current_term: 0,
                role: Role::Follower,
                voted_for: Map::empty(),
                log: Seq::empty(),
                commit_index: None,
            }),
            c@.leader == None::<u64>,
            c@.history == Seq::<RaftEvent>::empty(),
    {
        let mut map: IdMap<RaftNode> = IdMap::new();
        let mut i: usize = 0;
        while i < nodes.len()
            invariant
                i <= nodes@.len(),
                map.inv(),
                forall|id: u64| #[trigger] map@.contains_key(id) ==> map@[id].wf() && map@[id]@ == (RaftNodeView {
                    current_term: 0,
                    role: Role::Follower,
                    voted_for: Map::empty(),
                    log: Seq::empty(),
                    commit_index: None,
                }),
                forall|id: u64| #[trigger] map@.contains_key(id) <==> exists|p: int|
                    0 <= p < i && nodes@[p].0 == id,
            decreases nodes@.len() - i,
        {
            let ghost before = map@;
            map.insert(nodes[i].0, RaftNode::new());
            proof {
                assert forall|id: u64| #[trigger] map@.contains_key(id) <==> exists|p: int|
                    0 <= p < i + 1 && nodes@[p].0 == id by {
                    if before.contains_key(id) {
                        let p = choose|p: int| 0 <= p < i && nodes@[p].0 == id;
                        assert(0 <= p < i + 1 && nodes@[p].0 == id);
                    }
                    if id == nodes@[i as int].0 {
                        assert(nodes@[i as int].0 == id);
                    }
                }
            }
            i = i + 1;
        }
        let c = RaftCluster { nodes: map, leader: None, history: Vec::new() };
        proof {
            c.lemma_fields_wf();
        }
        c
    }

    /// Size of a majority quorum.
    pub fn quorum_size(&self) -> (q: usize)
        requires
            self.wf(),
        ensures
            q == quorum(self@),
    {
        proof {
            assert(self@.nodes.dom() =~= self.nodes@.dom());
        }
        self.nodes.len() / 2 + 1
    }

    /// The current leader, if one exists.
    pub fn leader(&self) -> (l: Option<NodeId>)
        ensures
            l == match self@.leader {
                Some(id) => Some(NodeId(id)),
                None => None,
            },
    {
        match self.leader {
            Some(id) => Some(NodeId(id)),
            None => None,
        }
    }

    /// Role of a known node.
    pub fn node_role(&self, node: NodeId) -> (r: Result<Role, RaftError>)
        requires
            self.wf(),
        ensures
            r == if self@.nodes.contains_key(node.0) {
                Ok::<Role, RaftError>(self@.nodes[node.0].role)
            } else {
                Err(RaftError::UnknownNode(node))
            },
    {
        match self.nodes.get(node.0) {
            Some(n) => Ok(n.role),
            None => Err(RaftError::UnknownNode(node)),
        }
    }

    /// Term of a known node.
    pub fn node_term(&self, node: NodeId) -> (r: Result<Term, RaftError>)
        requires
            self.wf(),
        ensures
            r == if self@.nodes.contains_key(node.0) {
                Ok::<Term, RaftError>(Term(self@.nodes[node.0].current_term))
            } else {
                Err(RaftError::UnknownNode(node))
            },
    {
        match self.nodes.get(node.0) {
            Some(n) => Ok(Term(n.current_term)),
            None => Err(RaftError::UnknownNode(node)),
        }
    }

    /// The recorded events.
    pub fn history(&self) -> (h: &[RaftEvent])
        ensures
            h@ == self@.history,
    {
        self.history.as_slice()
    }

    /// Replaces one node's state, leaving the others alone.
    fn put_node(&mut self, id: u64, node: RaftNode)
        requires
            old(self).fields_wf(),
            old(self).nodes@.contains_key(id),
            node.wf(),
        ensures
            final(self).fields_wf(),
            final(self)@ == (RaftView { nodes: old(self)@.nodes.insert(id, node@), ..old(self)@ }),
    {
        let ghost v = node@;
        self.nodes.insert(id, node);
        proof {
            assert(self@.nodes =~= old(self)@.nodes.insert(id, v));
        }
    }

    /// A known candidate opens the next term, votes for itself and becomes a
    /// candidate; there is no leader until the election ends.
    pub fn start_election(&mut self, candidate: NodeId) -> (r: Result<Term, RaftError>)
        requires
            old(self).wf(),
            old(self)@.nodes.contains_key(candidate.0) ==> old(self)@.nodes[candidate.0].current_term
                < u64::MAX,
        ensures
            final(self).wf(),
            (final(self)@, r) == start_outcome(old(self)@, candidate.0),
    {
        proof {
            lemma_start_keeps(old(self)@, candidate.0);
        }
        let node = match self.nodes.get(candidate.0) {
            Some(n) => n,
            None => {
                return Err(RaftError::UnknownNode(candidate));
            },
        };
        let next = node.current_term + 1;
        let mut updated = node.duplicate();
        updated.current_term = next;
        updated.role = Role::Candidate;
        updated.voted_for.insert(next, candidate.0);
        self.put_node(candidate.0, updated);
        self.leader = None;
        self.history.push(RaftEvent::ElectionStarted { candidate, term: Term(next) });
        Ok(Term(next))
    }

    /// `voter` is asked to vote for `candidate` in `term`.
    ///
    /// Both must be known; a term older than the voter's is stale. A newer
    /// term moves the voter to it as a follower. A node votes at most once
    /// per term: voting again for the same candidate changes nothing more,
    /// voting for another one is refused.
    pub fn request_vote(&mut self, voter: NodeId, candidate: NodeId, term: Term) -> (r: Result<(), RaftError>)
        requires
            old(self).wf(),
        ensures
            final(self).wf(),
            (final(self)@, r) == vote_outcome(old(self)@, voter.0, candidate.0, term.0),
    {
        proof {
            lemma_vote_keeps(old(self)@, voter.0, candidate.0, term.0);
        }
        if !self.nodes.contains_key(candidate.0) {
            return Err(RaftError::UnknownNode(candidate));
        }
        let node = match self.nodes.get(voter.0) {
            Some(n) => n,
            None => {
                return Err(RaftError::UnknownNode(voter));
            },
        };
        if term.0 < node.current_term {
            return Err(
                RaftError::StaleTerm {
                    node: voter,
                    current: Term(node.current_term),
                    attempted: term,
                },
            );
        }
        let mut updated = node.duplicate();
        if term.0 > updated.current_term {
            updated.current_term = term.0;
            updated.role = Role::Follower;
        }
        let previous = match updated.voted_for.get(term.0) {
            Some(c) => Some(*c),
            None => None,
        };
        if let Some(voted_for) = previous {
            self.put_node(voter.0, updated);
            if voted_for != candidate.0 {
                return Err(
                    RaftError::AlreadyVoted {
                        voter,
                        term,
                        voted_for: NodeId(voted_for),
                        attempted: candidate,
                    },
                );
            }
            return Ok(());
        }
        updated.voted_for.insert(term.0, candidate.0);
        self.put_node(voter.0, updated);
        self.history.push(RaftEvent::VoteGranted { voter, candidate, term });
        Ok(())
    }

    /// Closes `candidate`'s election: with a majority of votes in its
    /// current term it becomes leader, and every node not already past that
    /// term follows it in that term.
    pub fn finish_election(&mut self, candidate: NodeId) -> (r: Result<(), RaftError>)
        requires
            old(self).wf(),
        ensures
            final(self).wf(),
            (final(self)@, r) == finish_outcome(old(self)@, candidate.0),
    {
        proof {
            lemma_finish_keeps(old(self)@, candidate.0);
        }
        let term = match self.nodes.get(candidate.0) {
            Some(n) => n.current_term,
            None => {
                return Err(RaftError::UnknownNode(candidate));
            },
        };
        let ghost s = self@;
        let ghost pred = |id: u64| voted_for(s, id, candidate.0, term);
        let len = self.nodes.len();
        let mut votes: usize = 0;
        let mut i: usize = 0;
        while i < len
            invariant
                i <= len,
                len == s.ids.len(),
                self.fields_wf(),
                self@ == s,
                pred == (|id: u64| voted_for(s, id, candidate.0, term)),
                votes == count_where(s.ids.take(i as int), pred),
            decreases len - i,
        {
            let node = self.nodes.value_at(i);
            proof {
                assert(s.ids.take(i + 1).drop_last() == s.ids.take(i as int));
                crate::id_map::lemma_count_where_bound(s.ids.take(i as int), pred);
                assert(self.nodes@.contains_key(self.nodes.key_seq()[i as int]));
            }
            let voted = match node.voted_for.get(term) {
                Some(c) => *c == candidate.0,
                None => false,
            };
            if voted {
                votes = votes + 1;
            }
            i = i + 1;
        }
        proof {
            assert(s.ids.take(i as int) == s.ids);
        }
        let quorum = self.quorum_size();
        if votes < quorum {
            return Err(
                RaftError::ElectionWithoutMajority { candidate, term: Term(term), votes, quorum },
            );
        }
        let ghost target = elected_nodes(s.nodes, candidate.0, term);
        let mut j: usize = 0;
        while j < len
            invariant
                j <= len,
                len == s.ids.len(),
                self.fields_wf(),
                self@.ids == s.ids,
                self@.leader == s.leader,
                self@.history == s.history,
                s == old(self)@,
                target == elected_nodes(s.nodes, candidate.0, term),
                forall|id: u64| #[trigger] self@.nodes.contains_key(id) <==> s.nodes.contains_key(id),
                forall|k: int| 0 <= k < j ==> self@.nodes[#[trigger] s.ids[k]] == target[s.ids[k]],
                forall|k: int| j <= k < len ==> self@.nodes[#[trigger] s.ids[k]] == s.nodes[s.ids[k]],
            decreases len - j,
        {
            let id = self.nodes.key_at(j);
            let node = self.nodes.value_at(j);
            proof {
                assert(self.nodes@.contains_key(self.nodes.key_seq()[j as int]));
                assert(self@.nodes[s.ids[j as int]] == s.nodes[s.ids[j as int]]);
                assert(self@.nodes.contains_key(id));
                assert(s.nodes.contains_key(id));
                assert(node@ == s.nodes[id]);
            }
            let mut updated = node.duplicate();
            if id == candidate.0 {
                updated.role = Role::Leader;
                updated.current_term = term;
            } else if updated.current_term <= term {
                updated.role = Role::Follower;
                updated.current_term = term;
            }
            let ghost prev = self@.nodes;
            self.put_node(id, updated);
            proof {
                assert(strictly_increasing(s.ids));
                assert forall|x: u64| #[trigger] self@.nodes.contains_key(x) <==> s.nodes.contains_key(x) by {
                    assert(prev.contains_key(x) <==> s.nodes.contains_key(x));
                }
                assert forall|k: int| 0 <= k < j + 1 implies self@.nodes[#[trigger] s.ids[k]] == target[s.ids[k]] by {
                    if k < j {
                        assert(s.ids[k] < s.ids[j as int]);
                    }
                }
                assert forall|k: int| j + 1 <= k < len implies self@.nodes[#[trigger] s.ids[k]] == s.nodes[s.ids[k]] by {
                    assert(s.ids[j as int] < s.ids[k]);
                }
            }
            j = j + 1;
        }
        self.leader = Some(candidate.0);
        self.history.push(RaftEvent::LeaderElected { leader: candidate, term: Term(term) });
        proof {
            self.lemma_fields_wf();
            assert forall|id: u64| #[trigger] self@.nodes.contains_key(id) implies self@.nodes[id] == target[id] by {
                let k = choose|k: int| 0 <= k < self@.ids.len() && self@.ids[k] == id;
                assert(self@.nodes[s.ids[k]] == target[s.ids[k]]);
            }
            assert(self@.nodes =~= target);
        }
        Ok(())
    }

    /// The leader appends a command to its log, in its current term.
    pub fn append_entry(&mut self, leader: NodeId, command: &str) -> (r: Result<LogIndex, RaftError>)
        requires
            old(self).wf(),
            old(self)@.nodes.contains_key(leader.0) ==> old(self)@.nodes[leader.0].log.len() + 1
                <= u64::MAX,
        ensures
            final(self).wf(),
            (final(self)@, r) == append_outcome(old(self)@, leader.0, command@),
    {
        proof {
            lemma_log_steps_keep(old(self)@, leader.0, 0, 0, command@);
        }
        self.ensure_leader(leader)?;
        let node = self.nodes.get(leader.0).unwrap();
        let index = LogIndex(node.log.len() as u64 + 1);
        let term = Term(node.current_term);
        let mut updated = node.duplicate();
        updated.log.push(LogEntry { index, term, command: command.to_owned() });
        let ghost expected = append_outcome(old(self)@, leader.0, command@).0.nodes[leader.0];
        proof {
            assert(updated@.log =~= expected.log);
        }
        self.put_node(leader.0, updated);
        self.history.push(RaftEvent::EntryAppended { leader, index, term });
        Ok(index)
    }

    /// The leader replicates its entry at `index` to `follower`.
    ///
    /// The follower takes the entry only as the next one of its log; a
    /// follower already holding it changes nothing, and a different entry
    /// at that index is a conflict, or a refusal when it is committed.
    pub fn replicate_entry(&mut self, leader: NodeId, follower: NodeId, index: LogIndex) -> (r: Result<(), RaftError>)
        requires
            old(self).wf(),
        ensures
            final(self).wf(),
            (final(self)@, r) == replicate_outcome(old(self)@, leader.0, follower.0, index.0),
    {
        proof {
            lemma_log_steps_keep(old(self)@, leader.0, follower.0, index.0, Seq::empty());
        }
        self.ensure_leader(leader)?;
        let entry = match self.entry_at(leader, index)? {
            Some(e) => copy_entry(e),
            None => {
                return Err(RaftError::UnknownLogEntry(index));
            },
        };
        let node = match self.nodes.get(follower.0) {
            Some(n) => n,
            None => {
                return Err(RaftError::UnknownNode(follower));
            },
        };
        ensure_log_can_receive(follower, node, &entry)?;
        let already = match node.log_entry(index) {
            Some(existing) => same_entry(existing, &entry),
            None => false,
        };
        if already {
            return Ok(());
        }
        let mut updated = node.duplicate();
        if entry.term.0 > updated.current_term {
            updated.current_term = entry.term.0;
        }
        let ghost e = entry@;
        updated.log.push(entry);
        let ghost expected = replicate_outcome(old(self)@, leader.0, follower.0, index.0).0.nodes[follower.0];
        proof {
            assert(updated@.log =~= expected.log);
        }
        self.put_node(follower.0, updated);
        self.history.push(RaftEvent::EntryReplicated { leader, follower, index });
        Ok(())
    }

    /// The leader commits its entry at `index` once a majority of nodes hold
    /// that exact entry; each of them records `index` as committed.
    pub fn commit_entry(&mut self, leader: NodeId, index: LogIndex) -> (r: Result<(), RaftError>)
        requires
            old(self).wf(),
        ensures
            final(self).wf(),
            (final(self)@, r) == commit_outcome(old(self)@, leader.0, index.0),
    {
        proof {
            lemma_log_steps_keep(old(self)@, leader.0, 0, index.0, Seq::empty());
        }
        self.ensure_leader(leader)?;
        let entry = match self.entry_at(leader, index)? {
            Some(e) => copy_entry(e),
            None => {
                return Err(RaftError::UnknownLogEntry(index));
            },
        };
        let ghost s = self@;
        let ghost pred = |id: u64| entry_at(s.nodes[id].log, index.0) == Some(entry@);
        let len = self.nodes.len();
        let mut replicas: usize = 0;
        let mut i: usize = 0;
        while i < len
            invariant
                i <= len,
                len == s.ids.len(),
                self.fields_wf(),
                self@ == s,
                pred == (|id: u64| entry_at(s.nodes[id].log, index.0) == Some(entry@)),
                replicas == count_where(s.ids.take(i as int), pred),
            decreases len - i,
        {
            let node = self.nodes.value_at(i);
            proof {
                assert(s.ids.take(i + 1).drop_last() == s.ids.take(i as int));
                crate::id_map::lemma_count_where_bound(s.ids.take(i as int), pred);
                assert(self.nodes@.contains_key(self.nodes.key_seq()[i as int]));
            }
            let holds = match node.log_entry(index) {
                Some(e) => same_entry(e, &entry),
                None => false,
            };
            if holds {
                replicas = replicas + 1;
            }
            i = i + 1;
        }
        proof {
            assert(s.ids.take(i as int) == s.ids);
        }
        let quorum = self.quorum_size();
        if replicas < quorum {
            return Err(RaftError::EntryWithoutMajority { index, replicas, quorum });
        }
        let ghost target = committed_nodes(s.nodes, index.0, entry@);
        let mut j: usize = 0;
        while j < len
            invariant
                j <= len,
                len == s.ids.len(),
                self.fields_wf(),
                self@.ids == s.ids,
                self@.leader == s.leader,
                self@.history == s.history,
                s == old(self)@,
                target == committed_nodes(s.nodes, index.0, entry@),
                forall|id: u64| #[trigger] self@.nodes.contains_key(id) <==> s.nodes.contains_key(id),
                forall|k: int| 0 <= k < j ==> self@.nodes[#[trigger] s.ids[k]] == target[s.ids[k]],
                forall|k: int| j <= k < len ==> self@.nodes[#[trigger] s.ids[k]] == s.nodes[s.ids[k]],
            decreases len - j,
        {
            let id = self.nodes.key_at(j);
            let node = self.nodes.value_at(j);
            proof {
                assert(self.nodes@.contains_key(self.nodes.key_seq()[j as int]));
                assert(self@.nodes[s.ids[j as int]] == s.nodes[s.ids[j as int]]);
                assert(self@.nodes.contains_key(id));
                assert(s.nodes.contains_key(id));
                assert(node@ == s.nodes[id]);
            }
            let holds = match node.log_entry(index) {
                Some(e) => same_entry(e, &entry),
                None => false,
            };
            let mut updated = node.duplicate();
            if holds {
                updated.commit_index = Some(index.0);
            }
            let ghost prev = self@.nodes;
            self.put_node(id, updated);
            proof {
                assert(strictly_increasing(s.ids));
                assert forall|x: u64| #[trigger] self@.nodes.contains_key(x) <==> s.nodes.contains_key(x) by {
                    assert(prev.contains_key(x) <==> s.nodes.contains_key(x));
                }
                assert forall|k: int| 0 <= k < j + 1 implies self@.nodes[#[trigger] s.ids[k]] == target[s.ids[k]] by {
                    if k < j {
                        assert(s.ids[k] < s.ids[j as int]);
                    }
                }
                assert forall|k: int| j + 1 <= k < len implies self@.nodes[#[trigger] s.ids[k]] == s.nodes[s.ids[k]] by {
                    assert(s.ids[j as int] < s.ids[k]);
                }
            }
            j = j + 1;
        }
        self.history.push(RaftEvent::EntryCommitted { index });
        proof {
            self.lemma_fields_wf();
            assert forall|id: u64| #[trigger] self@.nodes.contains_key(id) implies self@.nodes[id] == target[id] by {
                let k = choose|k: int| 0 <= k < self@.ids.len() && self@.ids[k] == id;
                assert(self@.nodes[s.ids[k]] == target[s.ids[k]]);
            }
            assert(self@.nodes =~= target);
        }
        Ok(())
    }

    /// The committed command at `index`, as the current leader knows it.
    pub fn committed_command(&self, index: LogIndex) -> (r: Option<&str>)
        requires
            self.wf(),
        ensures
            match r {
                Some(c) => committed_command_of(self@, index.0) == Some(c@),
                None => committed_command_of(self@, index.0) is None,
            },
    {
        let leader = match self.leader {
            Some(l) => l,
            None => {
                return None;
            },
        };
        let node = match self.nodes.get(leader) {
            Some(n) => n,
            None => {
                return None;
            },
        };
        let committed = match node.commit_index {
            Some(c) => c >= index.0,
            None => false,
        };
        if !committed {
            return None;
        }
        match node.log_entry(index) {
            Some(e) => Some(e.command.as_str()),
            None => None,
        }
    }

    /// Installs a log on a known node, for scenarios that need divergent
    /// logs; the entries are indexed from one.
    pub fn install_log_for_scenario(&mut self, node: NodeId, entries: &[(Term, &str)]) -> (r: Result<(), RaftError>)
        requires
            old(self).wf(),
        ensures
            final(self).wf(),
            old(self)@.nodes.contains_key(node.0) ==> r == Ok::<(), RaftError>(()) && final(self)@ == (RaftView {
                nodes: old(self)@.nodes.insert(
                    node.0,
                    RaftNodeView { log: scenario_log(entries@), ..old(self)@.nodes[node.0] },
                ),
                ..old(self)@
            }),
            !old(self)@.nodes.contains_key(node.0) ==> r == Err::<(), RaftError>(RaftError::UnknownNode(node))
                && final(self)@ == old(self)@,
    {
        let current = match self.nodes.get(node.0) {
            Some(n) => n,
            None => {
                return Err(RaftError::UnknownNode(node));
            },
        };
        proof {
            lemma_install_keeps(old(self)@, node.0, scenario_log(entries@));
        }
        let mut log: Vec<LogEntry> = Vec::new();
        let mut p: usize = 0;
        while p < entries.len()
            invariant
                p <= entries@.len(),
                log@.map_values(|e: LogEntry| e@) == scenario_log(entries@).take(p as int),
            decreases entries@.len() - p,
        {
            let (term, command) = entries[p];
            let entry = LogEntry { index: LogIndex(p as u64 + 1), term, command: command.to_owned() };
            let ghost prev = log@.map_values(|e: LogEntry| e@);
            let ghost ev = entry@;
            proof {
                assert(ev == scenario_log(entries@)[p as int]);
            }
            log.push(entry);
            proof {
                assert(log@.map_values(|e: LogEntry| e@) =~= prev.push(ev));
                assert(scenario_log(entries@).take(p + 1) =~= scenario_log(entries@).take(p as int).push(ev));
            }
            p = p + 1;
        }
        proof {
            assert(scenario_log(entries@).take(p as int) == scenario_log(entries@));
        }
        let mut updated = current.duplicate();
        updated.log = log;
        self.put_node(node.0, updated);
        Ok(())
    }

    fn ensure_leader(&self, node: NodeId) -> (r: Result<(), RaftError>)
        requires
            self.wf(),
        ensures
            r == match leader_error(self@, node.0) {
                Some(e) => Err::<(), RaftError>(e),
                None => Ok(()),
            },
    {
        let role = match self.nodes.get(node.0) {
            Some(n) => n.role,
            None => {
                return Err(RaftError::UnknownNode(node));
            },
        };
        match role {
            Role::Leader => Ok(()),
            _ => Err(RaftError::NotLeader { node, role }),
        }
    }

    fn entry_at(&self, node: NodeId, index: LogIndex) -> (r: Result<Option<&LogEntry>, RaftError>)
        requires
            self.wf(),
        ensures
            match r {
                Ok(Some(e)) => self@.nodes.contains_key(node.0) && entry_at(self@.nodes[node.0].log, index.0) == Some(e@),
                Ok(None) => self@.nodes.contains_key(node.0) && entry_at(self@.nodes[node.0].log, index.0) is None,
                Err(e) => !self@.nodes.contains_key(node.0) && e == RaftError::UnknownNode(node),
            },
    {
        match self.nodes.get(node.0) {
            Some(n) => Ok(n.log_entry(index)),
            None => Err(RaftError::UnknownNode(node)),
        }
    }
}

} // verus!
