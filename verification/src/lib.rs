//! Small, deterministic models of the central mechanisms of distributed
//! systems: logical clocks, replicated counters, consensus, leader election,
//! leases, consistent hashing, gossip and distributed transactions.

pub mod cap;
pub mod consensus;
pub mod consistent_hashing;
pub mod counter_map;
pub mod crdt;
pub mod distributed_locks;
pub mod distributed_transactions;
pub mod gossip;
pub mod id_map;
pub mod lamport_clock;
pub mod leader_election;
pub mod paxos;
pub mod raft;
pub mod text;
pub mod vector_clock;

use vstd::prelude::*;

verus! {

/// Canonical name of the course these models belong to.
pub fn course_name() -> (name: &'static str)
    ensures
        name@ == "rust-distributed-systems"@,
{
    "rust-distributed-systems"
}

} // verus!
