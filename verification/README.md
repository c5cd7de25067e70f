# rust-distributed-systems

Small, deterministic models of the core mechanisms of distributed systems,
written in Verus. Each module models one mechanism; every executable function
carries a contract over a mathematical view of its state, and the properties
that make the mechanism work are stated and proved as lemmas.

| Module | Mechanism | Main properties proved |
|--------|-----------|------------------------|
| `consensus` | one round of majority agreement | majorities intersect; at most one decision; a decision is final |
| `raft` | terms, votes, log replication, commit | one leader per term over any run; votes are permanent; terms never decrease; logs only grow; a commit needs a majority |
| `paxos` | promises, acceptances, choice | the safe value is the highest accepted one; a choice needs a majority and is stable |
| `leader_election` | majority election with terms and roles | one winner per term; votes are permanent |
| `distributed_locks` | leases with fencing tokens | tokens only grow; at most one lock per resource |
| `vector_clock` | causal order between events | relation laws; a merge is an upper bound of both clocks; increments move forward |
| `lamport_clock` | scalar logical time | exact tick, send and receive rules |
| `crdt` | grow-only counter | merge is commutative, associative, idempotent; state relation laws |
| `cap` | decisions under partition | the consistency/availability trade-off |
| `consistent_hashing` | ring ownership | unique owner; a non-empty ring owns every key; adding or removing a node moves only its keys; the ring and its listing do not depend on insertion order |
| `gossip` | push rounds with a fanout | contacts only between available peers within the fanout; converged clusters are fixed points; convergence after as many rounds as available nodes minus one |
| `distributed_transactions` | two-phase commit and sagas | exact decisions and compensation order; a decision or compensation is the one of the first successful call |

`id_map` (ordered maps and sets over `BTreeMap`/`BTreeSet`), `counter_map`
and `text` hold the containers and spec helpers the models share.

The tests under `tests/` exercise the same scenarios on concrete values.
