//! The CAP tradeoff as a decision under partition.
//!
//! The model only represents what a replica decides when the network is
//! partitioned: refuse, to keep a single strong truth, or serve locally and
//! accept temporary divergence.

use vstd::prelude::*;

verus! {

/// Consistency level the operation tries to keep.
#[derive(Clone, Copy, Debug, PartialEq, Eq)]
pub enum ConsistencyLevel {
    /// The operation must observe a single strong truth.
    Strong,
    /// The operation tolerates temporary divergence that is reconciled later.
    Eventual,
}

/// How a live local replica answers.
#[derive(Clone, Copy, Debug, PartialEq, Eq)]
pub enum AvailabilityPolicy {
    /// The operation needs coordination with other replicas first.
    RequireCoordination,
    /// The operation completes on the local replica even under partition.
    ServeLocalReplica,
}

/// Observable state of the network.
#[derive(Clone, Copy, Debug, PartialEq, Eq)]
pub enum PartitionState {
    /// The replicas involved can talk to each other.
    Healthy,
    /// Some replica involved is cut off by the network.
    Partitioned,
}

/// Kind of the operation evaluated.
#[derive(Clone, Copy, Debug, PartialEq, Eq)]
pub enum OperationKind {
    /// Reads state.
    Read,
    /// Writes state.
    Write,
}

/// Observable CAP decision for an operation.
#[derive(Clone, Copy, Debug, PartialEq, Eq)]
pub enum CapDecision {
    /// Completes without giving up strong consistency.
    AcceptConsistent,
    /// Refused so that no divergent truth appears.
    RejectToPreserveConsistency,
    /// Accepted locally at the risk of temporary divergence.
    AcceptWithDivergenceRisk,
}

/// A scenario in which to reason about a CAP decision.
#[derive(Clone, Copy, Debug, PartialEq, Eq)]
pub struct CapScenario {
    partition: PartitionState,
    consistency: ConsistencyLevel,
    availability: AvailabilityPolicy,
    operation: OperationKind,
}

/// Result of evaluating an operation in the CAP model.
#[derive(Clone, Copy, Debug, PartialEq, Eq)]
pub struct CapOutcome {
    /// The operation evaluated.
    pub operation: OperationKind,
    /// The decision taken.
    pub decision: CapDecision,
    /// Whether the partition made the CAP tradeoff visible.
    pub partition_tradeoff_visible: bool,
    /// Whether the result keeps strong consistency.
    pub preserves_strong_consistency: bool,
    /// Whether the result keeps CAP availability for the operation.
    pub preserves_cap_availability: bool,
    /// Whether the result may produce divergent states.
    pub divergence_possible: bool,
    /// Short explanation of the decision.
    pub explanation: &'static str,
}

/// The outcome owed for a scenario.
pub open spec fn cap_outcome(
    partition: PartitionState,
    consistency: ConsistencyLevel,
    availability: AvailabilityPolicy,
    operation: OperationKind,
) -> CapOutcome {
    match (partition, consistency, availability) {
        (PartitionState::Healthy, _, _) => CapOutcome {
            operation,
            decision: CapDecision::AcceptConsistent,
            partition_tradeoff_visible: false,
            preserves_strong_consistency: true,
            preserves_cap_availability: true,
            divergence_possible: false,
            explanation: "Sin partición, el modelo no fabrica un tradeoff CAP.",
        },
        (PartitionState::Partitioned, _, AvailabilityPolicy::RequireCoordination) => CapOutcome {
            operation,
            decision: CapDecision::RejectToPreserveConsistency,
            partition_tradeoff_visible: true,
            preserves_strong_consistency: true,
            preserves_cap_availability: false,
            divergence_possible: false,
            explanation: "Durante una partición, exigir coordinación rechaza la operación para conservar una verdad fuerte.",
        },
        (
            PartitionState::Partitioned,
            ConsistencyLevel::Strong,
            AvailabilityPolicy::ServeLocalReplica,
        ) => CapOutcome {
            operation,
            decision: CapDecision::RejectToPreserveConsistency,
            partition_tradeoff_visible: true,
            preserves_strong_consistency: true,
            preserves_cap_availability: false,
            divergence_possible: false,
            explanation: "Durante una partición, consistencia fuerte rechaza completar localmente para evitar divergencia.",
        },
        (
            PartitionState::Partitioned,
            ConsistencyLevel::Eventual,
            AvailabilityPolicy::ServeLocalReplica,
        ) => CapOutcome {
            operation,
            decision: CapDecision::AcceptWithDivergenceRisk,
            partition_tradeoff_visible: true,
            preserves_strong_consistency: false,
            preserves_cap_availability: true,
            divergence_possible: true,
            explanation: "Durante una partición, responder localmente preserva disponibilidad y acepta divergencia temporal.",
        },
    }
}

impl CapScenario {
    /// Network state of the scenario.
    pub closed spec fn partition_view(&self) -> PartitionState {
        self.partition
    }

    /// Consistency level of the scenario.
    pub closed spec fn consistency_view(&self) -> ConsistencyLevel {
        self.consistency
    }

    /// Availability policy of the scenario.
    pub closed spec fn availability_view(&self) -> AvailabilityPolicy {
        self.availability
    }

    /// Operation of the scenario.
    pub closed spec fn operation_view(&self) -> OperationKind {
        self.operation
    }

    /// A CAP scenario.
    pub fn new(
        partition: PartitionState,
        consistency: ConsistencyLevel,
        availability: AvailabilityPolicy,
        operation: OperationKind,
    ) -> (s: Self)
        ensures
            s.partition_view() == partition,
            s.consistency_view() == consistency,
            s.availability_view() == availability,
            s.operation_view() == operation,
    {
        CapScenario { partition, consistency, availability, operation }
    }

    /// Evaluates the scenario: the decision and the guarantees it keeps.
    pub fn evaluate(&self) -> (o: CapOutcome)
        ensures
            o == cap_outcome(
                self.partition_view(),
                self.consistency_view(),
                self.availability_view(),
                self.operation_view(),
            ),
    {
        match (self.partition, self.consistency, self.availability) {
            (PartitionState::Healthy, _, _) => CapOutcome {
                operation: self.operation,
                decision: CapDecision::AcceptConsistent,
                partition_tradeoff_visible: false,
                preserves_strong_consistency: true,
                preserves_cap_availability: true,
                divergence_possible: false,
                explanation: "Sin partición, el modelo no fabrica un tradeoff CAP.",
            },
            (PartitionState::Partitioned, _, AvailabilityPolicy::RequireCoordination) => {
                CapOutcome {
                    operation: self.operation,
                    decision: CapDecision::RejectToPreserveConsistency,
                    partition_tradeoff_visible: true,
                    preserves_strong_consistency: true,
                    preserves_cap_availability: false,
                    divergence_possible: false,
                    explanation: "Durante una partición, exigir coordinación rechaza la operación para conservar una verdad fuerte.",
                }
            },
            (
                PartitionState::Partitioned,
                ConsistencyLevel::Strong,
                AvailabilityPolicy::ServeLocalReplica,
            ) => CapOutcome {
                operation: self.operation,
                decision: CapDecision::RejectToPreserveConsistency,
                partition_tradeoff_visible: true,
                preserves_strong_consistency: true,
                preserves_cap_availability: false,
                divergence_possible: false,
                explanation: "Durante una partición, consistencia fuerte rechaza completar localmente para evitar divergencia.",
            },
            (
                PartitionState::Partitioned,
                ConsistencyLevel::Eventual,
                AvailabilityPolicy::ServeLocalReplica,
            ) => CapOutcome {
                operation: self.operation,
                decision: CapDecision::AcceptWithDivergenceRisk,
                partition_tradeoff_visible: true,
                preserves_strong_consistency: false,
                preserves_cap_availability: true,
                divergence_possible: true,
                explanation: "Durante una partición, responder localmente preserva disponibilidad y acepta divergencia temporal.",
            },
        }
    }
}

/// Without a partition no tradeoff appears; under a partition exactly one
/// of strong consistency and CAP availability is kept, divergence is
/// possible exactly when strong consistency is given up, and the operation
/// never changes the decision.
pub proof fn lemma_cap_tradeoff(
    partition: PartitionState,
    consistency: ConsistencyLevel,
    availability: AvailabilityPolicy,
    operation: OperationKind,
    other: OperationKind,
)
    ensures
        ({
            let o = cap_outcome(partition, consistency, availability, operation);
            &&& o.operation == operation
            &&& o.partition_tradeoff_visible == (partition == PartitionState::Partitioned)
            &&& partition == PartitionState::Healthy ==> o.decision == CapDecision::AcceptConsistent
                && o.preserves_strong_consistency && o.preserves_cap_availability
            &&& partition == PartitionState::Partitioned ==> o.preserves_strong_consistency
                != o.preserves_cap_availability
            &&& o.divergence_possible == !o.preserves_strong_consistency
            &&& o.decision == CapDecision::AcceptWithDivergenceRisk <==> (partition
                == PartitionState::Partitioned && consistency == ConsistencyLevel::Eventual
                && availability == AvailabilityPolicy::ServeLocalReplica)
            &&& o.decision == cap_outcome(partition, consistency, availability, other).decision
        }),
{
}

} // verus!
