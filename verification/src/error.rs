//! Why a simulation cannot be set up, or cannot go on.

use vstd::prelude::*;

verus! {

/// Why a configuration is rejected.
#[derive(Debug, Clone, Copy, PartialEq, Eq, Structural)]
pub enum SimulationError {
    /// The duration of the experiment is 0.
    VanishingDuration,
    /// The average time between two arrivals is 0.
    VanishingInterarrival,
    /// The job type is not `VQE` followed by at least one number of qubits.
    InvalidJobType,
    /// The priorities are not a list of positive numbers.
    InvalidPriorities,
    /// The policy to schedule quantum tasks is not known.
    InvalidQuantumPolicy,
}

/// Why a run stopped before the end of the experiment.
#[derive(Debug, Clone, Copy, PartialEq, Eq, Structural)]
pub enum Interrupted {
    /// A job arrived and no further inter-arrival time was supplied.
    ArrivalsExhausted,
    /// The next event cannot be handled within the limits of the machine
    /// or of the kernel's own consistency.
    CannotStep,
}

} // verus!
