//! Tasks: the indivisible units of work that jobs hand to the two engines.

use vstd::prelude::*;

verus! {

/// The kind of a task together with its residual workload.
#[derive(Debug, Clone, Copy, PartialEq, Eq, Structural)]
pub enum TaskType {
    /// Classical task, with the residual number of operations.
    Classical(u64),
    /// Quantum task, with the residual time of execution, in ns.
    Quantum(u64),
}

impl TaskType {
    /// The residual workload: operations for a classical task, ns for a quantum one.
    pub open spec fn residual(self) -> u64 {
        match self {
            TaskType::Classical(r) => r,
            TaskType::Quantum(r) => r,
        }
    }
}

/// A task owned by one job.
#[derive(Debug, Clone, Copy, PartialEq, Eq, Structural)]
pub struct Task {
    /// Identifier of the owning job.
    pub job_id: u64,
    /// Kind and residual workload.
    pub task_type: TaskType,
    /// Time at which the task first entered service, in ns.
    pub start_time: u64,
    /// Time at which the residual was last debited, in ns.
    pub last_update: u64,
}

impl Task {
    /// A task is consistent when it was not updated before it started.
    pub open spec fn wf(self) -> bool {
        self.start_time <= self.last_update
    }

    /// A task with no residual workload is complete.
    pub open spec fn is_complete(self) -> bool {
        self.task_type.residual() == 0
    }
}

/// No two tasks of the list belong to the same job.
pub open spec fn ids_distinct(a: Seq<Task>) -> bool {
    forall|i: int, j: int|
        0 <= i < j < a.len() ==> (#[trigger] a[i]).job_id != (#[trigger] a[j]).job_id
}

/// No task of one list belongs to the job of a task of the other.
pub open spec fn ids_apart(a: Seq<Task>, b: Seq<Task>) -> bool {
    forall|i: int, j: int|
        0 <= i < a.len() && 0 <= j < b.len() ==> (#[trigger] a[i]).job_id != (
        #[trigger] b[j]).job_id
}

/// Every task of the list is quantum.
pub open spec fn all_quantum(tasks: Seq<Task>) -> bool {
    forall|i: int| 0 <= i < tasks.len() ==> (#[trigger] tasks[i]).task_type is Quantum
}

} // verus!
