//! The quantum dispatcher: devices that serve one iteration at a time, and
//! the policies that pick the next pending task.

use vstd::prelude::*;
use crate::error::SimulationError;
use crate::random::{choose_one, total_weight, weighted_index};
use crate::task::{Task, TaskType};

verus! {

/// How the next pending quantum task is picked when a device becomes free.
#[derive(Debug, Clone, Copy, PartialEq, Eq, Structural)]
pub enum QuantumSchedulePolicy {
    /// The task that has waited longest in the list.
    Fifo,
    /// The task at the end of the list.
    Lifo,
    /// Any task, each as likely as the others.
    Random,
    /// Any task, each as likely as its job's priority is high.
    Weighted,
}

impl QuantumSchedulePolicy {
    /// The policy that a name stands for.
    pub open spec fn named(name: Seq<char>) -> Option<QuantumSchedulePolicy> {
        if name == "fifo"@ {
            Some(QuantumSchedulePolicy::Fifo)
        } else if name == "lifo"@ {
            Some(QuantumSchedulePolicy::Lifo)
        } else if name == "random"@ {
            Some(QuantumSchedulePolicy::Random)
        } else if name == "weighted"@ {
            Some(QuantumSchedulePolicy::Weighted)
        } else {
            None
        }
    }

    /// Reads a policy from its name: `fifo`, `lifo`, `random` or `weighted`.
    pub fn from_str(s: &str) -> (policy: Result<QuantumSchedulePolicy, SimulationError>)
        ensures
            policy == match QuantumSchedulePolicy::named(s@) {
                Some(p) => Ok::<QuantumSchedulePolicy, SimulationError>(p),
                None => Err(SimulationError::InvalidQuantumPolicy),
            },
    {
        let name = s.to_owned();
        if name == "fifo".to_owned() {
            Ok(QuantumSchedulePolicy::Fifo)
        } else if name == "lifo".to_owned() {
            Ok(QuantumSchedulePolicy::Lifo)
        } else if name == "random".to_owned() {
            Ok(QuantumSchedulePolicy::Random)
        } else if name == "weighted".to_owned() {
            Ok(QuantumSchedulePolicy::Weighted)
        } else {
            Err(SimulationError::InvalidQuantumPolicy)
        }
    }
}

/// The task is a quantum iteration that ends at `now`: its residual is
/// the time since its last update.
pub open spec fn completes_at(task: Task, now: u64) -> bool {
    task.task_type is Quantum && task.last_update + task.task_type.residual() == now
}

/// The index of the first task of the list that ends at `now`, if there is one.
pub open spec fn first_completed(active: Seq<Task>, now: u64) -> Option<int>
    decreases active.len(),
{
    if active.len() == 0 {
        None
    } else {
        match first_completed(active.drop_last(), now) {
            Some(i) => Some(i),
            None => if completes_at(active.last(), now) {
                Some(active.len() - 1)
            } else {
                None
            },
        }
    }
}

/// The first task that ends at `now` is a task that ends at `now` with
/// none before it; there is none if no task ends at `now`.
pub proof fn lemma_first_completed(active: Seq<Task>, now: u64)
    ensures
        match first_completed(active, now) {
            Some(i) => {
                &&& 0 <= i < active.len()
                &&& completes_at(active[i], now)
                &&& forall|j: int| 0 <= j < i ==> !completes_at(#[trigger] active[j], now)
            },
            None => forall|j: int| 0 <= j < active.len() ==> !completes_at(#[trigger] active[j], now),
        },
    decreases active.len(),
{
    if active.len() > 0 {
        let front = active.drop_last();
        lemma_first_completed(front, now);
        match first_completed(front, now) {
            Some(i) => {
                assert(front[i] == active[i]);
                assert forall|j: int| 0 <= j < i implies !completes_at(#[trigger] active[j], now) by {
                    assert(front[j] == active[j]);
                }
            },
            None => {
                assert forall|j: int| 0 <= j < front.len() implies !completes_at(
                    #[trigger] active[j],
                    now,
                ) by {
                    assert(front[j] == active[j]);
                }
            },
        }
    }
}

/// The index of the first task of the list that ends at `now`, if there is one.
pub fn find_completed(active: &Vec<Task>, now: u64) -> (found: Option<usize>)
    ensures
        match found {
            Some(i) => first_completed(active@, now) == Some(i as int),
            None => first_completed(active@, now) is None,
        },
        match found {
            Some(i) => {
                &&& i < active@.len()
                &&& completes_at(active@[i as int], now)
                &&& forall|j: int| 0 <= j < i ==> !completes_at(#[trigger] active@[j], now)
            },
            None => forall|j: int| 0 <= j < active@.len() ==> !completes_at(#[trigger] active@[j], now),
        },
{
    proof {
        lemma_first_completed(active@, now);
    }
    let mut i: usize = 0;
    while i < active.len()
        invariant
            i <= active.len(),
            forall|j: int| 0 <= j < i ==> !completes_at(#[trigger] active@[j], now),
        decreases active.len() - i,
    {
        let task = &active[i];
        if let TaskType::Quantum(residual) = task.task_type {
            if task.last_update <= now && residual == now - task.last_update {
                assert(completes_at(active@[i as int], now));
                proof {
                    lemma_first_completed(active@, now);
                }
                return Some(i);
            }
        }
        i += 1;
    }
    proof {
        lemma_first_completed(active@, now);
    }
    None
}

/// The weights leave the arithmetic of the alias table within 32 bits:
/// the number of weights times their sum does.
pub open spec fn weights_fit(weights: Seq<u32>) -> bool {
    weights.len() * total_weight(weights) <= u32::MAX
}

/// Tells whether the weights leave the arithmetic of the alias table
/// within 32 bits.
pub fn check_weights(weights: &Vec<u32>) -> (fit: bool)
    ensures
        fit == weights_fit(weights@),
{
    let mut total: u64 = 0;
    let mut i: usize = 0;
    let limit: u64 = 0xffff_ffff;
    assert(weights@.take(0) =~= Seq::<u32>::empty());
    while i < weights.len()
        invariant
            i <= weights.len(),
            total == total_weight(weights@.take(i as int)),
            total <= limit,
            limit == u32::MAX,
        decreases weights.len() - i,
    {
        assert(weights@.take(i + 1).drop_last() =~= weights@.take(i as int));
        total = total + weights[i] as u64;
        if total > limit {
            proof {
                lemma_total_weight_grows(weights@, i + 1);
                let n = weights@.len() as int;
                let t = total_weight(weights@);
                assert(n * t >= t) by (nonlinear_arith)
                    requires
                        n >= 1,
                        t >= 0,
                ;
            }
            return false;
        }
        i += 1;
    }
    assert(weights@.take(weights.len() as int) =~= weights@);
    let n = weights.len();
    if n == 0 {
        assert(weights@.len() * total_weight(weights@) == 0) by (nonlinear_arith)
            requires
                weights@.len() == 0,
        ;
        return true;
    }
    if n as u64 > limit {
        proof {
            let m = n as int;
            let t = total as int;
            if t >= 1 {
                assert(m * t >= m) by (nonlinear_arith)
                    requires
                        m >= 0,
                        t >= 1,
                ;
            } else {
                assert(m * t == 0) by (nonlinear_arith)
                    requires
                        t == 0,
                ;
            }
        }
        return total == 0;
    }
    assert(n * total <= 0xffff_ffff * 0xffff_ffff) by (nonlinear_arith)
        requires
            0 <= n <= 0xffff_ffff,
            0 <= total <= 0xffff_ffff,
    ;
    (n as u64) * total <= limit
}

/// The sum of the weights is at least the sum of each of its prefixes.
proof fn lemma_total_weight_grows(weights: Seq<u32>, k: int)
    requires
        0 <= k <= weights.len(),
    ensures
        total_weight(weights.take(k)) <= total_weight(weights),
    decreases weights.len() - k,
{
    if k < weights.len() {
        lemma_total_weight_grows(weights, k + 1);
        assert(weights.take(k + 1).drop_last() =~= weights.take(k));
    } else {
        assert(weights.take(k) =~= weights);
    }
}

/// The index that a policy picks among `len` pending tasks, given the
/// index that was drawn for the policies that draw one. With no pending
/// task no index is picked.
pub open spec fn picked(policy: QuantumSchedulePolicy, len: nat, drawn: usize) -> Option<usize> {
    if len == 0 {
        None
    } else {
        match policy {
            QuantumSchedulePolicy::Fifo => Some(0),
            QuantumSchedulePolicy::Lifo => Some((len - 1) as usize),
            QuantumSchedulePolicy::Random => Some(drawn),
            QuantumSchedulePolicy::Weighted => Some(drawn),
        }
    }
}

/// The index that a policy picks among `len` pending tasks, given the
/// index that was drawn.
pub fn pick(policy: QuantumSchedulePolicy, len: usize, drawn: usize) -> (index: Option<usize>)
    ensures
        index == picked(policy, len as nat, drawn),
{
    if len == 0 {
        None
    } else {
        match policy {
            QuantumSchedulePolicy::Fifo => Some(0),
            QuantumSchedulePolicy::Lifo => Some(len - 1),
            QuantumSchedulePolicy::Random => Some(drawn),
            QuantumSchedulePolicy::Weighted => Some(drawn),
        }
    }
}

/// Draws the index that the random and the weighted policy pick among the
/// pending tasks, whose weights are given; the other policies draw nothing
/// and get 0, and so does any policy if no task is pending. The index is
/// within the list. Under the weighted policy a task without weight is not
/// drawn, unless no task has any weight. The generator is used by the
/// random policy alone, which draws one of the indices of the list with it:
/// the weighted policy draws with the generator of its alias table.
pub fn draw_index(
    policy: QuantumSchedulePolicy,
    weights: &Vec<u32>,
    rng: &mut rand::rngs::StdRng,
) -> (drawn: usize)
    requires
        policy == QuantumSchedulePolicy::Weighted ==> weights_fit(weights@),
    ensures
        weights@.len() == 0 ==> drawn == 0,
        weights@.len() > 0 ==> drawn < weights@.len(),
        policy == QuantumSchedulePolicy::Fifo || policy == QuantumSchedulePolicy::Lifo ==> drawn
            == 0,
        policy == QuantumSchedulePolicy::Weighted && total_weight(weights@) > 0
            ==> weights@[drawn as int] > 0,
        policy != QuantumSchedulePolicy::Random || weights@.len() == 0 ==> *final(rng)
            == *old(rng),
{
    if weights.len() == 0 {
        return 0;
    }
    match policy {
        QuantumSchedulePolicy::Fifo => 0,
        QuantumSchedulePolicy::Lifo => 0,
        QuantumSchedulePolicy::Random => {
            let mut indices: Vec<usize> = Vec::new();
            let mut i: usize = 0;
            while i < weights.len()
                invariant
                    i <= weights.len(),
                    indices@.len() == i,
                    forall|j: int| 0 <= j < i ==> indices@[j] == j,
                decreases weights.len() - i,
            {
                indices.push(i);
                i += 1;
            }
            let drawn = choose_one(&indices, rng).unwrap();
            assert(indices@.contains(drawn));
            drawn
        },
        QuantumSchedulePolicy::Weighted => weighted_index(weights),
    }
}

/// The task, if it runs from its last update on, ends at `t`.
pub open spec fn ends_at(task: Task, t: u64) -> bool {
    task.last_update + task.task_type.residual() == t
}

/// The number of tasks of the list that end at `t`.
pub open spec fn tasks_ending(tasks: Seq<Task>, t: u64) -> nat
    decreases tasks.len(),
{
    if tasks.len() == 0 {
        0
    } else {
        tasks_ending(tasks.drop_last(), t) + if ends_at(tasks.last(), t) {
            1nat
        } else {
            0nat
        }
    }
}

/// Where some task ends at `t`, one of the tasks does.
pub proof fn lemma_some_task_ends(tasks: Seq<Task>, t: u64)
    requires
        tasks_ending(tasks, t) > 0,
    ensures
        exists|i: int| 0 <= i < tasks.len() && ends_at(#[trigger] tasks[i], t),
    decreases tasks.len(),
{
    if ends_at(tasks.last(), t) {
        assert(ends_at(tasks[tasks.len() - 1], t));
    } else {
        lemma_some_task_ends(tasks.drop_last(), t);
        let i = choose|i: int|
            0 <= i < tasks.drop_last().len() && ends_at(#[trigger] tasks.drop_last()[i], t);
        assert(ends_at(tasks[i], t));
    }
}

/// A task put in the place of another is counted in its stead.
pub proof fn lemma_tasks_ending_update(tasks: Seq<Task>, i: int, task: Task, t: u64)
    requires
        0 <= i < tasks.len(),
    ensures
        tasks_ending(tasks.update(i, task), t) + if ends_at(tasks[i], t) {
            1nat
        } else {
            0nat
        } == tasks_ending(tasks, t) + if ends_at(task, t) {
            1nat
        } else {
            0nat
        },
    decreases tasks.len(),
{
    let r = tasks.update(i, task);
    if i == tasks.len() - 1 {
        assert(r.drop_last() =~= tasks.drop_last());
    } else {
        assert(r.drop_last() =~= tasks.drop_last().update(i, task));
        assert(r.last() == tasks.last());
        lemma_tasks_ending_update(tasks.drop_last(), i, task, t);
    }
}

/// A task that leaves the list, the last task taking its place, is no
/// longer counted.
pub proof fn lemma_tasks_ending_swap_remove(tasks: Seq<Task>, i: int, t: u64)
    requires
        0 <= i < tasks.len(),
    ensures
        tasks_ending(tasks.update(i, tasks.last()).drop_last(), t) + if ends_at(tasks[i], t) {
            1nat
        } else {
            0nat
        } == tasks_ending(tasks, t),
{
    lemma_tasks_ending_update(tasks, i, tasks.last(), t);
    let u = tasks.update(i, tasks.last());
    assert(u.last() == tasks.last());
}

} // verus!
