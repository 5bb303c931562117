//! The classical engine: identical workers whose capacity is shared
//! equally among the classical tasks in service.

use vstd::prelude::*;
use crate::task::{ids_apart, ids_distinct, Task, TaskType};

verus! {

/// Nanoseconds in a second: a capacity is in operations per second, a time in ns.
pub const GIGA: u64 = 1_000_000_000;

/// Every task of the list is classical.
pub open spec fn all_classical(tasks: Seq<Task>) -> bool {
    forall|i: int| 0 <= i < tasks.len() ==> (#[trigger] tasks[i]).task_type is Classical
}

/// No task of the list was updated after `now`.
pub open spec fn none_ahead(tasks: Seq<Task>, now: u64) -> bool {
    forall|i: int| 0 <= i < tasks.len() ==> (#[trigger] tasks[i]).last_update <= now
}

/// The number of tasks that have been in service since before `now`:
/// those admitted at `now` itself do not count.
pub open spec fn in_service(tasks: Seq<Task>, now: u64) -> nat
    decreases tasks.len(),
{
    if tasks.len() == 0 {
        0
    } else {
        in_service(tasks.drop_last(), now) + if tasks.last().last_update < now {
            1nat
        } else {
            0nat
        }
    }
}

/// The capacity each of `n` tasks in service gets, in operations per
/// second: a worker's capacity if there are no more tasks than workers,
/// an equal share of all the workers' capacity otherwise. With no task in
/// service there is no capacity to speak of.
pub open spec fn per_task_capacity(worker_capacity: u64, num_workers: usize, n: nat) -> Option<u64> {
    if n == 0 {
        None
    } else {
        let shared = (num_workers * worker_capacity) / (n as int);
        if worker_capacity <= shared {
            Some(worker_capacity)
        } else {
            Some(shared as u64)
        }
    }
}

/// The operations done in `elapsed` ns at the given capacity, rounded up.
pub open spec fn operations_in(elapsed: int, capacity: Option<u64>) -> int {
    match capacity {
        None => 0,
        Some(c) => (elapsed * c + GIGA - 1) / (GIGA as int),
    }
}

/// The task after it is charged at `now` for the operations done since its
/// last update. The residual does not go below 0.
pub open spec fn debited(task: Task, now: u64, capacity: Option<u64>) -> Task {
    let ops = operations_in(now - task.last_update, capacity);
    Task {
        job_id: task.job_id,
        task_type: match task.task_type {
            TaskType::Classical(r) => TaskType::Classical(
                if ops >= r {
                    0
                } else {
                    (r - ops) as u64
                },
            ),
            TaskType::Quantum(r) => TaskType::Quantum(r),
        },
        start_time: task.start_time,
        last_update: now,
    }
}

/// The tasks after each is charged at `now`.
pub open spec fn debited_all(tasks: Seq<Task>, now: u64, capacity: Option<u64>) -> Seq<Task> {
    Seq::new(tasks.len(), |i: int| debited(tasks[i], now, capacity))
}

/// The tasks of the list that still have work to do, in order.
pub open spec fn unfinished(tasks: Seq<Task>) -> Seq<Task>
    decreases tasks.len(),
{
    if tasks.len() == 0 {
        Seq::empty()
    } else if tasks.last().is_complete() {
        unfinished(tasks.drop_last())
    } else {
        unfinished(tasks.drop_last()).push(tasks.last())
    }
}

/// The tasks of the list that are complete, in order.
pub open spec fn finished(tasks: Seq<Task>) -> Seq<Task>
    decreases tasks.len(),
{
    if tasks.len() == 0 {
        Seq::empty()
    } else if tasks.last().is_complete() {
        finished(tasks.drop_last()).push(tasks.last())
    } else {
        finished(tasks.drop_last())
    }
}

/// The tasks in service at `now` share the capacity of the workers.
pub open spec fn capacity_at(
    tasks: Seq<Task>,
    now: u64,
    worker_capacity: u64,
    num_workers: usize,
) -> Option<u64> {
    per_task_capacity(worker_capacity, num_workers, in_service(tasks, now))
}

/// Every task of `parts` is a task of `tasks`.
pub open spec fn drawn_from(parts: Seq<Task>, tasks: Seq<Task>) -> bool {
    forall|i: int| 0 <= i < parts.len() ==> tasks.contains(#[trigger] parts[i])
}

/// The unfinished and the finished tasks of a list are tasks of the list,
/// are as many as the list, and are what their names say.
pub proof fn lemma_partition(tasks: Seq<Task>)
    ensures
        unfinished(tasks).len() + finished(tasks).len() == tasks.len(),
        drawn_from(unfinished(tasks), tasks),
        drawn_from(finished(tasks), tasks),
        forall|i: int| 0 <= i < unfinished(tasks).len() ==> !(#[trigger] unfinished(tasks)[i]).is_complete(),
        forall|i: int| 0 <= i < finished(tasks).len() ==> (#[trigger] finished(tasks)[i]).is_complete(),
    decreases tasks.len(),
{
    if tasks.len() > 0 {
        let front = tasks.drop_last();
        lemma_partition(front);
        assert forall|i: int| 0 <= i < unfinished(tasks).len() implies tasks.contains(
            #[trigger] unfinished(tasks)[i],
        ) by {
            if i < unfinished(front).len() {
                let t = unfinished(front)[i];
                assert(front.contains(t));
                let k = choose|k: int| 0 <= k < front.len() && front[k] == t;
                assert(tasks[k] == t);
            } else {
                assert(tasks[tasks.len() - 1] == tasks.last());
            }
        }
        assert forall|i: int| 0 <= i < finished(tasks).len() implies tasks.contains(
            #[trigger] finished(tasks)[i],
        ) by {
            if i < finished(front).len() {
                let t = finished(front)[i];
                assert(front.contains(t));
                let k = choose|k: int| 0 <= k < front.len() && front[k] == t;
                assert(tasks[k] == t);
            } else {
                assert(tasks[tasks.len() - 1] == tasks.last());
            }
        }
    }
}

/// Counts the tasks that have been in service since before `now`.
pub fn count_in_service(tasks: &Vec<Task>, now: u64) -> (n: u64)
    ensures
        n == in_service(tasks@, now),
        n <= tasks@.len(),
{
    let mut n: u64 = 0;
    let mut i: usize = 0;
    assert(tasks@.take(0) =~= Seq::<Task>::empty());
    while i < tasks.len()
        invariant
            i <= tasks.len(),
            n == in_service(tasks@.take(i as int), now),
            n <= i,
        decreases tasks.len() - i,
    {
        assert(tasks@.take(i + 1).drop_last() =~= tasks@.take(i as int));
        if tasks[i].last_update < now {
            n = n + 1;
        }
        i += 1;
    }
    assert(tasks@.take(tasks.len() as int) =~= tasks@);
    n
}

/// The capacity each of `n` tasks in service gets.
pub fn share_capacity(worker_capacity: u64, num_workers: usize, n: u64) -> (capacity: Option<u64>)
    ensures
        capacity == per_task_capacity(worker_capacity, num_workers, n as nat),
{
    if n == 0 {
        None
    } else {
        assert(num_workers * worker_capacity <= u128::MAX) by (nonlinear_arith)
            requires
                0 <= num_workers <= u64::MAX,
                0 <= worker_capacity <= u64::MAX,
        ;
        let total: u128 = (num_workers as u128) * (worker_capacity as u128);
        let shared: u128 = total / (n as u128);
        if (worker_capacity as u128) <= shared {
            Some(worker_capacity)
        } else {
            Some(shared as u64)
        }
    }
}

/// Charges a task at `now` for the operations done since its last update.
pub fn debit(task: Task, now: u64, capacity: Option<u64>) -> (charged: Task)
    requires
        task.last_update <= now,
    ensures
        charged == debited(task, now, capacity),
{
    let elapsed: u64 = now - task.last_update;
    let ops: u128 = match capacity {
        None => 0,
        Some(c) => {
            assert(elapsed * c <= u64::MAX * u64::MAX) by (nonlinear_arith)
                requires
                    0 <= elapsed <= u64::MAX,
                    0 <= c <= u64::MAX,
            ;
            ((elapsed as u128) * (c as u128) + ((GIGA - 1) as u128)) / (GIGA as u128)
        },
    };
    let task_type = match task.task_type {
        TaskType::Classical(r) => {
            if ops >= r as u128 {
                TaskType::Classical(0)
            } else {
                TaskType::Classical(r - (ops as u64))
            }
        },
        TaskType::Quantum(r) => TaskType::Quantum(r),
    };
    Task { job_id: task.job_id, task_type, start_time: task.start_time, last_update: now }
}

/// The recompute step of the engine at `now`. Every task is charged for
/// the operations done since its last update, at the capacity that the
/// tasks in service share. The tasks that are then complete leave the list
/// and are returned, in order; the others stay, in order.
pub fn update_classical_tasks(
    tasks: &mut Vec<Task>,
    now: u64,
    worker_capacity: u64,
    num_workers: usize,
) -> (done: Vec<Task>)
    requires
        none_ahead(old(tasks)@, now),
    ensures
        final(tasks)@ == unfinished(
            debited_all(old(tasks)@, now, capacity_at(old(tasks)@, now, worker_capacity, num_workers)),
        ),
        done@ == finished(
            debited_all(old(tasks)@, now, capacity_at(old(tasks)@, now, worker_capacity, num_workers)),
        ),
{
    let n = count_in_service(tasks, now);
    let capacity = share_capacity(worker_capacity, num_workers, n);
    let ghost charged = debited_all(tasks@, now, capacity);
    let mut staying: Vec<Task> = Vec::new();
    let mut done: Vec<Task> = Vec::new();
    let mut i: usize = 0;
    assert(charged.take(0) =~= Seq::<Task>::empty());
    while i < tasks.len()
        invariant
            i <= tasks.len(),
            tasks@ == old(tasks)@,
            none_ahead(tasks@, now),
            charged == debited_all(tasks@, now, capacity),
            staying@ == unfinished(charged.take(i as int)),
            done@ == finished(charged.take(i as int)),
        decreases tasks.len() - i,
    {
        assert(charged.take(i + 1).drop_last() =~= charged.take(i as int));
        assert(charged.take(i + 1).last() == charged[i as int]);
        let task = debit(tasks[i], now, capacity);
        let complete = match task.task_type {
            TaskType::Classical(r) => r == 0,
            TaskType::Quantum(r) => r == 0,
        };
        if complete {
            done.push(task);
        } else {
            staying.push(task);
        }
        i += 1;
    }
    assert(charged.take(tasks.len() as int) =~= charged);
    *tasks = staying;
    done
}

/// The least residual among the tasks, if there are any.
pub open spec fn least_residual(tasks: Seq<Task>) -> Option<u64>
    decreases tasks.len(),
{
    if tasks.len() == 0 {
        None
    } else {
        let last = tasks.last().task_type.residual();
        match least_residual(tasks.drop_last()) {
            None => Some(last),
            Some(least) => if last < least {
                Some(last)
            } else {
                Some(least)
            },
        }
    }
}

/// The least residual is the residual of one of the tasks, and no task
/// has a lesser one.
pub proof fn lemma_least_residual(tasks: Seq<Task>)
    ensures
        tasks.len() == 0 <==> least_residual(tasks) is None,
        least_residual(tasks) is Some ==> {
            &&& forall|i: int|
                0 <= i < tasks.len() ==> least_residual(tasks).unwrap() <= (
                #[trigger] tasks[i]).task_type.residual()
            &&& exists|i: int|
                0 <= i < tasks.len() && (#[trigger] tasks[i]).task_type.residual()
                    == least_residual(tasks).unwrap()
        },
    decreases tasks.len(),
{
    if tasks.len() > 0 {
        let front = tasks.drop_last();
        lemma_least_residual(front);
        let least = least_residual(tasks).unwrap();
        assert forall|i: int| 0 <= i < tasks.len() implies least <= (
        #[trigger] tasks[i]).task_type.residual() by {
            if i < front.len() {
                assert(front[i] == tasks[i]);
            }
        }
        if least == tasks.last().task_type.residual() {
            assert(tasks[tasks.len() - 1].task_type.residual() == least);
        } else {
            let i = choose|i: int|
                0 <= i < front.len() && (#[trigger] front[i]).task_type.residual()
                    == least_residual(front).unwrap();
            assert(tasks[i].task_type.residual() == least);
        }
    }
}

/// The least residual among the tasks, if there are any.
pub fn smallest_residual(tasks: &Vec<Task>) -> (least: Option<u64>)
    ensures
        least == least_residual(tasks@),
        tasks@.len() == 0 <==> least is None,
        least is Some ==> {
            &&& forall|i: int|
                0 <= i < tasks@.len() ==> least.unwrap() <= (#[trigger] tasks@[i]).task_type.residual()
            &&& exists|i: int|
                0 <= i < tasks@.len() && (#[trigger] tasks@[i]).task_type.residual()
                    == least.unwrap()
        },
{
    proof {
        lemma_least_residual(tasks@);
    }
    if tasks.len() == 0 {
        return None;
    }
    let mut least: u64 = residual_of(&tasks[0]);
    let mut i: usize = 1;
    proof {
        assert(tasks@.take(1).drop_last() =~= Seq::<Task>::empty());
        assert(tasks@.take(1).last() == tasks@[0]);
        assert(least_residual(tasks@.take(1).drop_last()) is None);
    }
    while i < tasks.len()
        invariant
            1 <= i <= tasks.len(),
            Some(least) == least_residual(tasks@.take(i as int)),
        decreases tasks.len() - i,
    {
        assert(tasks@.take(i + 1).drop_last() =~= tasks@.take(i as int));
        assert(tasks@.take(i + 1).last() == tasks@[i as int]);
        let r = residual_of(&tasks[i]);
        if r < least {
            least = r;
        }
        i += 1;
    }
    assert(tasks@.take(tasks.len() as int) =~= tasks@);
    Some(least)
}

/// The residual workload of a task.
pub fn residual_of(task: &Task) -> (r: u64)
    ensures
        r == task.task_type.residual(),
{
    match task.task_type {
        TaskType::Classical(r) => r,
        TaskType::Quantum(r) => r,
    }
}

/// A classical task that is alone in service on workers of 10^9 operations
/// per second loses one operation per ns. At the update at which it is
/// admitted it is not in service yet and is charged nothing, so that the
/// next update is due as many ns later as it has operations. At an update
/// before that one it is not complete, and at that one it is.
pub proof fn lemma_lone_task_completion(task: Task, num_workers: usize, now: u64)
    requires
        task.task_type is Classical,
        task.task_type.residual() > 0,
        num_workers >= 1,
        task.last_update <= now,
    ensures
        now == task.last_update ==> {
            &&& capacity_at(seq![task], now, GIGA, num_workers) is None
            &&& debited(task, now, None) == task
            &&& unfinished(debited_all(seq![task], now, None)) == seq![task]
            &&& least_residual(seq![task]) == Some(task.task_type.residual())
        },
        now > task.last_update ==> capacity_at(seq![task], now, GIGA, num_workers) == Some(GIGA),
        now - task.last_update < task.task_type.residual() ==> debited(
            task,
            now,
            Some(GIGA),
        ).task_type == TaskType::Classical(
            (task.task_type.residual() - (now - task.last_update)) as u64,
        ),
        now - task.last_update >= task.task_type.residual() ==> {
            &&& debited(task, now, Some(GIGA)).is_complete()
            &&& finished(debited_all(seq![task], now, Some(GIGA))) == seq![
                debited(task, now, Some(GIGA)),
            ]
            &&& unfinished(debited_all(seq![task], now, Some(GIGA))) == Seq::<Task>::empty()
        },
{
    let tasks = seq![task];
    assert(tasks.drop_last() =~= Seq::<Task>::empty());
    assert(in_service(tasks.drop_last(), now) == 0);
    let w = num_workers as int;
    let g = GIGA as int;
    assert(w * g >= g) by (nonlinear_arith)
        requires
            w >= 1,
            g >= 0,
    ;
    let elapsed = (now - task.last_update) as int;
    assert((elapsed * g + g - 1) / g == elapsed) by (nonlinear_arith)
        requires
            g == 1_000_000_000,
            elapsed >= 0,
    ;
    assert(least_residual(tasks.drop_last()) is None);
    let idle = debited_all(tasks, now, None);
    assert(idle.drop_last() =~= Seq::<Task>::empty());
    assert(idle.last() == debited(task, now, None));
    let none = Seq::<Task>::empty();
    assert(unfinished(none) =~= none && finished(none) =~= none);
    if now == task.last_update {
        assert(debited(task, now, None) == task);
        assert(unfinished(idle) =~= seq![task]);
    }
    let charged = debited_all(tasks, now, Some(GIGA));
    assert(charged.drop_last() =~= Seq::<Task>::empty());
    assert(charged.last() == debited(task, now, Some(GIGA)));
    if now - task.last_update >= task.task_type.residual() {
        assert(finished(charged) =~= seq![debited(task, now, Some(GIGA))]);
        assert(unfinished(charged) =~= Seq::<Task>::empty());
    }
}

/// Where no two tasks of a list belong to the same job, the same holds of
/// its unfinished tasks, of its finished tasks, and between the two.
pub proof fn lemma_partition_ids(tasks: Seq<Task>)
    requires
        ids_distinct(tasks),
    ensures
        ids_distinct(unfinished(tasks)),
        ids_distinct(finished(tasks)),
        ids_apart(unfinished(tasks), finished(tasks)),
    decreases tasks.len(),
{
    if tasks.len() > 0 {
        let front = tasks.drop_last();
        let last = tasks.last();
        assert(ids_distinct(front)) by {
            assert forall|i: int, j: int| 0 <= i < j < front.len() implies (#[trigger] front[i]).job_id
                != (#[trigger] front[j]).job_id by {
                assert(front[i] == tasks[i] && front[j] == tasks[j]);
            }
        }
        lemma_partition_ids(front);
        lemma_partition(front);
        let u = unfinished(front);
        let f = finished(front);
        assert forall|i: int| 0 <= i < u.len() implies (#[trigger] u[i]).job_id != last.job_id by {
            assert(front.contains(u[i]));
            let k = choose|k: int| 0 <= k < front.len() && front[k] == u[i];
            assert(tasks[k].job_id != tasks[tasks.len() - 1].job_id);
        }
        assert forall|i: int| 0 <= i < f.len() implies (#[trigger] f[i]).job_id != last.job_id by {
            assert(front.contains(f[i]));
            let k = choose|k: int| 0 <= k < front.len() && front[k] == f[i];
            assert(tasks[k].job_id != tasks[tasks.len() - 1].job_id);
        }
    }
}

} // verus!
