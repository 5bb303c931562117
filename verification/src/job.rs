//! Jobs: linear state machines that emit one task per phase.

use vstd::prelude::*;
use std::collections::HashMap;
use crate::random::{choose_one, seeded_rng};
use crate::task::{Task, TaskType};
use crate::text::{decimal, decimal_string};

verus! {

broadcast use vstd::std_specs::hash::group_hash_axioms;

/// The kind of workload a job runs.
#[derive(Debug, Clone, Copy, PartialEq, Eq, Structural)]
pub enum JobType {
    /// Variational Quantum Eigensolver with the given number of qubits.
    Vqe(u16),
}

/// The phase a job is in: the phase whose task is emitted next.
#[derive(Debug, Clone, Copy, PartialEq, Eq, Structural)]
pub enum JobStatus {
    Preparation,
    ClassicalIteration(u64),
    QuantumIteration(u64),
    Postprocessing,
    Completed,
}

/// A job with its immutable parameters and its current phase.
#[derive(Debug, Clone)]
pub struct Job {
    /// Job type.
    pub job_type: JobType,
    /// Job status.
    pub job_status: JobStatus,
    /// Numeric job identifier.
    pub job_id: u64,
    /// Number of operations for the preparation phase.
    pub num_operations_pre: u64,
    /// Number of operations for each classical iteration.
    pub num_operations_iter: u64,
    /// Number of operations for the post-processing phase.
    pub num_operations_post: u64,
    /// Time to execute a single iteration on a quantum computer, in ns.
    pub dur_qc_iteration: u64,
    /// Number of iterations.
    pub num_iterations: u64,
    /// Arrival time, in ns.
    pub time_arrival: u64,
    /// Number of qubits.
    pub num_qubits: u16,
    /// Priority (a higher value means a higher priority).
    pub priority: u16,
    /// Label, made of the number of qubits and the priority.
    pub label: String,
}

impl Job {
    /// A job is consistent when it has at least one iteration and the
    /// iteration it is in lies between 1 and the number of iterations.
    pub open spec fn wf(self) -> bool {
        &&& self.num_iterations >= 1
        &&& match self.job_status {
            JobStatus::ClassicalIteration(k) => 1 <= k <= self.num_iterations,
            JobStatus::QuantumIteration(k) => 1 <= k <= self.num_iterations,
            _ => true,
        }
    }

    /// The workload of the task of the current phase, if the job is not completed.
    pub open spec fn phase_task(self) -> Option<TaskType> {
        match self.job_status {
            JobStatus::Preparation => Some(TaskType::Classical(self.num_operations_pre)),
            JobStatus::ClassicalIteration(_) => Some(TaskType::Classical(self.num_operations_iter)),
            JobStatus::QuantumIteration(_) => Some(TaskType::Quantum(self.dur_qc_iteration)),
            JobStatus::Postprocessing => Some(TaskType::Classical(self.num_operations_post)),
            JobStatus::Completed => None,
        }
    }

    /// The phase that follows the current one.
    pub open spec fn next_status(self) -> JobStatus {
        match self.job_status {
            JobStatus::Preparation => JobStatus::ClassicalIteration(1),
            JobStatus::ClassicalIteration(k) => JobStatus::QuantumIteration(k),
            JobStatus::QuantumIteration(k) => if k == self.num_iterations {
                JobStatus::Postprocessing
            } else {
                JobStatus::ClassicalIteration((k + 1) as u64)
            },
            JobStatus::Postprocessing => JobStatus::Completed,
            JobStatus::Completed => JobStatus::Completed,
        }
    }

    /// The job after it has emitted the task of its current phase.
    pub open spec fn advanced(self) -> Job {
        Job { job_status: self.next_status(), ..self }
    }

    /// The largest workload among the tasks the job can emit.
    pub open spec fn max_work(self) -> int {
        let a = if self.num_operations_pre >= self.num_operations_iter {
            self.num_operations_pre
        } else {
            self.num_operations_iter
        };
        let b = if self.num_operations_post >= self.dur_qc_iteration {
            self.num_operations_post
        } else {
            self.dur_qc_iteration
        };
        if a >= b { a as int } else { b as int }
    }

    /// The number of tasks the job has still to emit.
    pub open spec fn remaining_tasks(self) -> nat {
        match self.job_status {
            JobStatus::Preparation => (2 * self.num_iterations + 2) as nat,
            JobStatus::ClassicalIteration(k) => (2 * (self.num_iterations - k) + 3) as nat,
            JobStatus::QuantumIteration(k) => (2 * (self.num_iterations - k) + 2) as nat,
            JobStatus::Postprocessing => 1,
            JobStatus::Completed => 0,
        }
    }

    /// The workloads of all the tasks the job has still to emit, in order.
    pub open spec fn task_sequence(self) -> Seq<TaskType>
        decreases self.remaining_tasks(),
    {
        if self.wf() && self.phase_task() is Some {
            seq![self.phase_task().unwrap()] + self.advanced().task_sequence()
        } else {
            Seq::empty()
        }
    }

    /// The workloads a job emits over its whole life: the preparation, then
    /// for each iteration a classical and a quantum task, then the
    /// post-processing.
    pub open spec fn life_cycle(self) -> Seq<TaskType> {
        Seq::new(
            (2 * self.num_iterations + 2) as nat,
            |i: int|
                if i == 0 {
                    TaskType::Classical(self.num_operations_pre)
                } else if i == 2 * self.num_iterations + 1 {
                    TaskType::Classical(self.num_operations_post)
                } else if i % 2 == 1 {
                    TaskType::Classical(self.num_operations_iter)
                } else {
                    TaskType::Quantum(self.dur_qc_iteration)
                },
        )
    }

    /// The label of a job: the number of qubits and the priority, in
    /// decimal, with a comma between them.
    pub open spec fn label_of(num_qubits: u16, priority: u16) -> Seq<char> {
        decimal(num_qubits as nat) + seq![','] + decimal(priority as nat)
    }

    /// The job as it arrives: in its preparation phase.
    pub open spec fn arriving(
        job_type: JobType,
        job_id: u64,
        num_operations_pre: u64,
        num_operations_iter: u64,
        num_operations_post: u64,
        dur_qc_iteration: u64,
        num_iterations: u64,
        time_arrival: u64,
        priority: u16,
        job: Job,
    ) -> bool {
        &&& job.job_type == job_type
        &&& job.job_status == JobStatus::Preparation
        &&& job.job_id == job_id
        &&& job.num_operations_pre == num_operations_pre
        &&& job.num_operations_iter == num_operations_iter
        &&& job.num_operations_post == num_operations_post
        &&& job.dur_qc_iteration == dur_qc_iteration
        &&& job.num_iterations == num_iterations
        &&& job.time_arrival == time_arrival
        &&& job.priority == priority
        &&& match job_type {
            JobType::Vqe(num_qubits) => job.num_qubits == num_qubits && job.label@ == Job::label_of(
                num_qubits,
                priority,
            ),
        }
    }

    /// A job that arrives with the given parameters.
    pub fn new(
        job_type: JobType,
        job_id: u64,
        num_operations_pre: u64,
        num_operations_iter: u64,
        num_operations_post: u64,
        dur_qc_iteration: u64,
        num_iterations: u64,
        time_arrival: u64,
        priority: u16,
    ) -> (job: Job)
        ensures
            Job::arriving(
                job_type,
                job_id,
                num_operations_pre,
                num_operations_iter,
                num_operations_post,
                dur_qc_iteration,
                num_iterations,
                time_arrival,
                priority,
                job,
            ),
            num_iterations >= 1 ==> job.wf(),
    {
        let num_qubits = match job_type {
            JobType::Vqe(num_qubits) => num_qubits,
        };
        let mut label = decimal_string(num_qubits as u64);
        label.append(",");
        label.append(decimal_string(priority as u64).as_str());
        proof {
            reveal_strlit(",");
            assert(","@ =~= seq![',']);
        }
        Job {
            job_type,
            job_status: JobStatus::Preparation,
            job_id,
            num_operations_pre,
            num_operations_iter,
            num_operations_post,
            dur_qc_iteration,
            num_iterations,
            time_arrival,
            num_qubits,
            priority,
            label,
        }
    }

    /// Returns the task of the current phase and moves to the next phase,
    /// or returns `None` if the job is completed.
    pub fn next_task(&mut self, cur_time: u64) -> (task: Option<Task>)
        requires
            old(self).wf(),
        ensures
            final(self).wf(),
            *final(self) == old(self).advanced(),
            task == match old(self).phase_task() {
                Some(task_type) => Some(
                    Task {
                        job_id: old(self).job_id,
                        task_type,
                        start_time: cur_time,
                        last_update: cur_time,
                    },
                ),
                None => None,
            },
            final(self).remaining_tasks() == if old(self).job_status == JobStatus::Completed {
                0
            } else {
                old(self).remaining_tasks() - 1
            },
    {
        let task_type = match self.job_status {
            JobStatus::Preparation => {
                self.job_status = JobStatus::ClassicalIteration(1);
                TaskType::Classical(self.num_operations_pre)
            },
            JobStatus::ClassicalIteration(num_iteration) => {
                self.job_status = JobStatus::QuantumIteration(num_iteration);
                TaskType::Classical(self.num_operations_iter)
            },
            JobStatus::QuantumIteration(num_iteration) => {
                if num_iteration == self.num_iterations {
                    self.job_status = JobStatus::Postprocessing;
                } else {
                    self.job_status = JobStatus::ClassicalIteration(num_iteration + 1);
                }
                TaskType::Quantum(self.dur_qc_iteration)
            },
            JobStatus::Postprocessing => {
                self.job_status = JobStatus::Completed;
                TaskType::Classical(self.num_operations_post)
            },
            JobStatus::Completed => {
                return None;
            },
        };
        Some(Task { job_id: self.job_id, task_type, start_time: cur_time, last_update: cur_time })
    }
}

/// From any phase, the tasks still to come are the tail of the life cycle.
proof fn lemma_task_sequence_is_tail(job: Job)
    requires
        job.wf(),
    ensures
        job.task_sequence() == job.life_cycle().skip(
            2 * job.num_iterations + 2 - job.remaining_tasks(),
        ),
    decreases job.remaining_tasks(),
{
    let all = job.life_cycle();
    let done = 2 * job.num_iterations + 2 - job.remaining_tasks();
    if job.phase_task() is Some {
        let next = job.advanced();
        assert(next.life_cycle() == all);
        lemma_task_sequence_is_tail(next);
        assert(all.skip(done) =~= seq![job.phase_task().unwrap()] + all.skip(done + 1));
    } else {
        assert(all.skip(done) =~= Seq::<TaskType>::empty());
    }
}

/// A job with `n` iterations emits exactly `2 n + 2` tasks over its life:
/// the preparation, `n` times a classical then a quantum iteration, and the
/// post-processing.
pub proof fn lemma_job_emits_whole_life_cycle(job: Job)
    requires
        job.num_iterations >= 1,
        job.job_status == JobStatus::Preparation,
    ensures
        job.task_sequence() == job.life_cycle(),
        job.task_sequence().len() == 2 * job.num_iterations + 2,
        job.task_sequence()[0] == TaskType::Classical(job.num_operations_pre),
        job.task_sequence()[2 * job.num_iterations + 1] == TaskType::Classical(
            job.num_operations_post,
        ),
        forall|k: int|
            1 <= k <= job.num_iterations ==> {
                &&& #[trigger] job.task_sequence()[2 * k - 1] == TaskType::Classical(
                    job.num_operations_iter,
                )
                &&& job.task_sequence()[2 * k] == TaskType::Quantum(job.dur_qc_iteration)
            },
{
    lemma_task_sequence_is_tail(job);
    assert(job.life_cycle().skip(0) =~= job.life_cycle());
}

/// The samples of a trace for one number of qubits, none if there is no such key.
pub open spec fn samples_for(trace: Map<u16, Seq<u64>>, num_qubits: u16) -> Seq<u64> {
    if trace.contains_key(num_qubits) {
        trace[num_qubits]
    } else {
        Seq::empty()
    }
}

/// The five traces that the parameters of a job are drawn from: for each
/// number of qubits, the values observed.
pub struct Traces {
    /// The numbers of operations of the preparation phase.
    pub pre: Map<u16, Seq<u64>>,
    /// The numbers of operations of a classical iteration.
    pub iter: Map<u16, Seq<u64>>,
    /// The numbers of operations of the post-processing phase.
    pub post: Map<u16, Seq<u64>>,
    /// The durations of a quantum iteration, in ns.
    pub dur_qc: Map<u16, Seq<u64>>,
    /// The numbers of iterations.
    pub num_iterations: Map<u16, Seq<u64>>,
}

impl Traces {
    /// All five traces have values for this number of qubits.
    pub open spec fn knows(self, num_qubits: u16) -> bool {
        &&& self.pre.contains_key(num_qubits)
        &&& self.iter.contains_key(num_qubits)
        &&& self.post.contains_key(num_qubits)
        &&& self.dur_qc.contains_key(num_qubits)
        &&& self.num_iterations.contains_key(num_qubits)
    }

    /// The job could have been drawn from the traces: each of its
    /// parameters is a value of the trace it is drawn from.
    pub open spec fn drawn(self, num_qubits: u16, job: Job) -> bool {
        &&& self.knows(num_qubits)
        &&& self.pre[num_qubits].contains(job.num_operations_pre)
        &&& self.iter[num_qubits].contains(job.num_operations_iter)
        &&& self.post[num_qubits].contains(job.num_operations_post)
        &&& self.dur_qc[num_qubits].contains(job.dur_qc_iteration)
        &&& self.num_iterations[num_qubits].contains(job.num_iterations)
    }
}

/// The largest of four numbers.
pub open spec fn largest_of(a: u64, b: u64, c: u64, d: u64) -> u64 {
    let ab = if a >= b {
        a
    } else {
        b
    };
    let cd = if c >= d {
        c
    } else {
        d
    };
    if ab >= cd {
        ab
    } else {
        cd
    }
}

/// An empirical trace: for each number of qubits, the values observed, in
/// the order in which they were added.
pub struct TraceTable {
    values: HashMap<u16, Vec<u64>>,
    smallest: u64,
    largest: u64,
}

impl View for TraceTable {
    type V = Map<u16, Seq<u64>>;

    closed spec fn view(&self) -> Map<u16, Seq<u64>> {
        self.values@.map_values(|v: Vec<u64>| v@)
    }
}

impl TraceTable {
    /// A lower bound of the values of the trace: the least value, or the
    /// largest number there is if the trace is empty.
    pub closed spec fn smallest(&self) -> u64 {
        self.smallest
    }

    /// An upper bound of the values of the trace: the greatest value, or 0
    /// if the trace is empty.
    pub closed spec fn largest(&self) -> u64 {
        self.largest
    }

    /// Every key has at least one value, and every value lies between the
    /// two bounds.
    pub open spec fn wf(&self) -> bool {
        forall|q: u16| #[trigger]
            self@.contains_key(q) ==> {
                &&& self@[q].len() > 0
                &&& forall|i: int|
                    0 <= i < self@[q].len() ==> self.smallest() <= #[trigger] self@[q][i]
                        <= self.largest()
            }
    }

    /// An empty trace.
    pub fn new() -> (trace: TraceTable)
        ensures
            trace.wf(),
            trace@ == Map::<u16, Seq<u64>>::empty(),
            trace.smallest() == u64::MAX,
            trace.largest() == 0,
    {
        let trace = TraceTable { values: HashMap::new(), smallest: u64::MAX, largest: 0 };
        assert(trace@ =~= Map::<u16, Seq<u64>>::empty());
        trace
    }

    /// Adds a value observed for a number of qubits.
    pub fn add(&mut self, num_qubits: u16, value: u64)
        requires
            old(self).wf(),
        ensures
            final(self).wf(),
            final(self)@ == old(self)@.insert(
                num_qubits,
                samples_for(old(self)@, num_qubits).push(value),
            ),
            final(self).smallest() == if value < old(self).smallest() {
                value
            } else {
                old(self).smallest()
            },
            final(self).largest() == if value > old(self).largest() {
                value
            } else {
                old(self).largest()
            },
    {
        let mut samples = match self.values.remove(&num_qubits) {
            Some(samples) => samples,
            None => Vec::new(),
        };
        assert(samples@ == samples_for(old(self)@, num_qubits));
        samples.push(value);
        self.values.insert(num_qubits, samples);
        if value < self.smallest {
            self.smallest = value;
        }
        if value > self.largest {
            self.largest = value;
        }
        proof {
            let target = old(self)@.insert(
                num_qubits,
                samples_for(old(self)@, num_qubits).push(value),
            );
            assert(self@ =~= target);
            assert forall|q: u16| #[trigger] self@.contains_key(q) implies {
                &&& self@[q].len() > 0
                &&& forall|i: int|
                    0 <= i < self@[q].len() ==> self.smallest() <= #[trigger] self@[q][i]
                        <= self.largest()
            } by {
                if q != num_qubits {
                    assert(old(self)@.contains_key(q));
                } else if old(self)@.contains_key(q) {
                    assert(old(self)@[q].len() > 0);
                }
            }
        }
    }

    /// The values observed for a number of qubits, if there are any.
    pub fn get(&self, num_qubits: u16) -> (samples: Option<&Vec<u64>>)
        ensures
            match samples {
                Some(values) => self@.contains_key(num_qubits) && values@ == self@[num_qubits],
                None => !self@.contains_key(num_qubits),
            },
    {
        self.values.get(&num_qubits)
    }

    /// The bounds of the values of the trace, the lower one first.
    pub fn bounds(&self) -> (bounds: (u64, u64))
        ensures
            bounds == (self.smallest(), self.largest()),
    {
        (self.smallest, self.largest)
    }
}

/// Why a job could not be made.
#[derive(Debug, Clone, Copy, PartialEq, Eq, Structural)]
pub enum JobError {
    /// One of the traces has no values for this number of qubits.
    UnknownQubitCount(u16),
}

/// Makes jobs whose parameters are drawn from five empirical traces.
pub struct JobFactory {
    rng: rand::rngs::StdRng,
    next_job_id: u64,
    pre_values: TraceTable,
    iter_values: TraceTable,
    post_values: TraceTable,
    dur_qc_values: TraceTable,
    num_iterations_values: TraceTable,
}

impl JobFactory {
    /// The identifier that the next job gets.
    pub closed spec fn next_job_id(&self) -> u64 {
        self.next_job_id
    }

    /// The traces that the factory draws from.
    pub closed spec fn traces(&self) -> Traces {
        Traces {
            pre: self.pre_values@,
            iter: self.iter_values@,
            post: self.post_values@,
            dur_qc: self.dur_qc_values@,
            num_iterations: self.num_iterations_values@,
        }
    }

    /// An upper bound of every workload that a job of this factory can
    /// have: of the operations of its three classical phases and of the
    /// duration of a quantum iteration.
    pub closed spec fn work_bound(&self) -> u64 {
        largest_of(
            self.pre_values.largest(),
            self.iter_values.largest(),
            self.post_values.largest(),
            self.dur_qc_values.largest(),
        )
    }

    /// The traces are consistent, and every number of iterations is at least 1.
    pub closed spec fn wf(&self) -> bool {
        &&& self.pre_values.wf()
        &&& self.iter_values.wf()
        &&& self.post_values.wf()
        &&& self.dur_qc_values.wf()
        &&& self.num_iterations_values.wf()
        &&& self.num_iterations_values.smallest() >= 1
    }

    /// All five traces have values for this number of qubits.
    pub open spec fn knows(&self, num_qubits: u16) -> bool {
        self.traces().knows(num_qubits)
    }

    /// The job could have been made by this factory: each of its
    /// parameters is a value of the trace it is drawn from.
    pub open spec fn drawn(&self, num_qubits: u16, job: Job) -> bool {
        self.traces().drawn(num_qubits, job)
    }

    /// A factory that draws from the given traces with a generator seeded
    /// by `seed`. Its first job gets the identifier 0. No number of
    /// iterations may be 0.
    pub fn new(
        seed: u64,
        pre_values: TraceTable,
        iter_values: TraceTable,
        post_values: TraceTable,
        dur_qc_values: TraceTable,
        num_iterations_values: TraceTable,
    ) -> (factory: JobFactory)
        requires
            pre_values.wf(),
            iter_values.wf(),
            post_values.wf(),
            dur_qc_values.wf(),
            num_iterations_values.wf(),
            num_iterations_values.smallest() >= 1,
        ensures
            factory.wf(),
            factory.next_job_id() == 0,
            factory.work_bound() == largest_of(
                pre_values.largest(),
                iter_values.largest(),
                post_values.largest(),
                dur_qc_values.largest(),
            ),
            factory.traces() == (Traces {
                pre: pre_values@,
                iter: iter_values@,
                post: post_values@,
                dur_qc: dur_qc_values@,
                num_iterations: num_iterations_values@,
            }),
    {
        JobFactory {
            rng: seeded_rng(seed),
            next_job_id: 0,
            pre_values,
            iter_values,
            post_values,
            dur_qc_values,
            num_iterations_values,
        }
    }

    /// The identifier that the next job gets.
    pub fn jobs_made(&self) -> (n: u64)
        ensures
            n == self.next_job_id(),
    {
        self.next_job_id
    }

    /// An upper bound of every workload that a job of this factory can have.
    pub fn largest_work(&self) -> (bound: u64)
        ensures
            bound == self.work_bound(),
    {
        let a = if self.pre_values.bounds().1 >= self.iter_values.bounds().1 {
            self.pre_values.bounds().1
        } else {
            self.iter_values.bounds().1
        };
        let b = if self.post_values.bounds().1 >= self.dur_qc_values.bounds().1 {
            self.post_values.bounds().1
        } else {
            self.dur_qc_values.bounds().1
        };
        if a >= b {
            a
        } else {
            b
        }
    }

    /// Makes a job that arrives at `time_arrival`. Each of its five
    /// parameters is drawn from the values of its trace for the job's number
    /// of qubits, in the order: preparation, classical iteration,
    /// post-processing, quantum iteration, number of iterations. The job
    /// fails with `UnknownQubitCount` if a trace has no such values. An
    /// identifier is used up either way.
    pub fn make(&mut self, job_type: JobType, priority: u16, time_arrival: u64) -> (made: Result<
        Job,
        JobError,
    >)
        requires
            old(self).wf(),
            old(self).next_job_id() < u64::MAX,
        ensures
            final(self).wf(),
            final(self).next_job_id() == old(self).next_job_id() + 1,
            final(self).traces() == old(self).traces(),
            final(self).work_bound() == old(self).work_bound(),
            match job_type {
                JobType::Vqe(num_qubits) => match made {
                    Ok(job) => {
                        &&& old(self).knows(num_qubits)
                        &&& old(self).drawn(num_qubits, job)
                        &&& Job::arriving(
                            job_type,
                            old(self).next_job_id(),
                            job.num_operations_pre,
                            job.num_operations_iter,
                            job.num_operations_post,
                            job.dur_qc_iteration,
                            job.num_iterations,
                            time_arrival,
                            priority,
                            job,
                        )
                        &&& job.wf()
                        &&& job.max_work() <= old(self).work_bound()
                    },
                    Err(e) => !old(self).knows(num_qubits) && e == JobError::UnknownQubitCount(
                        num_qubits,
                    ),
                },
            },
    {
        let id = self.next_job_id;
        self.next_job_id = self.next_job_id + 1;
        match job_type {
            JobType::Vqe(num_qubits) => {
                let num_operations_pre = match self.pre_values.get(num_qubits) {
                    Some(values) => choose_one(values, &mut self.rng).unwrap(),
                    None => {
                        return Err(JobError::UnknownQubitCount(num_qubits));
                    },
                };
                let num_operations_iter = match self.iter_values.get(num_qubits) {
                    Some(values) => choose_one(values, &mut self.rng).unwrap(),
                    None => {
                        return Err(JobError::UnknownQubitCount(num_qubits));
                    },
                };
                let num_operations_post = match self.post_values.get(num_qubits) {
                    Some(values) => choose_one(values, &mut self.rng).unwrap(),
                    None => {
                        return Err(JobError::UnknownQubitCount(num_qubits));
                    },
                };
                let dur_qc_iteration = match self.dur_qc_values.get(num_qubits) {
                    Some(values) => choose_one(values, &mut self.rng).unwrap(),
                    None => {
                        return Err(JobError::UnknownQubitCount(num_qubits));
                    },
                };
                let num_iterations = match self.num_iterations_values.get(num_qubits) {
                    Some(values) => choose_one(values, &mut self.rng).unwrap(),
                    None => {
                        return Err(JobError::UnknownQubitCount(num_qubits));
                    },
                };
                Ok(
                    Job::new(
                        job_type,
                        id,
                        num_operations_pre,
                        num_operations_iter,
                        num_operations_post,
                        dur_qc_iteration,
                        num_iterations,
                        time_arrival,
                        priority,
                    ),
                )
            },
        }
    }
}

} // verus!
