//! The orchestrator: the event loop, the admission of jobs, and the
//! routing of their tasks to the classical engine and the quantum dispatcher.

use vstd::prelude::*;
use std::collections::HashMap;
use crate::classical::{
    all_classical, capacity_at, debited_all, finished, least_residual, lemma_partition,
    lemma_partition_ids, residual_of, smallest_residual, unfinished, update_classical_tasks,
};
use crate::config::{
    initial_events, parse_job_type, parse_priorities, parsed_job_type, parsed_priorities,
    progress_time, stream_seed, stream_seed_of, Config,
};
use crate::error::{Interrupted, SimulationError};
use crate::event::{
    lemma_pushed_contains, lemma_pushed_none_before, lemma_pushed_only_end,
    lemma_queued_ends_pushed, lemma_queued_ends_remove, none_before, only_end, pushed, pushed_all,
    queued_ends, Event, EventQueue,
};
use crate::job::{Job, JobFactory, JobType};
use crate::kernel::{lemma_sample_durations_frame, swap_removed, Kernel, Setup};
use crate::output::{Output, OutputSeries, OutputSingle};
use crate::quantum::{
    check_weights, completes_at, draw_index, ends_at, find_completed, first_completed,
    lemma_some_task_ends, lemma_tasks_ending_swap_remove, pick, picked, tasks_ending, weights_fit,
    QuantumSchedulePolicy,
};
use crate::random::{choose_one, seeded_rng};
use crate::task::{all_quantum, ids_apart, ids_distinct, Task, TaskType};

verus! {

broadcast use vstd::std_specs::hash::group_hash_axioms;

/// Every task of the list is consistent, was not updated after `now`,
/// belongs to an active job, and has no more work than `bound`.
pub open spec fn tasks_sound(tasks: Seq<Task>, jobs: Map<u64, Job>, now: u64, bound: u64) -> bool {
    forall|i: int|
        0 <= i < tasks.len() ==> {
            &&& (#[trigger] tasks[i]).wf()
            &&& tasks[i].last_update <= now
            &&& jobs.contains_key(tasks[i].job_id)
            &&& tasks[i].task_type.residual() <= bound
        }
}

/// Every active job is filed under its own identifier, is consistent, did
/// not arrive after `now`, emits no task with more work than `bound`, and
/// was made before the job that will get the identifier `next_id`.
pub open spec fn jobs_sound(jobs: Map<u64, Job>, now: u64, bound: u64, next_id: u64) -> bool {
    forall|id: u64| #[trigger]
        jobs.contains_key(id) ==> {
            &&& jobs[id].job_id == id
            &&& jobs[id].wf()
            &&& jobs[id].time_arrival <= now
            &&& jobs[id].max_work() <= bound
            &&& id < next_id
        }
}

/// The job of every task of the list has a classical phase next: a job
/// whose quantum iteration is under way goes on with a classical task.
pub open spec fn classical_next(tasks: Seq<Task>, jobs: Map<u64, Job>) -> bool {
    forall|i: int|
        0 <= i < tasks.len() ==> (#[trigger] jobs[tasks[i].job_id]).phase_task() is Some
            && jobs[tasks[i].job_id].phase_task().unwrap() is Classical
}

/// No time average was updated after `now`, and the warm-up did not end
/// after `now`.
pub open spec fn metrics_before(single: OutputSingle, now: u64) -> bool {
    &&& single.warmup() <= now
    &&& forall|n: Seq<char>| #[trigger]
        single.time_avgs().contains_key(n) ==> single.time_avgs()[n].last_update <= now
}

/// The weights of the pending tasks: the priority of the job of each.
pub open spec fn pending_weights(pending: Seq<Task>, jobs: Map<u64, Job>) -> Seq<u32> {
    Seq::new(pending.len(), |i: int| jobs[pending[i].job_id].priority as u32)
}

/// Why a configuration is rejected, if it is. The checks are made in this order.
pub open spec fn rejection(config: Config) -> Option<SimulationError> {
    if config.duration == 0 {
        Some(SimulationError::VanishingDuration)
    } else if config.job_interarrival == 0 {
        Some(SimulationError::VanishingInterarrival)
    } else if parsed_job_type(config.job_type@) is None {
        Some(SimulationError::InvalidJobType)
    } else if parsed_priorities(config.priorities@) is None {
        Some(SimulationError::InvalidPriorities)
    } else if QuantumSchedulePolicy::named(config.quantum_schedule_policy@) is None {
        Some(SimulationError::InvalidQuantumPolicy)
    } else {
        None
    }
}

/// Tasks of active jobs are apart from tasks of jobs that are not active.
proof fn lemma_apart_from_new(tasks: Seq<Task>, jobs: Map<u64, Job>, others: Seq<Task>)
    requires
        forall|i: int| 0 <= i < tasks.len() ==> jobs.contains_key((#[trigger] tasks[i]).job_id),
        forall|j: int| 0 <= j < others.len() ==> !jobs.contains_key((#[trigger] others[j]).job_id),
    ensures
        ids_apart(tasks, others),
{
}

/// Tasks that are apart from some tasks are apart from tasks of the same jobs.
proof fn lemma_apart_from_same_jobs(tasks: Seq<Task>, others: Seq<Task>, same: Seq<Task>)
    requires
        ids_apart(tasks, others),
        same.len() == others.len(),
        forall|j: int| 0 <= j < same.len() ==> (#[trigger] same[j]).job_id == others[j].job_id,
    ensures
        ids_apart(tasks, same),
{
    assert forall|i: int, j: int| 0 <= i < tasks.len() && 0 <= j < same.len() implies (
    #[trigger] tasks[i]).job_id != (#[trigger] same[j]).job_id by {
        assert(tasks[i].job_id != others[j].job_id);
    }
}

/// Records the level that a step function takes at `now`.
fn record_level(single: &mut OutputSingle, now: u64, name: &str, level: usize)
    requires
        old(single).wf(),
        metrics_before(*old(single), now),
    ensures
        final(single).wf(),
        metrics_before(*final(single), now),
        final(single).enabled() == old(single).enabled(),
        final(single).warmup() == old(single).warmup(),
        final(single).one_times() == old(single).one_times(),
        final(single).time_avgs() == old(single).time_avgs().insert(
            name@,
            old(single).time_avg_or_fresh(name@).recorded(old(single).enabled(), now, level as u64),
        ),
{
    assert(old(single).time_avgs().contains_key(name@) ==> old(single).time_avgs()[name@].last_update
        <= now);
    single.time_avg(name, now, level as u64);
}

/// Pushes an event that is not before `now`.
fn schedule(events: &mut EventQueue, event: Event, Ghost(now): Ghost<u64>, Ghost(end): Ghost<Event>)
    requires
        old(events).wf(),
        none_before(old(events)@, now),
        event.time() >= now,
    ensures
        final(events).wf(),
        none_before(final(events)@, now),
        final(events)@ == pushed(old(events)@, event),
        old(events)@.contains(end) ==> final(events)@.contains(end),
        only_end(old(events)@, end) && (event is ExperimentEnd ==> event == end) ==> only_end(
            final(events)@,
            end,
        ),
        forall|t: u64|
            #[trigger] queued_ends(final(events)@, t) == queued_ends(old(events)@, t) + if event
                == Event::QuantumIterationEnd(t) {
                1nat
            } else {
                0nat
            },
{
    proof {
        lemma_pushed_none_before(events@, event, now);
        lemma_pushed_contains(events@, event, end);
        if only_end(events@, end) && (event is ExperimentEnd ==> event == end) {
            lemma_pushed_only_end(events@, event, end);
        }
        assert forall|t: u64|
            #[trigger] queued_ends(pushed(events@, event), t) == queued_ends(events@, t) + if event
                == Event::QuantumIterationEnd(t) {
                1nat
            } else {
                0nat
            } by {
            lemma_queued_ends_pushed(events@, event, t);
        }
    }
    events.push(event);
}

/// A simulation: the state of the kernel between two events.
pub struct Simulation {
    job_factory: JobFactory,
    vqe_num_qubits_rng: rand::rngs::StdRng,
    active_jobs: HashMap<u64, Job>,
    active_classical_tasks: Vec<Task>,
    pending_quantum_tasks: Vec<Task>,
    active_quantum_tasks: Vec<Task>,
    quantum_schedule_policy: QuantumSchedulePolicy,
    quantum_schedule_rng: rand::rngs::StdRng,
    num_qubits: Vec<u16>,
    priorities: Vec<u16>,
    config: Config,
    work_bound: u64,
    events: EventQueue,
    single: OutputSingle,
    series: OutputSeries,
    now: u64,
    num_events: u64,
    num_job_accepted: u64,
    num_job_dropped: u64,
    num_job_failed: u64,
    failed_draw: Option<(u16, u16)>,
    finished: bool,
}

impl Simulation {
    /// The simulated time: the time of the event handled last, 0 at the start.
    pub open spec fn now(&self) -> u64 {
        self.model().now
    }

    /// Whether the end of the experiment was handled.
    pub open spec fn finished(&self) -> bool {
        self.model().finished
    }

    /// The queued events, in the order in which they will be handled.
    pub open spec fn events(&self) -> Seq<Event> {
        self.model().events
    }

    /// The active jobs, by identifier.
    pub open spec fn jobs(&self) -> Map<u64, Job> {
        self.model().jobs
    }

    /// The classical tasks in the engine.
    pub open spec fn active_classical(&self) -> Seq<Task> {
        self.model().classical
    }

    /// The quantum tasks on a device.
    pub open spec fn active_quantum(&self) -> Seq<Task> {
        self.model().active
    }

    /// The quantum tasks that wait for a device.
    pub open spec fn pending_quantum(&self) -> Seq<Task> {
        self.model().pending
    }

    /// The configuration.
    pub open spec fn config(&self) -> Config {
        self.setup().config
    }

    /// The policy to schedule quantum tasks.
    pub open spec fn policy(&self) -> QuantumSchedulePolicy {
        self.setup().policy
    }

    /// The number of events handled.
    pub open spec fn num_events(&self) -> u64 {
        self.model().num_events
    }

    /// The number of arrivals that were admitted.
    pub open spec fn num_job_accepted(&self) -> u64 {
        self.model().num_job_accepted
    }

    /// The number of arrivals that were turned away.
    pub open spec fn num_job_dropped(&self) -> u64 {
        self.model().num_job_dropped
    }

    /// The number of arrivals that were admitted and for which no job
    /// could be made.
    pub open spec fn num_job_failed(&self) -> u64 {
        self.model().num_job_failed
    }

    /// The number of qubits and the priority drawn for the last arrival
    /// for which no job could be made, if there was one.
    pub closed spec fn failed_draw(&self) -> Option<(u16, u16)> {
        self.failed_draw
    }

    /// The draw is one for which no job can be made: a number of qubits
    /// and a priority among those set up, the traces having no values for
    /// that number of qubits.
    pub open spec fn fails(&self, draw: Option<(u16, u16)>) -> bool {
        match draw {
            Some((num_qubits, priority)) => {
                &&& self.setup().qubits.contains(num_qubits)
                &&& self.setup().priorities.contains(priority)
                &&& !self.setup().traces.knows(num_qubits)
            },
            None => false,
        }
    }

    /// What the run is set up with.
    pub closed spec fn setup(&self) -> Setup {
        Setup {
            config: self.config,
            policy: self.quantum_schedule_policy,
            qubits: self.num_qubits@,
            priorities: self.priorities@,
            traces: self.job_factory.traces(),
        }
    }

    /// The state of the kernel.
    pub closed spec fn model(&self) -> Kernel {
        Kernel {
            now: self.now,
            finished: self.finished,
            events: self.events@,
            jobs: self.active_jobs@,
            classical: self.active_classical_tasks@,
            active: self.active_quantum_tasks@,
            pending: self.pending_quantum_tasks@,
            next_job_id: self.job_factory.next_job_id(),
            num_events: self.num_events,
            num_job_accepted: self.num_job_accepted,
            num_job_dropped: self.num_job_dropped,
            num_job_failed: self.num_job_failed,
            recording: self.single.enabled(),
            warmup: self.single.warmup(),
            time_avgs: self.single.time_avgs(),
            sampling: self.series.enabled(),
            series: self.series@,
        }
    }

    /// An arrival is admitted if the classical engine and the list of
    /// pending quantum tasks are both below their limits.
    pub open spec fn admits(&self) -> bool {
        self.model().admits(self.config())
    }

    /// What holds of the run as a whole.
    spec fn base_inv(&self) -> bool {
        &&& self.events.wf()
        &&& self.single.wf()
        &&& self.series.wf()
        &&& self.job_factory.wf()
        &&& none_before(self.events@, self.now)
        &&& self.now <= self.config.duration
        &&& !self.finished ==> self.events@.contains(Event::ExperimentEnd(self.config.duration))
        &&& self.finished ==> self.now == self.config.duration
        &&& only_end(self.events@, Event::ExperimentEnd(self.config.duration))
        &&& self.config.duration + self.work_bound <= u64::MAX
        &&& self.job_factory.work_bound() == self.work_bound
        &&& self.job_factory.next_job_id() <= self.num_job_accepted
        &&& self.num_job_accepted + self.num_job_dropped <= self.num_events
        &&& self.num_job_failed <= self.num_job_accepted
        &&& metrics_before(self.single, self.now)
        &&& self.single.one_times() == Map::<Seq<char>, u64>::empty()
        &&& self.num_qubits@.len() > 0
        &&& self.priorities@.len() > 0
    }

    /// What holds of the jobs and their tasks, `transit` being the tasks
    /// that have left their list and have not yet been followed up.
    spec fn lists_inv(&self, transit: Seq<Task>) -> bool {
        let c = self.active_classical_tasks@;
        let a = self.active_quantum_tasks@;
        let p = self.pending_quantum_tasks@;
        let j = self.active_jobs@;
        &&& all_classical(c)
        &&& all_quantum(a)
        &&& all_quantum(p)
        &&& tasks_sound(c, j, self.now, self.work_bound)
        &&& tasks_sound(a, j, self.now, self.work_bound)
        &&& tasks_sound(p, j, self.now, self.work_bound)
        &&& tasks_sound(transit, j, self.now, self.work_bound)
        &&& ids_distinct(c)
        &&& ids_distinct(a)
        &&& ids_distinct(p)
        &&& ids_distinct(transit)
        &&& ids_apart(c, a)
        &&& ids_apart(c, p)
        &&& ids_apart(a, p)
        &&& ids_apart(c, transit)
        &&& ids_apart(a, transit)
        &&& ids_apart(p, transit)
        &&& jobs_sound(j, self.now, self.work_bound, self.job_factory.next_job_id())
        &&& classical_next(a, j)
        &&& classical_next(p, j)
        &&& j.dom().finite()
        &&& j.len() == c.len() + a.len() + p.len() + transit.len()
        &&& a.len() <= self.config.num_quantum_computers
    }

    /// The state is consistent while the tasks of `transit` are in hand.
    pub closed spec fn inv_with(&self, transit: Seq<Task>) -> bool {
        self.base_inv() && self.lists_inv(transit)
    }

    /// Each queued end of a quantum iteration is the end of a task on a
    /// device, and each task on a device has its end queued: at every time
    /// as many ends are queued as tasks end, but for the end that was taken
    /// from the queue and is `owed` to its task.
    pub closed spec fn ends_inv(&self, owed: Option<u64>) -> bool {
        forall|t: u64|
            #![trigger tasks_ending(self.active_quantum_tasks@, t)]
            #![trigger queued_ends(self.events@, t)]
            tasks_ending(self.active_quantum_tasks@, t) == queued_ends(self.events@, t)
                + if owed == Some(t) {
                1nat
            } else {
                0nat
            }
    }

    /// The state is consistent, as it is between two events.
    pub open spec fn wf(&self) -> bool {
        self.inv_with(Seq::empty()) && self.ends_inv(None)
    }

    /// What a follow-up of a task leaves as it is.
    spec fn same_run(&self, before: &Simulation) -> bool {
        &&& self.now == before.now
        &&& self.finished == before.finished
        &&& self.num_events == before.num_events
        &&& self.num_job_accepted == before.num_job_accepted
        &&& self.num_job_dropped == before.num_job_dropped
        &&& self.num_job_failed == before.num_job_failed
        &&& self.failed_draw == before.failed_draw
        &&& self.config == before.config
        &&& self.work_bound == before.work_bound
        &&& self.quantum_schedule_policy == before.quantum_schedule_policy
        &&& self.num_qubits == before.num_qubits
        &&& self.priorities == before.priorities
        &&& self.job_factory == before.job_factory
        &&& self.single.enabled() == before.single.enabled()
        &&& self.series.enabled() == before.series.enabled()
    }

    /// Conservation of jobs and capacity of the devices: between two
    /// events there are as many active jobs as tasks in the classical
    /// engine, on the devices and pending; every task belongs to an active
    /// job, and no job has two tasks, in one list or in two; the classical
    /// engine holds classical tasks and the devices and the pending list
    /// quantum ones; and there are no more tasks on the devices than there are
    /// devices. Simulated time is not beyond the end of the experiment, and
    /// no queued event is before it.
    pub proof fn lemma_conservation(&self)
        requires
            self.wf(),
        ensures
            self.jobs().len() == self.active_classical().len() + self.active_quantum().len()
                + self.pending_quantum().len(),
            forall|i: int|
                0 <= i < self.active_classical().len() ==> self.jobs().contains_key(
                    (#[trigger] self.active_classical()[i]).job_id,
                ),
            forall|i: int|
                0 <= i < self.active_quantum().len() ==> self.jobs().contains_key(
                    (#[trigger] self.active_quantum()[i]).job_id,
                ),
            forall|i: int|
                0 <= i < self.pending_quantum().len() ==> self.jobs().contains_key(
                    (#[trigger] self.pending_quantum()[i]).job_id,
                ),
            forall|id: u64| #[trigger] self.jobs().contains_key(id) ==> self.jobs()[id].job_id == id,
            ids_distinct(self.active_classical()),
            ids_distinct(self.active_quantum()),
            ids_distinct(self.pending_quantum()),
            ids_apart(self.active_classical(), self.active_quantum()),
            ids_apart(self.active_classical(), self.pending_quantum()),
            ids_apart(self.active_quantum(), self.pending_quantum()),
            all_classical(self.active_classical()),
            all_quantum(self.active_quantum()),
            all_quantum(self.pending_quantum()),
            self.active_quantum().len() <= self.config().num_quantum_computers,
            self.now() <= self.config().duration,
            self.finished() ==> self.now() == self.config().duration,
            none_before(self.events(), self.now()),
            self.num_job_accepted() + self.num_job_dropped() <= self.num_events(),
            self.num_job_failed() <= self.num_job_accepted(),
            !self.finished() ==> self.events().len() > 0,
    {
    }

    /// Sets up a run: reads the job type, the priorities and the policy,
    /// seeds the generators, and queues the first arrival, the end of the
    /// warm-up, the end of the experiment and the progress reports.
    ///
    /// The generators of the numbers of qubits and priorities and of the
    /// quantum policy are the second and the third stream derived from the
    /// seed; all three streams must exist. The end of the experiment must
    /// leave room, within 64 bits, for the largest workload of the traces.
    pub fn new(config: Config, job_factory: JobFactory) -> (made: Result<Simulation, SimulationError>)
        requires
            job_factory.wf(),
            job_factory.next_job_id() == 0,
            stream_seed_of(config.seed, 3) <= u64::MAX,
            config.duration + job_factory.work_bound() <= u64::MAX,
        ensures
            match made {
                Ok(sim) => {
                    &&& rejection(config) is None
                    &&& sim.wf()
                    &&& sim.model() == Kernel::start(config)
                    &&& sim.setup() == Setup::of(config, job_factory.traces())
                },
                Err(e) => rejection(config) == Some(e),
            },
    {
        if config.duration == 0 {
            return Err(SimulationError::VanishingDuration);
        }
        if config.job_interarrival == 0 {
            return Err(SimulationError::VanishingInterarrival);
        }
        let num_qubits = match parse_job_type(config.job_type.as_str()) {
            Some(v) => v,
            None => {
                return Err(SimulationError::InvalidJobType);
            },
        };
        let priorities = match parse_priorities(config.priorities.as_str()) {
            Some(v) => v,
            None => {
                return Err(SimulationError::InvalidPriorities);
            },
        };
        let policy = match QuantumSchedulePolicy::from_str(config.quantum_schedule_policy.as_str()) {
            Ok(p) => p,
            Err(e) => {
                return Err(e);
            },
        };
        let vqe_num_qubits_rng = seeded_rng(stream_seed(config.seed, 2));
        let quantum_schedule_rng = seeded_rng(stream_seed(config.seed, 3));
        let work_bound = job_factory.largest_work();

        let ghost end = Event::ExperimentEnd(config.duration);
        let ghost w = config.warmup_period;
        let ghost d = config.duration;
        let mut events = EventQueue::new();
        assert(forall|t: u64| queued_ends(events@, t) == 0);
        schedule(&mut events, Event::JobStart(0), Ghost(0), Ghost(end));
        schedule(&mut events, Event::WarmupPeriodEnd(config.warmup_period), Ghost(0), Ghost(end));
        proof {
            lemma_pushed_contains(events@, end, end);
        }
        schedule(&mut events, Event::ExperimentEnd(config.duration), Ghost(0), Ghost(end));
        proof {
            let none = Seq::<Event>::empty();
            let one = seq![Event::JobStart(0)];
            let two = seq![Event::JobStart(0), Event::WarmupPeriodEnd(w)];
            let three = initial_events(w, d, 0);
            assert(one.drop_last() =~= none);
            assert(one.last() == Event::JobStart(0));
            assert(pushed_all(none, one) == pushed(pushed_all(none, none), Event::JobStart(0)));
            assert(two.drop_last() =~= one);
            assert(two.last() == Event::WarmupPeriodEnd(w));
            assert(pushed_all(none, two) == pushed(
                pushed_all(none, one),
                Event::WarmupPeriodEnd(w),
            ));
            assert(three.drop_last() =~= two);
            assert(three.last() == Event::ExperimentEnd(d));
            assert(pushed_all(none, three) == pushed(
                pushed_all(none, two),
                Event::ExperimentEnd(d),
            ));
            assert(events@ == pushed_all(none, three));
        }
        let mut i: u16 = 1;
        while i < 100
            invariant
                1 <= i <= 100,
                events.wf(),
                none_before(events@, 0),
                events@.contains(end),
                only_end(events@, end),
                events@ == pushed_all(Seq::empty(), initial_events(w, d, i - 1)),
                forall|t: u64| queued_ends(events@, t) == 0,
                w == config.warmup_period,
                d == config.duration,
                end == Event::ExperimentEnd(config.duration),
            decreases 100 - i,
        {
            assert(i * d <= 100 * u64::MAX) by (nonlinear_arith)
                requires
                    0 <= i <= 100,
                    0 <= d <= u64::MAX,
            ;
            assert(i * d / 100 <= d) by (nonlinear_arith)
                requires
                    0 <= i <= 100,
                    0 <= d,
            ;
            let time: u64 = ((i as u128) * (config.duration as u128) / 100) as u64;
            assert(time == progress_time(d, i as int));
            schedule(&mut events, Event::Progress(time, i), Ghost(0), Ghost(end));
            proof {
                let all = initial_events(w, d, i as int);
                assert(all.drop_last() =~= initial_events(w, d, i - 1));
            }
            i += 1;
        }
        let mut series = OutputSeries::new();
        series.set_header("job_time", "num_qubits,priority");
        if config.save_iteration_durations {
            series.set_header("qc_iter_dur", "num_qubits,priority");
            series.set_header("classical_dur", "num_qubits,priority");
        }
        let sim = Simulation {
            job_factory,
            vqe_num_qubits_rng,
            active_jobs: HashMap::new(),
            active_classical_tasks: Vec::new(),
            pending_quantum_tasks: Vec::new(),
            active_quantum_tasks: Vec::new(),
            quantum_schedule_policy: policy,
            quantum_schedule_rng,
            num_qubits,
            priorities,
            config,
            work_bound,
            events,
            single: OutputSingle::new(),
            series,
            now: 0,
            num_events: 0,
            num_job_accepted: 0,
            num_job_dropped: 0,
            num_job_failed: 0,
            failed_draw: None,
            finished: false,
        };
        assert(sim.active_jobs@.len() == 0);
        assert(forall|t: u64| tasks_ending(sim.active_quantum_tasks@, t) == 0);
        Ok(sim)
    }
}

impl Simulation {
    /// Routes a task that a job has emitted at the current time. A
    /// classical task joins the classical engine, which is told to update
    /// at once. A quantum task goes on a device if one is free, its end
    /// being queued; otherwise it joins the pending tasks.
    fn manage_task(&mut self, new_task: Task, Ghost(rest): Ghost<Seq<Task>>)
        requires
            old(self).ends_inv(None),
            new_task.last_update == old(self).now,
            new_task.task_type is Quantum ==> classical_next(seq![new_task], old(self).jobs()),
            old(self).inv_with(seq![new_task] + rest),
        ensures
            final(self).ends_inv(None),
            final(self).inv_with(rest),
            final(self).same_run(old(self)),
            final(self).active_jobs == old(self).active_jobs,
            final(self).model() == old(self).model().route(
                new_task,
                old(self).config.num_quantum_computers,
            ),
    {
        let ghost transit = seq![new_task] + rest;
        let ghost end = Event::ExperimentEnd(self.config.duration);
        proof {
            assert(transit[0] == new_task);
            assert forall|i: int| 0 <= i < rest.len() implies rest[i] == transit[i + 1] by {}
        }
        match new_task.task_type {
            TaskType::Classical(_) => {
                self.active_classical_tasks.push(new_task);
                record_level(
                    &mut self.single,
                    self.now,
                    "active_classical_tasks",
                    self.active_classical_tasks.len(),
                );
                schedule(
                    &mut self.events,
                    Event::UpdateClassicalTasks(self.now),
                    Ghost(self.now),
                    Ghost(end),
                );
                proof {
                    assert forall|t: u64|
                        #![trigger tasks_ending(self.active_quantum_tasks@, t)]
                        #![trigger queued_ends(self.events@, t)]
                        tasks_ending(self.active_quantum_tasks@, t) == queued_ends(
                            self.events@,
                            t,
                        ) by {
                        assert(tasks_ending(old(self).active_quantum_tasks@, t) == queued_ends(
                            old(self).events@,
                            t,
                        ));
                    }
                }
            },
            TaskType::Quantum(duration) => {
                if self.active_quantum_tasks.len() < self.config.num_quantum_computers {
                    self.active_quantum_tasks.push(new_task);
                    record_level(
                        &mut self.single,
                        self.now,
                        "active_quantum_tasks",
                        self.active_quantum_tasks.len(),
                    );
                    schedule(
                        &mut self.events,
                        Event::QuantumIterationEnd(self.now + duration),
                        Ghost(self.now),
                        Ghost(end),
                    );
                    proof {
                        let before = old(self).active_quantum_tasks@;
                        assert(self.active_quantum_tasks@.drop_last() =~= before);
                        assert forall|t: u64|
                            #![trigger tasks_ending(self.active_quantum_tasks@, t)]
                            #![trigger queued_ends(self.events@, t)]
                            tasks_ending(self.active_quantum_tasks@, t) == queued_ends(
                                self.events@,
                                t,
                            ) by {
                            assert(tasks_ending(before, t) == queued_ends(old(self).events@, t));
                        }
                    }
                } else {
                    self.pending_quantum_tasks.push(new_task);
                    record_level(
                        &mut self.single,
                        self.now,
                        "pending_quantum_tasks",
                        self.pending_quantum_tasks.len(),
                    );
                }
            },
        }
    }

    /// Follows up a task that has ended: its job emits its next task,
    /// which is routed, or, if the job is completed, the job is retired and
    /// the time from its arrival is recorded.
    fn new_task_for_job(&mut self, ended: Task, Ghost(rest): Ghost<Seq<Task>>)
        requires
            old(self).ends_inv(None),
            old(self).inv_with(seq![ended] + rest),
        ensures
            final(self).ends_inv(None),
            final(self).inv_with(rest),
            final(self).same_run(old(self)),
            final(self).model() == old(self).model().follow_up(
                ended,
                old(self).config.num_quantum_computers,
            ),
            old(self).active_quantum().len() < old(self).config().num_quantum_computers
                ==> final(self).pending_quantum() == old(self).pending_quantum(),
            ended.task_type is Quantum && classical_next(seq![ended], old(self).jobs())
                ==> final(self).active_quantum() == old(self).active_quantum(),
    {
        let ghost transit = seq![ended] + rest;
        proof {
            assert(transit[0] == ended);
            assert forall|i: int| 0 <= i < rest.len() implies rest[i] == transit[i + 1] by {}
        }
        let ghost jobs_before = self.active_jobs@;
        let removed = self.active_jobs.remove(&ended.job_id);
        let mut job = removed.unwrap();
        match job.next_task(self.now) {
            Some(new_task) => {
                self.active_jobs.insert(ended.job_id, job);
                proof {
                    let next = seq![new_task] + rest;
                    assert(self.active_jobs@.dom() =~= jobs_before.dom());
                    assert forall|i: int| 0 <= i < next.len() implies {
                        &&& (#[trigger] next[i]).wf()
                        &&& next[i].last_update <= self.now
                        &&& self.active_jobs@.contains_key(next[i].job_id)
                        &&& next[i].task_type.residual() <= self.work_bound
                    } by {
                        if i > 0 {
                            assert(next[i] == transit[i]);
                        }
                    }
                    assert forall|i: int, j: int| 0 <= i < j < next.len() implies (
                    #[trigger] next[i]).job_id != (#[trigger] next[j]).job_id by {
                        assert(next[i].job_id == transit[i].job_id);
                        assert(next[j].job_id == transit[j].job_id);
                    }
                    assert forall|j: int| 0 <= j < next.len() implies (#[trigger] next[j]).job_id
                        == transit[j].job_id by {}
                    lemma_apart_from_same_jobs(self.active_classical_tasks@, transit, next);
                    lemma_apart_from_same_jobs(self.active_quantum_tasks@, transit, next);
                    lemma_apart_from_same_jobs(self.pending_quantum_tasks@, transit, next);
                    assert(self.lists_inv(next));
                    assert(self.active_jobs@ =~= jobs_before.insert(ended.job_id, job));
                    assert(self.model() == Kernel {
                        jobs: jobs_before.insert(ended.job_id, jobs_before[ended.job_id].advanced()),
                        ..old(self).model()
                    });
                }
                self.manage_task(new_task, Ghost(rest));
            },
            None => {
                self.series.add("job_time", job.label.as_str(), self.now - job.time_arrival);
                proof {
                    assert(self.active_jobs@.dom() =~= jobs_before.dom().remove(ended.job_id));
                    assert(tasks_sound(rest, self.active_jobs@, self.now, self.work_bound)) by {
                        assert forall|i: int| 0 <= i < rest.len() implies self.active_jobs@.contains_key(
                            (#[trigger] rest[i]).job_id,
                        ) by {
                            assert(transit[0].job_id != transit[i + 1].job_id);
                        }
                    }
                    assert(self.lists_inv(rest));
                    assert(self.active_jobs@ =~= jobs_before.remove(ended.job_id));
                    let k = Kernel { jobs: jobs_before.remove(ended.job_id), ..old(self).model() };
                    assert(self.model() == k.sample(
                        "job_time"@,
                        jobs_before[ended.job_id].label@,
                        (self.now - jobs_before[ended.job_id].time_arrival) as u64,
                    ));
                }
            },
        }
    }

    /// The weights of the pending tasks: the priority of the job of each.
    fn weights_of_pending(&self) -> (weights: Vec<u32>)
        requires
            self.inv_with(Seq::empty()),
        ensures
            weights@ == pending_weights(self.pending_quantum(), self.jobs()),
    {
        let mut weights: Vec<u32> = Vec::new();
        let mut i: usize = 0;
        while i < self.pending_quantum_tasks.len()
            invariant
                self.inv_with(Seq::empty()),
                i <= self.pending_quantum_tasks.len(),
                weights@.len() == i,
                forall|k: int|
                    0 <= k < i ==> weights@[k] == pending_weights(
                        self.pending_quantum_tasks@,
                        self.active_jobs@,
                    )[k],
            decreases self.pending_quantum_tasks.len() - i,
        {
            assert(self.active_jobs@.contains_key(self.pending_quantum_tasks@[i as int].job_id));
            let job = self.active_jobs.get(&self.pending_quantum_tasks[i].job_id).unwrap();
            weights.push(job.priority as u32);
            i += 1;
        }
        assert(weights@ =~= pending_weights(self.pending_quantum(), self.jobs()));
        weights
    }

    /// Takes the pending task that the policy picks, if any task is
    /// pending; the others stay in the order in which they came. The index
    /// that was drawn is handed back for the proof.
    fn schedule_next_quantum_task(&mut self, weights: &Vec<u32>) -> (next: (
        Option<Task>,
        Ghost<usize>,
    ))
        requires
            old(self).wf(),
            weights@.len() == old(self).pending_quantum().len(),
            old(self).policy() == QuantumSchedulePolicy::Weighted ==> weights_fit(weights@),
        ensures
            final(self).ends_inv(None),
            final(self).same_run(old(self)),
            final(self).active_jobs == old(self).active_jobs,
            final(self).active_classical() == old(self).active_classical(),
            final(self).active_quantum() == old(self).active_quantum(),
            final(self).events() == old(self).events(),
            final(self).single == old(self).single,
            final(self).series == old(self).series,
            match next.0 {
                Some(task) => {
                    let index = picked(
                        old(self).policy(),
                        old(self).pending_quantum().len(),
                        next.1@,
                    ).unwrap() as int;
                    &&& old(self).pending_quantum().len() > 0
                    &&& next.1@ < old(self).pending_quantum().len()
                    &&& 0 <= index < old(self).pending_quantum().len()
                    &&& task == old(self).pending_quantum()[index]
                    &&& final(self).pending_quantum() == old(self).pending_quantum().remove(index)
                    &&& final(self).inv_with(seq![task])
                },
                None => old(self).pending_quantum().len() == 0 && final(self).pending_quantum()
                    == old(self).pending_quantum() && final(self).wf(),
            },
    {
        if self.pending_quantum_tasks.len() == 0 {
            (None, Ghost(0))
        } else {
            let drawn = draw_index(
                self.quantum_schedule_policy,
                weights,
                &mut self.quantum_schedule_rng,
            );
            let index = pick(
                self.quantum_schedule_policy,
                self.pending_quantum_tasks.len(),
                drawn,
            ).unwrap();
            let ghost before = self.pending_quantum_tasks@;
            let task = self.pending_quantum_tasks.remove(index);
            proof {
                let after = self.pending_quantum_tasks@;
                assert forall|i: int| 0 <= i < after.len() implies #[trigger] after[i] == before[if i
                    < index {
                    i
                } else {
                    i + 1
                }] by {}
                assert(self.lists_inv(seq![task]));
            }
            (Some(task), Ghost(drawn))
        }
    }
}

impl Simulation {
    /// Handles an arrival. If the arrival is admitted, a number of qubits
    /// and a priority are drawn, a job is made and its first task is
    /// routed; an arrival whose job cannot be made still counts as
    /// admitted. Otherwise the arrival is dropped. In both cases the next
    /// arrival is queued, `gap` ns from now.
    fn handle_job_start(&mut self, gap: u64) -> (made: Ghost<Option<Job>>)
        requires
            old(self).wf(),
            old(self).now + gap <= u64::MAX,
            old(self).num_job_accepted + old(self).num_job_dropped < old(self).num_events,
            !old(self).finished,
        ensures
            final(self).wf(),
            final(self).now == old(self).now,
            final(self).finished == old(self).finished,
            final(self).num_events == old(self).num_events,
            final(self).config == old(self).config,
            final(self).work_bound == old(self).work_bound,
            final(self).quantum_schedule_policy == old(self).quantum_schedule_policy,
            final(self).num_qubits == old(self).num_qubits,
            final(self).priorities == old(self).priorities,
            final(self).model() == old(self).model().arrival(old(self).config, gap, made@),
            old(self).model().makes(old(self).setup(), made@),
            final(self).num_job_failed == old(self).num_job_failed + if old(self).admits()
                && made@ is None {
                1int
            } else {
                0int
            },
            if old(self).admits() && made@ is None {
                old(self).fails(final(self).failed_draw)
            } else {
                final(self).failed_draw == old(self).failed_draw
            },
            final(self).setup() == old(self).setup(),
    {
        let ghost end = Event::ExperimentEnd(self.config.duration);
        let ghost mut made_job: Option<Job> = None;
        if self.active_classical_tasks.len() < self.config.max_classical_tasks
            && self.pending_quantum_tasks.len() < self.config.max_quantum_tasks {
            let num_qubits = choose_one(&self.num_qubits, &mut self.vqe_num_qubits_rng).unwrap();
            let priority = choose_one(&self.priorities, &mut self.vqe_num_qubits_rng).unwrap();
            let made = self.job_factory.make(JobType::Vqe(num_qubits), priority, self.now);
            self.num_job_accepted = self.num_job_accepted + 1;
            proof {
                assert(old(self).setup().qubits.contains(num_qubits));
                assert(old(self).setup().priorities.contains(priority));
                if made is Ok {
                    assert(old(self).model().is_made(
                        old(self).setup(),
                        num_qubits,
                        priority,
                        made->Ok_0,
                    ));
                } else {
                    assert(!old(self).setup().traces.knows(num_qubits));
                }
            }
            if let Ok(mut job) = made {
                let ghost jobs_before = self.active_jobs@;
                let ghost fresh = job;
                proof {
                    made_job = Some(fresh);
                }
                let job_id = job.job_id;
                let first = job.next_task(self.now).unwrap();
                self.active_jobs.insert(job_id, job);
                proof {
                    assert(!jobs_before.contains_key(job_id));
                    assert(self.active_jobs@.dom() =~= jobs_before.dom().insert(job_id));
                    let transit = seq![first] + Seq::<Task>::empty();
                    assert(transit =~= seq![first]);
                    lemma_apart_from_new(self.active_classical_tasks@, jobs_before, transit);
                    lemma_apart_from_new(self.active_quantum_tasks@, jobs_before, transit);
                    lemma_apart_from_new(self.pending_quantum_tasks@, jobs_before, transit);
                    assert(self.lists_inv(transit));
                    let k = Kernel {
                        num_job_accepted: (old(self).num_job_accepted + 1) as u64,
                        next_job_id: (old(self).job_factory.next_job_id() + 1) as u64,
                        ..old(self).model()
                    };
                    assert(self.model() == Kernel {
                        jobs: k.jobs.insert(fresh.job_id, fresh.advanced()),
                        ..k
                    });
                    assert(self.num_job_failed <= self.num_job_accepted);
                }
                self.manage_task(first, Ghost(Seq::empty()));
            } else {
                self.num_job_failed = self.num_job_failed + 1;
                self.failed_draw = Some((num_qubits, priority));
            }
        } else {
            self.num_job_dropped = self.num_job_dropped + 1;
        }
        schedule(&mut self.events, Event::JobStart(self.now + gap), Ghost(self.now), Ghost(end));
        Ghost(made_job)
    }

    /// Takes the first task that ends now off its device, records the
    /// number of tasks on the devices and, if durations are saved, the time
    /// since the task started.
    fn take_completed(&mut self) -> (ended: Task)
        requires
            old(self).inv_with(Seq::empty()),
            old(self).ends_inv(Some(old(self).now)),
        ensures
            final(self).ends_inv(None),
            final(self).inv_with(seq![ended]),
            final(self).same_run(old(self)),
            final(self).active_jobs == old(self).active_jobs,
            final(self).pending_quantum() == old(self).pending_quantum(),
            final(self).active_quantum().len() < old(self).config.num_quantum_computers,
            ended.task_type is Quantum,
            classical_next(seq![ended], final(self).jobs()),
            first_completed(old(self).active_quantum(), old(self).now) is Some,
            ended == old(self).active_quantum()[first_completed(
                old(self).active_quantum(),
                old(self).now,
            ).unwrap()],
            final(self).model() == ({
                let before = old(self).model();
                let pos = first_completed(before.active, before.now).unwrap();
                let k1 = Kernel { active: swap_removed(before.active, pos), ..before };
                let k2 = k1.level("active_quantum_tasks"@, k1.active.len());
                if old(self).config.save_iteration_durations {
                    k2.sample(
                        "qc_iter_dur"@,
                        before.jobs[ended.job_id].label@,
                        (before.now - ended.start_time) as u64,
                    )
                } else {
                    k2
                }
            }),
    {
        proof {
            let active = self.active_quantum_tasks@;
            assert(tasks_ending(active, self.now) > 0);
            lemma_some_task_ends(active, self.now);
            let i = choose|i: int| 0 <= i < active.len() && ends_at(#[trigger] active[i], self.now);
            assert(completes_at(active[i], self.now));
        }
        let found = find_completed(&self.active_quantum_tasks, self.now);
        let pos = found.unwrap();
        let ghost before = self.active_quantum_tasks@;
        let completed_task = self.active_quantum_tasks.swap_remove(pos);
        proof {
            assert forall|t: u64|
                #![trigger tasks_ending(self.active_quantum_tasks@, t)]
                #![trigger queued_ends(self.events@, t)]
                tasks_ending(self.active_quantum_tasks@, t) == queued_ends(self.events@, t) by {
                lemma_tasks_ending_swap_remove(before, pos as int, t);
                assert(tasks_ending(before, t) == queued_ends(self.events@, t) + if Some(self.now)
                    == Some(t) {
                    1nat
                } else {
                    0nat
                });
            }
            let after = self.active_quantum_tasks@;
            let last = before.len() - 1;
            assert forall|i: int| 0 <= i < after.len() implies #[trigger] after[i] == before[if i
                == pos {
                last
            } else {
                i
            }] by {}
        }
        record_level(
            &mut self.single,
            self.now,
            "active_quantum_tasks",
            self.active_quantum_tasks.len(),
        );
        if self.config.save_iteration_durations {
            let job = self.active_jobs.get(&completed_task.job_id).unwrap();
            self.series.add(
                "qc_iter_dur",
                job.label.as_str(),
                self.now - completed_task.start_time,
            );
        }
        proof {
            let transit = seq![completed_task];
            assert(transit[0] == completed_task);
            assert(self.lists_inv(transit));
        }
        completed_task
    }

    /// Puts a pending task on the device that has become free, if a task
    /// is pending: the task that the policy picks. Its end is queued. The
    /// index that was drawn is handed back for the proof.
    fn dispatch_pending(&mut self, weights: &Vec<u32>) -> (drawn: Ghost<usize>)
        requires
            old(self).wf(),
            old(self).active_quantum().len() < old(self).config.num_quantum_computers,
            weights@.len() == old(self).pending_quantum().len(),
            old(self).policy() == QuantumSchedulePolicy::Weighted ==> weights_fit(weights@),
        ensures
            final(self).wf(),
            final(self).same_run(old(self)),
            final(self).model() == old(self).model().dispatch(
                old(self).quantum_schedule_policy,
                drawn@,
            ),
            old(self).pending_quantum().len() > 0 ==> drawn@ < old(self).pending_quantum().len(),
    {
        let ghost end = Event::ExperimentEnd(self.config.duration);
        let next = self.schedule_next_quantum_task(weights);
        if let Some(mut new_task) = next.0 {
            let ghost taken = new_task;
            new_task.last_update = self.now;
            let duration = residual_of(&new_task);
            schedule(
                &mut self.events,
                Event::QuantumIterationEnd(self.now + duration),
                Ghost(self.now),
                Ghost(end),
            );
            let ghost active_before = self.active_quantum_tasks@;
            self.active_quantum_tasks.push(new_task);
            proof {
                let transit = seq![taken];
                assert(transit[0] == taken);
                assert(self.lists_inv(Seq::empty()));
                assert(self.active_quantum_tasks@.drop_last() =~= active_before);
                assert forall|t: u64|
                    #![trigger tasks_ending(self.active_quantum_tasks@, t)]
                    #![trigger queued_ends(self.events@, t)]
                    tasks_ending(self.active_quantum_tasks@, t) == queued_ends(self.events@, t) by {
                    assert(tasks_ending(active_before, t) == queued_ends(old(self).events@, t));
                }
            }
            record_level(
                &mut self.single,
                self.now,
                "pending_quantum_tasks",
                self.pending_quantum_tasks.len(),
            );
            record_level(
                &mut self.single,
                self.now,
                "active_quantum_tasks",
                self.active_quantum_tasks.len(),
            );
        }
        next.1
    }

    /// Handles the end of a quantum iteration: the task that ends now
    /// leaves its device and is followed up; then, if a task is pending and
    /// a device is free, the task that the policy picks goes on the device
    /// and its end is queued. The index that was drawn is handed back for
    /// the proof.
    fn handle_quantum_end(&mut self) -> (drawn: Ghost<usize>)
        requires
            old(self).inv_with(Seq::empty()),
            old(self).ends_inv(Some(old(self).now)),
            old(self).policy() == QuantumSchedulePolicy::Weighted ==> weights_fit(
                pending_weights(old(self).pending_quantum(), old(self).jobs()),
            ),
        ensures
            final(self).wf(),
            final(self).same_run(old(self)),
            final(self).model() == old(self).model().quantum_end(
                old(self).config,
                old(self).quantum_schedule_policy,
                drawn@,
            ),
            old(self).pending_quantum().len() > 0 ==> drawn@ < old(self).pending_quantum().len(),
    {
        let weights = self.weights_of_pending();
        let completed_task = self.take_completed();
        proof {
            assert(seq![completed_task] + Seq::<Task>::empty() =~= seq![completed_task]);
        }
        self.new_task_for_job(completed_task, Ghost(Seq::empty()));
        self.dispatch_pending(&weights)
    }

    /// Charges every classical task for the operations done since its
    /// last update and takes the tasks that are then complete out of the
    /// engine.
    fn charge_classical_tasks(&mut self) -> (done: Vec<Task>)
        requires
            old(self).wf(),
        ensures
            final(self).ends_inv(None),
            final(self).inv_with(done@),
            final(self).same_run(old(self)),
            final(self).active_jobs == old(self).active_jobs,
            done@ == finished(
                debited_all(
                    old(self).active_classical(),
                    old(self).now,
                    capacity_at(
                        old(self).active_classical(),
                        old(self).now,
                        old(self).config.worker_capacity,
                        old(self).config.num_serverless_workers,
                    ),
                ),
            ),
            final(self).model() == (Kernel {
                classical: unfinished(
                    debited_all(
                        old(self).active_classical(),
                        old(self).now,
                        capacity_at(
                            old(self).active_classical(),
                            old(self).now,
                            old(self).config.worker_capacity,
                            old(self).config.num_serverless_workers,
                        ),
                    ),
                ),
                ..old(self).model()
            }),
    {
        let ghost before = self.active_classical_tasks@;
        let ghost capacity = capacity_at(
            before,
            self.now,
            self.config.worker_capacity,
            self.config.num_serverless_workers,
        );
        let done = update_classical_tasks(
            &mut self.active_classical_tasks,
            self.now,
            self.config.worker_capacity,
            self.config.num_serverless_workers,
        );
        proof {
            let charged = debited_all(before, self.now, capacity);
            assert(ids_distinct(charged)) by {
                assert forall|i: int, j: int| 0 <= i < j < charged.len() implies (
                #[trigger] charged[i]).job_id != (#[trigger] charged[j]).job_id by {
                    assert(charged[i].job_id == before[i].job_id);
                    assert(charged[j].job_id == before[j].job_id);
                }
            }
            lemma_partition(charged);
            lemma_partition_ids(charged);
            let staying = self.active_classical_tasks@;
            assert forall|x: Task| charged.contains(x) implies {
                &&& x.wf()
                &&& x.task_type is Classical
                &&& x.last_update <= self.now
                &&& self.active_jobs@.contains_key(x.job_id)
                &&& x.task_type.residual() <= self.work_bound
                &&& forall|k: int|
                    0 <= k < self.active_quantum_tasks@.len() ==> x.job_id != (
                    #[trigger] self.active_quantum_tasks@[k]).job_id
                &&& forall|k: int|
                    0 <= k < self.pending_quantum_tasks@.len() ==> x.job_id != (
                    #[trigger] self.pending_quantum_tasks@[k]).job_id
            } by {
                let i = choose|i: int| 0 <= i < charged.len() && charged[i] == x;
                assert(charged[i] == crate::classical::debited(before[i], self.now, capacity));
                assert(before[i].wf());
            }
            assert forall|i: int| 0 <= i < staying.len() implies charged.contains(
                #[trigger] staying[i],
            ) by {}
            assert forall|i: int| 0 <= i < done@.len() implies charged.contains(
                #[trigger] done@[i],
            ) by {}
            assert(self.lists_inv(done@));
        }
        done
    }

    /// Adds to the series `classical_dur` the time that each of the tasks
    /// has taken since it started.
    fn sample_classical_durations(&mut self, done: &Vec<Task>)
        requires
            old(self).ends_inv(None),
            old(self).inv_with(done@),
        ensures
            final(self).ends_inv(None),
            final(self).inv_with(done@),
            final(self).same_run(old(self)),
            final(self).active_jobs == old(self).active_jobs,
            final(self).model() == old(self).model().sample_durations("classical_dur"@, done@),
    {
        let ghost k1 = self.model();
        let mut k: usize = 0;
        assert(done@.take(0) =~= Seq::<Task>::empty());
        while k < done.len()
            invariant
                k <= done.len(),
                self.inv_with(done@),
                self.ends_inv(None),
                self.same_run(old(self)),
                self.active_jobs == old(self).active_jobs,
                k1 == old(self).model(),
                self.model() == k1.sample_durations("classical_dur"@, done@.take(k as int)),
            decreases done.len() - k,
        {
            let task = &done[k];
            assert(self.active_jobs@.contains_key(done@[k as int].job_id));
            let job = self.active_jobs.get(&task.job_id).unwrap();
            self.series.add("classical_dur", job.label.as_str(), self.now - task.start_time);
            proof {
                assert(done@.take(k + 1).drop_last() =~= done@.take(k as int));
                assert(done@.take(k + 1).last() == done@[k as int]);
            }
            k += 1;
        }
        assert(done@.take(done@.len() as int) =~= done@);
    }

    /// Queues the next update of the classical tasks, if any task is left
    /// in the engine, and records the number of tasks in the engine.
    fn schedule_classical_update(&mut self, Ghost(transit): Ghost<Seq<Task>>)
        requires
            old(self).ends_inv(None),
            old(self).inv_with(transit),
        ensures
            final(self).ends_inv(None),
            final(self).inv_with(transit),
            final(self).same_run(old(self)),
            final(self).active_jobs == old(self).active_jobs,
            final(self).model() == ({
                let before = old(self).model();
                let queued = match least_residual(before.classical) {
                    Some(least) => before.queue(
                        Event::UpdateClassicalTasks((before.now + least) as u64),
                    ),
                    None => before,
                };
                queued.level("active_classical_tasks"@, before.classical.len())
            }),
    {
        let ghost end = Event::ExperimentEnd(self.config.duration);
        match smallest_residual(&self.active_classical_tasks) {
            Some(least) => {
                schedule(
                    &mut self.events,
                    Event::UpdateClassicalTasks(self.now + least),
                    Ghost(self.now),
                    Ghost(end),
                );
            },
            None => {},
        }
        record_level(
            &mut self.single,
            self.now,
            "active_classical_tasks",
            self.active_classical_tasks.len(),
        );
    }

    /// Handles an update of the classical tasks: every task is charged
    /// for the operations done since its last update, the next update is
    /// queued for when the task with the least residual would end at one
    /// operation per ns, and the tasks that have ended are followed up, in
    /// the order of the list.
    fn handle_classical_update(&mut self)
        requires
            old(self).wf(),
        ensures
            final(self).wf(),
            final(self).same_run(old(self)),
            final(self).model() == old(self).model().classical_update(old(self).config),
    {
        let ghost devices = self.config.num_quantum_computers;
        let done = self.charge_classical_tasks();
        let ghost k1 = self.model();
        if self.config.save_iteration_durations {
            self.sample_classical_durations(&done);
        }
        proof {
            lemma_sample_durations_frame(k1, "classical_dur"@, done@);
        }
        self.schedule_classical_update(Ghost(done@));
        let ghost target = self.model().follow_up_all(done@, devices);
        assert(target == old(self).model().classical_update(old(self).config));
        let mut k: usize = 0;
        assert(done@.skip(0) =~= done@);
        while k < done.len()
            invariant
                k <= done.len(),
                self.inv_with(done@.skip(k as int)),
                self.ends_inv(None),
                self.same_run(old(self)),
                devices == old(self).config.num_quantum_computers,
                target == self.model().follow_up_all(done@.skip(k as int), devices),
            decreases done.len() - k,
        {
            assert(done@.skip(k as int) =~= seq![done@[k as int]] + done@.skip(k + 1));
            assert(done@.skip(k as int)[0] == done@[k as int]);
            assert(done@.skip(k as int).drop_first() =~= done@.skip(k + 1));
            self.new_task_for_job(done[k], Ghost(done@.skip(k + 1)));
            k += 1;
        }
        assert(done@.skip(done@.len() as int) =~= Seq::<Task>::empty());
    }

    /// The next event can be handled: the experiment has not ended, the
    /// count of events has room for one more, and
    /// - if the event is an arrival, the time of the next arrival fits in 64 bits;
    /// - if it is the end of a quantum iteration and the policy is the
    ///   weighted one, the weights of the pending tasks fit the arithmetic of
    ///   the alias table.
    pub open spec fn can_step(&self, gap: u64) -> bool {
        &&& !self.finished()
        &&& self.events().len() > 0
        &&& self.num_events() < u64::MAX
        &&& match self.events()[0] {
            Event::JobStart(t) => t + gap <= u64::MAX,
            Event::QuantumIterationEnd(_) => self.policy() == QuantumSchedulePolicy::Weighted
                ==> weights_fit(pending_weights(self.pending_quantum(), self.jobs())),
            _ => true,
        }
    }

    /// Tells whether the next event can be handled.
    pub fn check_step(&self, gap: u64) -> (ok: bool)
        requires
            self.wf(),
        ensures
            ok == self.can_step(gap),
    {
        if self.finished || self.num_events == u64::MAX {
            return false;
        }
        match self.events.peek() {
            None => false,
            Some(Event::JobStart(t)) => t <= u64::MAX - gap,
            Some(Event::QuantumIterationEnd(_)) => {
                if self.quantum_schedule_policy == QuantumSchedulePolicy::Weighted {
                    let weights = self.weights_of_pending();
                    check_weights(&weights)
                } else {
                    true
                }
            },
            Some(_) => true,
        }
    }

    /// Handles the next event and returns it. Simulated time moves to the
    /// time of the event, which is not earlier than the time before; the
    /// length of the queue is recorded; then the event is handled by its
    /// kind. `gap` is the time from an arrival to the next one, in ns, and
    /// is read only if the event is an arrival.
    pub fn step(&mut self, gap: u64) -> (event: Event)
        requires
            old(self).wf(),
            old(self).can_step(gap),
        ensures
            final(self).wf(),
            final(self).setup() == old(self).setup(),
            event == old(self).events()[0],
            old(self).model().steps_to(final(self).model(), old(self).setup(), gap),
            final(self).now() == event.time(),
            final(self).now() >= old(self).now(),
            final(self).num_events() == old(self).num_events() + 1,
            final(self).finished() == (event is ExperimentEnd),
            event is ExperimentEnd ==> final(self).now() == final(self).config().duration,
            none_before(final(self).events(), final(self).now()),
            final(self).num_job_accepted() == old(self).num_job_accepted() + if event is JobStart
                && old(self).admits() {
                1int
            } else {
                0int
            },
            final(self).num_job_dropped() == old(self).num_job_dropped() + if event is JobStart
                && !old(self).admits() {
                1int
            } else {
                0int
            },
            final(self).num_job_failed() == old(self).num_job_failed() || (event is JobStart
                && old(self).admits() && final(self).num_job_failed() == old(self).num_job_failed()
                + 1),
            if final(self).num_job_failed() == old(self).num_job_failed() {
                final(self).failed_draw() == old(self).failed_draw()
            } else {
                old(self).fails(final(self).failed_draw())
            },
            final(self).jobs().len() == final(self).active_classical().len()
                + final(self).active_quantum().len() + final(self).pending_quantum().len(),
            final(self).active_quantum().len() <= final(self).config().num_quantum_computers,
    {
        let ghost end = Event::ExperimentEnd(self.config.duration);
        let ghost queued = self.events@;
        let popped = self.events.pop();
        let event = popped.unwrap();
        self.now = event.time();
        proof {
            let rest = self.events@;
            assert forall|i: int| 0 <= i < rest.len() implies (#[trigger] rest[i]).time()
                >= self.now by {
                assert(rest[i] == queued[i + 1]);
            }
            let k = choose|k: int| 0 <= k < queued.len() && queued[k] == end;
            assert(queued[0].time() <= queued[k].time());
            if event != end {
                assert(rest[k - 1] == end);
            }
            assert(rest =~= queued.remove(0));
            let owed = if event is QuantumIterationEnd {
                Some(event.time())
            } else {
                None
            };
            assert forall|t: u64|
                #![trigger tasks_ending(self.active_quantum_tasks@, t)]
                #![trigger queued_ends(self.events@, t)]
                tasks_ending(self.active_quantum_tasks@, t) == queued_ends(self.events@, t)
                    + if owed == Some(t) {
                    1nat
                } else {
                    0nat
                } by {
                lemma_queued_ends_remove(queued, 0, t);
                assert(tasks_ending(old(self).active_quantum_tasks@, t) == queued_ends(queued, t));
            }
            assert(self.ends_inv(owed));
        }
        record_level(&mut self.single, self.now, "event_queue_len", self.events.len());
        self.num_events = self.num_events + 1;
        assert(self.lists_inv(Seq::empty()));
        let ghost popped_model = self.model();
        let ghost mut made: Option<Job> = None;
        let ghost mut drawn: usize = 0;
        match event {
            Event::JobStart(_) => {
                let made_now = self.handle_job_start(gap);
                proof {
                    made = made_now@;
                }
            },
            Event::WarmupPeriodEnd(_) => {
                self.single.enable(self.now);
                self.series.enable();
            },
            Event::ExperimentEnd(_) => {
                self.finished = true;
            },
            Event::Progress(_, _) => {},
            Event::QuantumIterationEnd(_) => {
                let drawn_now = self.handle_quantum_end();
                proof {
                    drawn = drawn_now@;
                }
            },
            Event::UpdateClassicalTasks(_) => {
                self.handle_classical_update();
            },
        }
        assert(popped_model == old(self).model().popped());
        assert(self.model() == old(self).model().step(old(self).setup(), gap, made, drawn));
        event
    }
}

impl Simulation {
    /// Hands out what was measured: the counts of events handled and of
    /// arrivals admitted and dropped are written as one-shot scalars, which
    /// as all one-shot scalars are kept only if recording is enabled; the
    /// metrics are handed out with the configuration as a line of
    /// comma-separated values. The simulation is left with empty metrics
    /// that record nothing.
    pub fn output(&mut self) -> (out: Output)
        requires
            old(self).wf(),
        ensures
            final(self).wf(),
            final(self).setup() == old(self).setup(),
            final(self).model() == old(self).model().handed_out(),
            final(self).failed_draw() == old(self).failed_draw(),
            old(self).model().reports(old(self).config(), out),
    {
        self.single.one_time("num_events", self.num_events);
        self.single.one_time("num_job_accepted", self.num_job_accepted);
        self.single.one_time("num_job_dropped", self.num_job_dropped);
        let mut single = OutputSingle::new();
        let mut series = OutputSeries::new();
        core::mem::swap(&mut self.single, &mut single);
        core::mem::swap(&mut self.series, &mut series);
        assert(self.lists_inv(Seq::empty()));
        Output { single, series, config_csv: self.config.to_csv() }
    }

    /// What a run leaves: `end` is the state that the run has reached,
    /// having taken the first `used` of the gaps.
    /// - If the run ends well, the end of the experiment was handled, at
    ///   the end of its duration, `result` is what the state hands out, and
    ///   the simulation is left without metrics.
    /// - If an arrival finds no gap left, the simulation is left before
    ///   that arrival, all gaps taken.
    /// - If the next event cannot be handled, the simulation is left
    ///   before it.
    pub open spec fn run_ends(
        &self,
        end: Kernel,
        used: int,
        gaps: Seq<u64>,
        result: Result<Output, Interrupted>,
    ) -> bool {
        match result {
            Ok(out) => {
                &&& end.finished
                &&& end.now == self.config().duration
                &&& end.reports(self.config(), out)
                &&& self.model() == end.handed_out()
            },
            Err(Interrupted::ArrivalsExhausted) => {
                &&& self.model() == end
                &&& !end.finished
                &&& end.arrival_is_next()
                &&& used == gaps.len()
            },
            Err(Interrupted::CannotStep) => {
                &&& self.model() == end
                &&& !end.finished
                &&& end.arrival_is_next() ==> used < gaps.len()
                &&& !self.can_step(
                    if end.arrival_is_next() {
                        gaps[used]
                    } else {
                        0
                    },
                )
            },
        }
    }

    /// Runs the simulation to the end of the experiment and hands out what
    /// was measured. `gaps` are the times between consecutive arrivals, in
    /// ns: each arrival that is handled takes the next one.
    ///
    /// The run is interrupted, and the simulation left as it is before the
    /// event concerned, if an arrival finds no gap left or if the next
    /// event cannot be handled (see `can_step`).
    pub fn run(&mut self, gaps: &Vec<u64>) -> (result: Result<Output, Interrupted>)
        requires
            old(self).wf(),
        ensures
            final(self).wf(),
            final(self).setup() == old(self).setup(),
            final(self).num_job_failed() >= old(self).num_job_failed(),
            if final(self).num_job_failed() == old(self).num_job_failed() {
                final(self).failed_draw() == old(self).failed_draw()
            } else {
                old(self).fails(final(self).failed_draw())
            },
            exists|end: Kernel, used: int, n: nat|
                {
                    &&& 0 <= used <= gaps@.len()
                    &&& #[trigger] old(self).model().reaches(
                        end,
                        old(self).setup(),
                        gaps@.take(used),
                        n,
                    )
                    &&& final(self).run_ends(end, used, gaps@, result)
                    &&& final(self).num_job_accepted() + final(self).num_job_dropped()
                        == old(self).num_job_accepted() + old(self).num_job_dropped() + used
                },
    {
        let mut used: usize = 0;
        let ghost mut n: nat = 0;
        assert(gaps@.take(0) =~= Seq::<u64>::empty());
        while !self.finished
            invariant
                self.wf(),
                used <= gaps@.len(),
                self.setup() == old(self).setup(),
                old(self).model().reaches(self.model(), old(self).setup(), gaps@.take(used as int), n),
                self.num_job_accepted() + self.num_job_dropped() == old(self).num_job_accepted()
                    + old(self).num_job_dropped() + used,
                self.num_job_failed() >= old(self).num_job_failed(),
                if self.num_job_failed() == old(self).num_job_failed() {
                    self.failed_draw() == old(self).failed_draw()
                } else {
                    old(self).fails(self.failed_draw())
                },
            decreases u64::MAX - self.num_events,
        {
            let ghost mid = self.model();
            let gap: u64 = match self.events.peek() {
                Some(Event::JobStart(_)) => {
                    if used < gaps.len() {
                        gaps[used]
                    } else {
                        assert(gaps@.take(used as int) =~= gaps@);
                        assert(self.run_ends(
                            mid,
                            used as int,
                            gaps@,
                            Err(Interrupted::ArrivalsExhausted),
                        ));
                        return Err(Interrupted::ArrivalsExhausted);
                    }
                },
                _ => 0,
            };
            if !self.check_step(gap) {
                assert(self.run_ends(mid, used as int, gaps@, Err(Interrupted::CannotStep)));
                return Err(Interrupted::CannotStep);
            }
            let event = self.step(gap);
            let ghost taken = gaps@.take(used as int);
            if let Event::JobStart(_) = event {
                used = used + 1;
            }
            proof {
                let now_taken = gaps@.take(used as int);
                if mid.arrival_is_next() {
                    assert(now_taken.drop_last() =~= taken);
                    assert(now_taken.last() == gap);
                } else {
                    assert(now_taken == taken);
                }
                assert(mid.gaps_before(now_taken) == taken);
                assert(mid.gap_taken(now_taken) == gap);
                assert(mid.steps_to(self.model(), old(self).setup(), mid.gap_taken(now_taken)));
                n = n + 1;
                assert(old(self).model().reaches(self.model(), old(self).setup(), now_taken, n));
            }
        }
        let ghost end = self.model();
        let out = self.output();
        assert(self.run_ends(end, used as int, gaps@, Ok(out)));
        Ok(out)
    }

    /// The simulated time, in ns.
    pub fn current_time(&self) -> (t: u64)
        ensures
            t == self.now(),
    {
        self.now
    }

    /// Whether the end of the experiment was handled.
    pub fn is_finished(&self) -> (b: bool)
        ensures
            b == self.finished(),
    {
        self.finished
    }

    /// The number of events handled.
    pub fn events_handled(&self) -> (n: u64)
        ensures
            n == self.num_events(),
    {
        self.num_events
    }

    /// The number of arrivals that were admitted.
    pub fn jobs_accepted(&self) -> (n: u64)
        ensures
            n == self.num_job_accepted(),
    {
        self.num_job_accepted
    }

    /// The number of arrivals that were turned away.
    pub fn jobs_dropped(&self) -> (n: u64)
        ensures
            n == self.num_job_dropped(),
    {
        self.num_job_dropped
    }

    /// The number of arrivals that were admitted and for which no job
    /// could be made, the traces having no values for the number of qubits
    /// drawn.
    pub fn jobs_failed(&self) -> (n: u64)
        ensures
            n == self.num_job_failed(),
    {
        self.num_job_failed
    }

    /// The number of qubits and the priority drawn for the last arrival
    /// for which no job could be made, if there was one.
    pub fn last_failed_draw(&self) -> (draw: Option<(u16, u16)>)
        ensures
            draw == self.failed_draw(),
    {
        self.failed_draw
    }

    /// The number of active jobs.
    pub fn active_job_count(&self) -> (n: usize)
        ensures
            n == self.jobs().len(),
    {
        self.active_jobs.len()
    }

    /// The classical tasks in the engine.
    pub fn classical_tasks(&self) -> (tasks: &Vec<Task>)
        ensures
            tasks@ == self.active_classical(),
    {
        &self.active_classical_tasks
    }

    /// The quantum tasks on a device.
    pub fn quantum_tasks(&self) -> (tasks: &Vec<Task>)
        ensures
            tasks@ == self.active_quantum(),
    {
        &self.active_quantum_tasks
    }

    /// The quantum tasks that wait for a device.
    pub fn pending_tasks(&self) -> (tasks: &Vec<Task>)
        ensures
            tasks@ == self.pending_quantum(),
    {
        &self.pending_quantum_tasks
    }

    /// The queued events, in the order in which they will be handled.
    pub fn queued_events(&self) -> (events: &Vec<Event>)
        ensures
            events@ == self.events(),
    {
        self.events.as_vec()
    }

    /// The one-shot scalars and time averages.
    pub fn metrics(&self) -> (single: &OutputSingle)
        ensures
            single.enabled() == self.model().recording,
            single.warmup() == self.model().warmup,
            single.time_avgs() == self.model().time_avgs,
            self.wf() ==> single.wf() && single.one_times() == Map::<Seq<char>, u64>::empty(),
    {
        &self.single
    }

    /// The series of samples.
    pub fn samples(&self) -> (series: &OutputSeries)
        ensures
            series.enabled() == self.model().sampling,
            series@ == self.model().series,
            self.wf() ==> series.wf(),
    {
        &self.series
    }

    /// The configuration.
    pub fn configuration(&self) -> (config: &Config)
        ensures
            *config == self.config(),
    {
        &self.config
    }
}

} // verus!
