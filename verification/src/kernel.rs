//! The kernel as mathematics: its state between two events, and the state
//! that each event leads to. The executable kernel is proved to follow it.

use vstd::prelude::*;
use crate::classical::{capacity_at, debited_all, finished, least_residual, unfinished};
use crate::config::{initial_events, parsed_job_type, parsed_priorities, Config};
use crate::event::{
    lemma_pushed_contains, lemma_pushed_keeps_first, lemma_pushed_only_end,
    lemma_pushed_preserves_order, none_before, only_end, pushed, pushed_all, sorted_by_time,
    updates_unique, Event,
};
use crate::job::{Job, JobStatus, JobType, Traces};
use crate::output::{appended, Output, OutputSeriesSingle, SeriesView, TimeAvg};
use crate::quantum::{first_completed, picked, QuantumSchedulePolicy};
use crate::task::{Task, TaskType};

verus! {

/// The state of the kernel between two events.
pub struct Kernel {
    /// The simulated time.
    pub now: u64,
    /// Whether the end of the experiment was handled.
    pub finished: bool,
    /// The queued events, in the order in which they will be handled.
    pub events: Seq<Event>,
    /// The active jobs, by identifier.
    pub jobs: Map<u64, Job>,
    /// The classical tasks in the engine.
    pub classical: Seq<Task>,
    /// The quantum tasks on a device.
    pub active: Seq<Task>,
    /// The quantum tasks that wait for a device.
    pub pending: Seq<Task>,
    /// The identifier that the next job gets.
    pub next_job_id: u64,
    /// The number of events handled.
    pub num_events: u64,
    /// The number of arrivals that were admitted.
    pub num_job_accepted: u64,
    /// The number of arrivals that were turned away.
    pub num_job_dropped: u64,
    /// The number of arrivals that were admitted and for which no job
    /// could be made.
    pub num_job_failed: u64,
    /// Whether time averages are recorded.
    pub recording: bool,
    /// The time at which recording was enabled, 0 before.
    pub warmup: u64,
    /// The time averages, by name.
    pub time_avgs: Map<Seq<char>, TimeAvg>,
    /// Whether samples are recorded.
    pub sampling: bool,
    /// The series of samples, by name.
    pub series: Map<Seq<char>, SeriesView>,
}

/// What a run is set up with, and what stays as it is throughout.
pub struct Setup {
    /// The configuration.
    pub config: Config,
    /// The policy to schedule quantum tasks.
    pub policy: QuantumSchedulePolicy,
    /// The numbers of qubits that jobs are made with.
    pub qubits: Seq<u16>,
    /// The priorities that jobs are made with.
    pub priorities: Seq<u16>,
    /// The traces that the parameters of the jobs are drawn from.
    pub traces: Traces,
}

/// The list without the task at `index`, whose place the last task takes.
pub open spec fn swap_removed(tasks: Seq<Task>, index: int) -> Seq<Task> {
    tasks.update(index, tasks.last()).drop_last()
}

impl Kernel {
    /// The step function `name` takes the level `value` now.
    pub open spec fn level(self, name: Seq<char>, value: nat) -> Kernel {
        let acc = if self.time_avgs.contains_key(name) {
            self.time_avgs[name]
        } else {
            TimeAvg::fresh(self.warmup)
        };
        Kernel {
            time_avgs: self.time_avgs.insert(
                name,
                acc.recorded(self.recording, self.now, value as u64),
            ),
            ..self
        }
    }

    /// A sample is added to the series `name` under `label`, if samples
    /// are recorded.
    pub open spec fn sample(self, name: Seq<char>, label: Seq<char>, value: u64) -> Kernel {
        if self.sampling {
            let series = if self.series.contains_key(name) {
                self.series[name]
            } else {
                OutputSeriesSingle::initial()
            };
            Kernel { series: self.series.insert(name, appended(series, label, value)), ..self }
        } else {
            self
        }
    }

    /// An event is queued.
    pub open spec fn queue(self, event: Event) -> Kernel {
        Kernel { events: pushed(self.events, event), ..self }
    }

    /// A task that a job has emitted is routed. A classical task joins
    /// the classical engine, which is told to update at once. A quantum task
    /// goes on a device if one of the `devices` is free, its end being
    /// queued; otherwise it joins the pending tasks.
    pub open spec fn route(self, task: Task, devices: usize) -> Kernel {
        match task.task_type {
            TaskType::Classical(_) => {
                let k = Kernel { classical: self.classical.push(task), ..self };
                k.level("active_classical_tasks"@, k.classical.len()).queue(
                    Event::UpdateClassicalTasks(self.now),
                )
            },
            TaskType::Quantum(duration) => {
                if self.active.len() < devices {
                    let k = Kernel { active: self.active.push(task), ..self };
                    k.level("active_quantum_tasks"@, k.active.len()).queue(
                        Event::QuantumIterationEnd((self.now + duration) as u64),
                    )
                } else {
                    let k = Kernel { pending: self.pending.push(task), ..self };
                    k.level("pending_quantum_tasks"@, k.pending.len())
                }
            },
        }
    }

    /// A task that has ended is followed up: its job emits its next task,
    /// which is routed; or, if the job is completed, the job is retired and
    /// the time since its arrival is added to the series `job_time`.
    pub open spec fn follow_up(self, ended: Task, devices: usize) -> Kernel {
        let job = self.jobs[ended.job_id];
        match job.phase_task() {
            Some(task_type) => {
                let k = Kernel { jobs: self.jobs.insert(ended.job_id, job.advanced()), ..self };
                k.route(
                    Task {
                        job_id: job.job_id,
                        task_type,
                        start_time: self.now,
                        last_update: self.now,
                    },
                    devices,
                )
            },
            None => {
                let k = Kernel { jobs: self.jobs.remove(ended.job_id), ..self };
                k.sample("job_time"@, job.label@, (self.now - job.time_arrival) as u64)
            },
        }
    }

    /// The tasks that have ended are followed up, in order.
    pub open spec fn follow_up_all(self, ended: Seq<Task>, devices: usize) -> Kernel
        decreases ended.len(),
    {
        if ended.len() == 0 {
            self
        } else {
            self.follow_up(ended[0], devices).follow_up_all(ended.drop_first(), devices)
        }
    }

    /// For each of the tasks, in order, the time since it started is
    /// added to the series `name` under the label of its job.
    pub open spec fn sample_durations(self, name: Seq<char>, tasks: Seq<Task>) -> Kernel
        decreases tasks.len(),
    {
        if tasks.len() == 0 {
            self
        } else {
            self.sample_durations(name, tasks.drop_last()).sample(
                name,
                self.jobs[tasks.last().job_id].label@,
                (self.now - tasks.last().start_time) as u64,
            )
        }
    }

    /// An arrival is admitted if the classical engine and the list of
    /// pending quantum tasks are both below their limits.
    pub open spec fn admits(self, config: Config) -> bool {
        &&& self.classical.len() < config.max_classical_tasks
        &&& self.pending.len() < config.max_quantum_tasks
    }

    /// An arrival is handled. If it is admitted it counts as accepted and
    /// uses up a job identifier; `made` is the job that was made for it, if
    /// one could be made, and that job is filed and its first task routed;
    /// if none could be made the arrival counts as failed as well.
    /// Otherwise the arrival counts as dropped. Either way the next arrival
    /// is queued, `gap` ns from now.
    pub open spec fn arrival(self, config: Config, gap: u64, made: Option<Job>) -> Kernel {
        let handled = if self.admits(config) {
            let k = Kernel {
                num_job_accepted: (self.num_job_accepted + 1) as u64,
                next_job_id: (self.next_job_id + 1) as u64,
                ..self
            };
            match made {
                Some(job) => Kernel { jobs: k.jobs.insert(job.job_id, job.advanced()), ..k }.route(
                    Task {
                        job_id: job.job_id,
                        task_type: job.phase_task().unwrap(),
                        start_time: self.now,
                        last_update: self.now,
                    },
                    config.num_quantum_computers,
                ),
                None => Kernel { num_job_failed: (self.num_job_failed + 1) as u64, ..k },
            }
        } else {
            Kernel { num_job_dropped: (self.num_job_dropped + 1) as u64, ..self }
        };
        handled.queue(Event::JobStart((self.now + gap) as u64))
    }

    /// The warm-up ends: samples are recorded from now on and, unless
    /// they are already, time averages are, each measuring from now on.
    pub open spec fn warmed_up(self) -> Kernel {
        if self.recording {
            Kernel { sampling: true, ..self }
        } else {
            Kernel {
                sampling: true,
                recording: true,
                warmup: self.now,
                time_avgs: self.time_avgs.map_values(|acc: TimeAvg| acc.restarted(self.now)),
                ..self
            }
        }
    }

    /// A pending task goes on the device that has become free, if a task
    /// is pending: the task that the policy picks, `drawn` being the index
    /// that was drawn for the policies that draw one. The tasks that stay
    /// pending stay in the order in which they came. The end of the task is
    /// queued, a whole iteration from now.
    pub open spec fn dispatch(self, policy: QuantumSchedulePolicy, drawn: usize) -> Kernel {
        if self.pending.len() > 0 {
            let index = picked(policy, self.pending.len(), drawn).unwrap() as int;
            let task = Task { last_update: self.now, ..self.pending[index] };
            let k = Kernel {
                pending: self.pending.remove(index),
                active: self.active.push(task),
                ..self
            }.queue(Event::QuantumIterationEnd((self.now + task.task_type.residual()) as u64));
            k.level("pending_quantum_tasks"@, k.pending.len()).level(
                "active_quantum_tasks"@,
                k.active.len(),
            )
        } else {
            self
        }
    }

    /// The end of a quantum iteration is handled. The first task on a
    /// device that ends now leaves it; if durations are saved, the time
    /// since the task started is added to the series `qc_iter_dur`; the
    /// task is followed up; and a pending task is dispatched.
    pub open spec fn quantum_end(
        self,
        config: Config,
        policy: QuantumSchedulePolicy,
        drawn: usize,
    ) -> Kernel {
        let pos = first_completed(self.active, self.now).unwrap();
        let ended = self.active[pos];
        let k1 = Kernel { active: swap_removed(self.active, pos), ..self };
        let k2 = k1.level("active_quantum_tasks"@, k1.active.len());
        let k3 = if config.save_iteration_durations {
            k2.sample(
                "qc_iter_dur"@,
                self.jobs[ended.job_id].label@,
                (self.now - ended.start_time) as u64,
            )
        } else {
            k2
        };
        k3.follow_up(ended, config.num_quantum_computers).dispatch(policy, drawn)
    }

    /// An update of the classical tasks is handled. Every task is charged
    /// for the operations done since its last update, at the capacity that
    /// the tasks in service share. The tasks that are then complete leave
    /// the engine; if durations are saved, the time since each started is
    /// added to the series `classical_dur`. If tasks remain, the next update
    /// is queued, as many ns from now as the least residual has operations.
    /// Then the tasks that have ended are followed up, in order.
    pub open spec fn classical_update(self, config: Config) -> Kernel {
        let capacity = capacity_at(
            self.classical,
            self.now,
            config.worker_capacity,
            config.num_serverless_workers,
        );
        let charged = debited_all(self.classical, self.now, capacity);
        let staying = unfinished(charged);
        let done = finished(charged);
        let k1 = Kernel { classical: staying, ..self };
        let k2 = if config.save_iteration_durations {
            k1.sample_durations("classical_dur"@, done)
        } else {
            k1
        };
        let k3 = match least_residual(staying) {
            Some(least) => k2.queue(Event::UpdateClassicalTasks((self.now + least) as u64)),
            None => k2,
        };
        k3.level("active_classical_tasks"@, staying.len()).follow_up_all(
            done,
            config.num_quantum_computers,
        )
    }

    /// The job is one that is made now for the number of qubits and the
    /// priority: in its preparation phase, under the next identifier, each
    /// parameter a value of its trace.
    pub open spec fn is_made(self, setup: Setup, num_qubits: u16, priority: u16, job: Job) -> bool {
        &&& setup.traces.drawn(num_qubits, job)
        &&& job.job_status == JobStatus::Preparation
        &&& job.job_type == JobType::Vqe(num_qubits)
        &&& job.num_qubits == num_qubits
        &&& job.priority == priority
        &&& job.label@ == Job::label_of(num_qubits, priority)
        &&& job.job_id == self.next_job_id
        &&& job.time_arrival == self.now
    }

    /// What holds of the job made for an arrival. If the arrival is
    /// admitted, a number of qubits and a priority are drawn among those
    /// set up; if the traces have values for that number of qubits, `made`
    /// is a job in its preparation phase with the next identifier, which
    /// arrives now and whose parameters are values of the traces; if they
    /// have none, no job is made. No job is made for an arrival that is not
    /// admitted.
    pub open spec fn makes(self, setup: Setup, made: Option<Job>) -> bool {
        if self.admits(setup.config) {
            match made {
                Some(job) => exists|num_qubits: u16, priority: u16|
                    {
                        &&& setup.qubits.contains(num_qubits)
                        &&& setup.priorities.contains(priority)
                        &&& #[trigger] self.is_made(setup, num_qubits, priority, job)
                    },
                None => exists|num_qubits: u16|
                    setup.qubits.contains(num_qubits) && !#[trigger] setup.traces.knows(num_qubits),
            }
        } else {
            made is None
        }
    }

    /// The next event has left the queue: simulated time has moved to its
    /// time and the length of the queue is recorded.
    pub open spec fn popped(self) -> Kernel {
        let k = Kernel {
            events: self.events.drop_first(),
            now: self.events[0].time(),
            num_events: (self.num_events + 1) as u64,
            ..self
        };
        k.level("event_queue_len"@, k.events.len())
    }

    /// The next event is handled. It leaves the queue, simulated time
    /// moves to its time, the length of the queue is recorded, and the
    /// event is handled by its kind. `gap` is the time to the next arrival
    /// and `made` the job made, if the event is an arrival; `drawn` is the
    /// index drawn by the policy, if it is the end of a quantum iteration.
    pub open spec fn step(self, setup: Setup, gap: u64, made: Option<Job>, drawn: usize) -> Kernel {
        let k = self.popped();
        match self.events[0] {
            Event::JobStart(_) => k.arrival(setup.config, gap, made),
            Event::WarmupPeriodEnd(_) => k.warmed_up(),
            Event::ExperimentEnd(_) => Kernel { finished: true, ..k },
            Event::Progress(_, _) => k,
            Event::QuantumIterationEnd(_) => k.quantum_end(setup.config, setup.policy, drawn),
            Event::UpdateClassicalTasks(_) => k.classical_update(setup.config),
        }
    }

    /// `next` is a state that handling the next event can lead to, the
    /// time to the next arrival being `gap`: the state after the step, for
    /// a job that can be made, if the event is an arrival, and for an index
    /// drawn among the pending tasks, if there are any. Simulated time is
    /// then the time of the event, which is not before the time it was; no
    /// event is queued for before; and the run is finished if the event is
    /// the end of the experiment, which comes at the end of its duration.
    pub open spec fn steps_to(self, next: Kernel, setup: Setup, gap: u64) -> bool {
        &&& next.now == self.events[0].time()
        &&& self.now <= next.now
        &&& none_before(next.events, next.now)
        &&& next.finished == (self.finished || self.events[0] is ExperimentEnd)
        &&& self.events[0] is ExperimentEnd ==> next.now == setup.config.duration
        &&& exists|made: Option<Job>, drawn: usize|
            {
                &&& next == #[trigger] self.step(setup, gap, made, drawn)
                &&& self.events[0] is JobStart ==> self.popped().makes(setup, made)
                &&& self.pending.len() > 0 ==> drawn < self.pending.len()
            }
    }

    /// Whether the next event is an arrival.
    pub open spec fn arrival_is_next(self) -> bool {
        self.events.len() > 0 && self.events[0] is JobStart
    }

    /// The time to the next arrival that the next event takes: the last
    /// of `gaps` if the event is an arrival, none otherwise.
    pub open spec fn gap_taken(self, gaps: Seq<u64>) -> u64 {
        if self.arrival_is_next() {
            gaps.last()
        } else {
            0
        }
    }

    /// The gaps that were taken before the next event takes its own.
    pub open spec fn gaps_before(self, gaps: Seq<u64>) -> Seq<u64> {
        if self.arrival_is_next() {
            gaps.drop_last()
        } else {
            gaps
        }
    }

    /// `end` is reached from this state by handling `n` events, the
    /// arrivals among them taking the `gaps` to the next arrival in order.
    pub open spec fn reaches(self, end: Kernel, setup: Setup, gaps: Seq<u64>, n: nat) -> bool
        decreases n,
    {
        if n == 0 {
            end == self && gaps.len() == 0
        } else {
            exists|mid: Kernel|
                {
                    &&& !mid.finished
                    &&& mid.events.len() > 0
                    &&& mid.arrival_is_next() ==> gaps.len() > 0
                    &&& self.reaches(mid, setup, mid.gaps_before(gaps), (n - 1) as nat)
                    &&& #[trigger] mid.steps_to(end, setup, mid.gap_taken(gaps))
                }
        }
    }
}

/// A series that has its header and no samples yet.
pub open spec fn headed() -> SeriesView {
    SeriesView { header: "num_qubits,priority"@, values: OutputSeriesSingle::initial().values }
}

/// The series with which a run begins: the times of the jobs and, if the
/// durations of the iterations are saved, those of the quantum and of the
/// classical tasks, each with its header and without samples.
pub open spec fn initial_series(save_iteration_durations: bool) -> Map<Seq<char>, SeriesView> {
    let job_time = Map::<Seq<char>, SeriesView>::empty().insert("job_time"@, headed());
    if save_iteration_durations {
        job_time.insert("qc_iter_dur"@, headed()).insert("classical_dur"@, headed())
    } else {
        job_time
    }
}

impl Setup {
    /// What a run of this configuration is set up with, drawing from the traces.
    pub open spec fn of(config: Config, traces: Traces) -> Setup {
        Setup {
            config,
            policy: QuantumSchedulePolicy::named(config.quantum_schedule_policy@).unwrap(),
            qubits: parsed_job_type(config.job_type@).unwrap(),
            priorities: parsed_priorities(config.priorities@).unwrap(),
            traces,
        }
    }
}

impl Kernel {
    /// The state in which a run begins: at time 0, with the first arrival,
    /// the end of the warm-up, the end of the experiment and the 99
    /// progress reports queued, no job, nothing recorded, and the series with
    /// their headers.
    pub open spec fn start(config: Config) -> Kernel {
        Kernel {
            now: 0,
            finished: false,
            events: pushed_all(
                Seq::empty(),
                initial_events(config.warmup_period, config.duration, 99),
            ),
            jobs: Map::empty(),
            classical: Seq::empty(),
            active: Seq::empty(),
            pending: Seq::empty(),
            next_job_id: 0,
            num_events: 0,
            num_job_accepted: 0,
            num_job_dropped: 0,
            num_job_failed: 0,
            recording: false,
            warmup: 0,
            time_avgs: Map::empty(),
            sampling: false,
            series: initial_series(config.save_iteration_durations),
        }
    }
}

impl Kernel {
    /// The one-shot scalars with which a run ends: the numbers of events
    /// handled and of arrivals admitted and turned away, if recording is
    /// enabled; none otherwise.
    pub open spec fn final_counts(self) -> Map<Seq<char>, u64> {
        if self.recording {
            Map::<Seq<char>, u64>::empty().insert("num_events"@, self.num_events).insert(
                "num_job_accepted"@,
                self.num_job_accepted,
            ).insert("num_job_dropped"@, self.num_job_dropped)
        } else {
            Map::<Seq<char>, u64>::empty()
        }
    }

    /// `out` is what this state hands out: its time averages and series,
    /// its final counts, and the configuration as a line of values.
    pub open spec fn reports(self, config: Config, out: Output) -> bool {
        &&& out.single.wf()
        &&& out.series.wf()
        &&& out.config_csv@ == config.csv_line()
        &&& out.single.enabled() == self.recording
        &&& out.single.warmup() == self.warmup
        &&& out.single.time_avgs() == self.time_avgs
        &&& out.single.one_times() == self.final_counts()
        &&& out.series.enabled() == self.sampling
        &&& out.series@ == self.series
    }

    /// The state after its metrics are handed out: it is left with no
    /// metrics, and records none.
    pub open spec fn handed_out(self) -> Kernel {
        Kernel {
            recording: false,
            warmup: 0,
            time_avgs: Map::empty(),
            sampling: false,
            series: Map::empty(),
            ..self
        }
    }
}

/// The queue with which a run begins is in order, begins with the first
/// arrival, at time 0, and holds the end of the experiment, once.
pub proof fn lemma_start_queue(warmup: u64, duration: u64, upto: int)
    ensures
        ({
            let q = pushed_all(Seq::empty(), initial_events(warmup, duration, upto));
            &&& sorted_by_time(q)
            &&& updates_unique(q)
            &&& q.len() > 0
            &&& q[0] == Event::JobStart(0)
            &&& q.contains(Event::ExperimentEnd(duration))
            &&& only_end(q, Event::ExperimentEnd(duration))
        }),
    decreases upto,
{
    let end = Event::ExperimentEnd(duration);
    let none = Seq::<Event>::empty();
    if upto <= 0 {
        let one = seq![Event::JobStart(0)];
        let two = seq![Event::JobStart(0), Event::WarmupPeriodEnd(warmup)];
        let three = initial_events(warmup, duration, upto);
        assert(one.drop_last() =~= none);
        assert(two.drop_last() =~= one);
        assert(three.drop_last() =~= two);
        assert(pushed_all(none, none) == none);
        let q1 = pushed_all(none, one);
        assert(q1 == pushed(none, Event::JobStart(0)));
        assert(q1 =~= one);
        let q2 = pushed_all(none, two);
        assert(q2 == pushed(q1, Event::WarmupPeriodEnd(warmup)));
        lemma_pushed_preserves_order(q1, Event::WarmupPeriodEnd(warmup));
        lemma_pushed_keeps_first(q1, Event::WarmupPeriodEnd(warmup));
        lemma_pushed_only_end(q1, Event::WarmupPeriodEnd(warmup), end);
        let q3 = pushed_all(none, three);
        assert(q3 == pushed(q2, end));
        lemma_pushed_preserves_order(q2, end);
        lemma_pushed_keeps_first(q2, end);
        lemma_pushed_only_end(q2, end, end);
        lemma_pushed_contains(q2, end, end);
    } else {
        let all = initial_events(warmup, duration, upto);
        let progress = all.last();
        assert(all.drop_last() =~= initial_events(warmup, duration, upto - 1));
        lemma_start_queue(warmup, duration, upto - 1);
        let before = pushed_all(none, initial_events(warmup, duration, upto - 1));
        assert(pushed_all(none, all) == pushed(before, progress));
        lemma_pushed_preserves_order(before, progress);
        lemma_pushed_keeps_first(before, progress);
        lemma_pushed_only_end(before, progress, end);
        lemma_pushed_contains(before, progress, end);
    }
}

/// A run begins at time 0, and the first event it handles is the first
/// arrival, at time 0.
pub proof fn lemma_start_begins_at_zero(config: Config)
    ensures
        Kernel::start(config).now == 0,
        !Kernel::start(config).finished,
        Kernel::start(config).events.len() > 0,
        Kernel::start(config).events[0] == Event::JobStart(0),
        sorted_by_time(Kernel::start(config).events),
        none_before(Kernel::start(config).events, 0),
        Kernel::start(config).events.contains(Event::ExperimentEnd(config.duration)),
{
    lemma_start_queue(config.warmup_period, config.duration, 99);
}

/// Simulated time does not go back over a run: the state reached is not
/// before the state left, no event is queued for before the time reached,
/// and a run that reaches the end of the experiment from before it ends at
/// the end of its duration. Every event handled on the way is handled at
/// its own time, which is the time reached by the part of the run that ends
/// with it: the times of the events handled do not decrease.
pub proof fn lemma_run_does_not_go_back(
    start: Kernel,
    end: Kernel,
    setup: Setup,
    gaps: Seq<u64>,
    n: nat,
)
    requires
        start.reaches(end, setup, gaps, n),
    ensures
        start.now <= end.now,
        n > 0 ==> none_before(end.events, end.now),
        !start.finished && end.finished ==> end.now == setup.config.duration,
    decreases n,
{
    if n > 0 {
        let mid = choose|mid: Kernel|
            {
                &&& !mid.finished
                &&& mid.events.len() > 0
                &&& mid.arrival_is_next() ==> gaps.len() > 0
                &&& start.reaches(mid, setup, mid.gaps_before(gaps), (n - 1) as nat)
                &&& #[trigger] mid.steps_to(end, setup, mid.gap_taken(gaps))
            };
        lemma_run_does_not_go_back(start, mid, setup, mid.gaps_before(gaps), (n - 1) as nat);
    }
}

/// A task that is routed joins exactly one list, as the last of it: a
/// classical task the classical engine, a quantum task the devices if one
/// of them is free and the pending tasks otherwise. The other lists and the
/// jobs stay as they are, and the devices do not hold more tasks than
/// there are devices. An update of the classical engine is queued for now
/// with a classical task, the end of the iteration with a quantum task that
/// goes on a device, and nothing with a task that has to wait.
pub proof fn lemma_route_joins_one_list(k: Kernel, task: Task, devices: usize)
    requires
        k.active.len() <= devices,
    ensures
        ({
            let after = k.route(task, devices);
            &&& after.jobs == k.jobs
            &&& after.now == k.now
            &&& after.active.len() <= devices
            &&& after.classical.len() + after.active.len() + after.pending.len()
                == k.classical.len() + k.active.len() + k.pending.len() + 1
            &&& match task.task_type {
                TaskType::Classical(_) => {
                    &&& after.classical == k.classical.push(task)
                    &&& after.active == k.active
                    &&& after.pending == k.pending
                    &&& after.events == pushed(k.events, Event::UpdateClassicalTasks(k.now))
                },
                TaskType::Quantum(duration) => {
                    &&& after.classical == k.classical
                    &&& if k.active.len() < devices {
                        &&& after.active == k.active.push(task)
                        &&& after.pending == k.pending
                        &&& after.events == pushed(
                            k.events,
                            Event::QuantumIterationEnd((k.now + duration) as u64),
                        )
                    } else {
                        &&& after.active == k.active
                        &&& after.pending == k.pending.push(task)
                        &&& after.events == k.events
                    }
                },
            }
        }),
{
}

/// The pending tasks are served in their order. Under the policy that
/// serves the task that has waited longest, the first pending task goes on
/// the device and the others stay as they are, so that the next task
/// served is the one that came next; under the policy that serves the task
/// that came last, the last pending task goes on the device and the others
/// stay as they are. Under any policy the task served leaves the list and
/// the others keep their places among themselves.
pub proof fn lemma_dispatch_keeps_order(k: Kernel, policy: QuantumSchedulePolicy, drawn: usize)
    requires
        0 < k.pending.len() <= usize::MAX,
        drawn < k.pending.len(),
    ensures
        ({
            let after = k.dispatch(policy, drawn);
            let index = picked(policy, k.pending.len(), drawn).unwrap() as int;
            &&& 0 <= index < k.pending.len()
            &&& after.pending == k.pending.remove(index)
            &&& after.active == k.active.push(Task { last_update: k.now, ..k.pending[index] })
            &&& after.classical == k.classical
            &&& after.jobs == k.jobs
            &&& policy == QuantumSchedulePolicy::Fifo ==> index == 0 && after.pending
                == k.pending.drop_first()
            &&& policy == QuantumSchedulePolicy::Lifo ==> index == k.pending.len() - 1
                && after.pending == k.pending.drop_last()
        }),
{
    let after = k.dispatch(policy, drawn);
    let index = picked(policy, k.pending.len(), drawn).unwrap() as int;
    let rest = k.pending.remove(index);
    assert(after.pending == rest);
    if index == 0 {
        assert(rest =~= k.pending.drop_first());
    }
    if index == k.pending.len() - 1 {
        assert(rest =~= k.pending.drop_last());
    }
}

/// Adding samples changes nothing but the series.
pub proof fn lemma_sample_durations_frame(k: Kernel, name: Seq<char>, tasks: Seq<Task>)
    ensures
        k.sample_durations(name, tasks) == (Kernel {
            series: k.sample_durations(name, tasks).series,
            ..k
        }),
    decreases tasks.len(),
{
    if tasks.len() > 0 {
        lemma_sample_durations_frame(k, name, tasks.drop_last());
    }
}

/// Nothing but the draws decides what an event leads to. Two states that
/// the same event can lead to are the same state, unless the event is an
/// arrival that is admitted, for which a job is drawn, or the end of a
/// quantum iteration under a policy that draws the task to dispatch.
pub proof fn lemma_only_draws_decide(
    state: Kernel,
    setup: Setup,
    gap: u64,
    first: Kernel,
    second: Kernel,
)
    requires
        state.steps_to(first, setup, gap),
        state.steps_to(second, setup, gap),
        state.events[0] is JobStart ==> !state.popped().admits(setup.config),
        state.events[0] is QuantumIterationEnd ==> setup.policy == QuantumSchedulePolicy::Fifo
            || setup.policy == QuantumSchedulePolicy::Lifo,
    ensures
        first == second,
{
    let (made1, drawn1) = choose|made: Option<Job>, drawn: usize|
        first == #[trigger] state.step(setup, gap, made, drawn) && (state.events[0] is JobStart
            ==> state.popped().makes(setup, made)) && (state.pending.len() > 0 ==> drawn
            < state.pending.len());
    let (made2, drawn2) = choose|made: Option<Job>, drawn: usize|
        second == #[trigger] state.step(setup, gap, made, drawn) && (state.events[0] is JobStart
            ==> state.popped().makes(setup, made)) && (state.pending.len() > 0 ==> drawn
            < state.pending.len());
    if state.events[0] is JobStart {
        assert(made1 is None && made2 is None);
    }
}

} // verus!
