use serverless_quantum_sim::config::Config;
use serverless_quantum_sim::error::{Interrupted, SimulationError};
use serverless_quantum_sim::event::Event;
use serverless_quantum_sim::job::{JobFactory, TraceTable};
use serverless_quantum_sim::output::{Output, OutputSeries, OutputSingle};
use serverless_quantum_sim::simulation::Simulation;
use serverless_quantum_sim::task::TaskType;

const SECOND: u64 = 1_000_000_000;
const NEVER: u64 = 1_000_000_000_000_000_000;

fn single_value(qubits: u16, value: u64) -> TraceTable {
    let mut t = TraceTable::new();
    t.add(qubits, value);
    t
}

fn factory(seed: u64, pre: u64, iter: u64, post: u64, dur_qc: u64, num_iterations: u64) -> JobFactory {
    JobFactory::new(
        seed,
        single_value(4, pre),
        single_value(4, iter),
        single_value(4, post),
        single_value(4, dur_qc),
        single_value(4, num_iterations),
    )
}

fn config(policy: &str) -> Config {
    Config {
        seed: 42,
        duration: 10 * SECOND,
        job_interarrival: SECOND,
        warmup_period: 0,
        worker_capacity: 1_000_000_000,
        num_serverless_workers: 1,
        num_quantum_computers: 1,
        max_classical_tasks: 50,
        max_quantum_tasks: 50,
        quantum_schedule_policy: policy.to_string(),
        job_type: "VQE;4".to_string(),
        priorities: "1".to_string(),
        save_iteration_durations: false,
    }
}

fn samples(series: &OutputSeries, name: &str, label: &str) -> Vec<u64> {
    for s in series.entries() {
        if s.name == name {
            for l in &s.value.values {
                if l.name == label {
                    return l.value.clone();
                }
            }
        }
    }
    Vec::new()
}

fn one_time(single: &OutputSingle, name: &str) -> Option<u64> {
    single.one_time_value(name)
}

fn run(config: Config, factory: JobFactory, gaps: &[u64]) -> Output {
    let mut sim = Simulation::new(config, factory).unwrap();
    sim.run(&gaps.to_vec()).unwrap()
}

fn conserved(sim: &Simulation) -> bool {
    sim.active_job_count()
        == sim.classical_tasks().len() + sim.quantum_tasks().len() + sim.pending_tasks().len()
}

#[test]
fn test_simulation_run() {
    let out = run(config("fifo"), factory(42, 0, 0, 0, 2 * SECOND, 1), &[NEVER]);
    assert_eq!(one_time(&out.single, "num_job_accepted"), Some(1));
    assert_eq!(one_time(&out.single, "num_job_dropped"), Some(0));
}

#[test]
fn single_quantum_task_takes_its_duration() {
    let out = run(config("fifo"), factory(42, 0, 0, 0, 2 * SECOND, 1), &[NEVER]);
    assert_eq!(samples(&out.series, "job_time", "4,1"), vec![2 * SECOND]);
    let headers: Vec<(String, String)> = out
        .series
        .entries()
        .iter()
        .map(|s| (s.name.clone(), s.value.header.clone()))
        .collect();
    assert_eq!(headers, vec![("job_time".to_string(), "num_qubits,priority".to_string())]);
    // the first arrival, the end of the warm-up, two classical updates at
    // 0, the end of the iteration and a classical update at 2 s, the 99
    // progress reports and the end of the experiment
    assert_eq!(one_time(&out.single, "num_events"), Some(2 + 2 + 2 + 99 + 1));
}

#[test]
fn fifo_serves_pending_tasks_in_order_of_arrival() {
    let out = run(config("fifo"), factory(1, 0, 0, 0, 3 * SECOND, 1), &[1, 1, NEVER]);
    assert_eq!(
        samples(&out.series, "job_time", "4,1"),
        vec![3 * SECOND, 6 * SECOND - 1, 9 * SECOND - 2]
    );
}

#[test]
fn fifo_keeps_the_pending_tasks_in_order_of_arrival() {
    // one device; jobs arrive at 0, 1, 2, 3 and 4 ns, each a single
    // iteration of 2 s: three and more wait, and are served as they came
    let mut c = config("fifo");
    c.duration = 20 * SECOND;
    let out = run(c, factory(1, 0, 0, 0, 2 * SECOND, 1), &[1, 1, 1, 1, NEVER]);
    assert_eq!(
        samples(&out.series, "job_time", "4,1"),
        vec![2 * SECOND, 4 * SECOND - 1, 6 * SECOND - 2, 8 * SECOND - 3, 10 * SECOND - 4]
    );
}

#[test]
fn fifo_leaves_the_rest_of_the_pending_tasks_as_they_came() {
    let mut sim = Simulation::new(config("fifo"), factory(1, 0, 0, 0, 2 * SECOND, 1)).unwrap();
    let mut arrivals = 0;
    loop {
        let gap = if arrivals < 3 { 1 } else { NEVER };
        assert!(sim.check_step(gap));
        match sim.step(gap) {
            Event::JobStart(_) => arrivals += 1,
            Event::QuantumIterationEnd(_) => break,
            _ => {},
        }
        if arrivals == 4 && sim.pending_tasks().len() == 3 {
            let waiting: Vec<u64> = sim.pending_tasks().iter().map(|t| t.job_id).collect();
            assert_eq!(waiting, vec![1, 2, 3]);
        }
    }
    // the first job has left its device, the second is on it
    let on_device: Vec<u64> = sim.quantum_tasks().iter().map(|t| t.job_id).collect();
    let waiting: Vec<u64> = sim.pending_tasks().iter().map(|t| t.job_id).collect();
    assert_eq!(on_device, vec![1]);
    assert_eq!(waiting, vec![2, 3]);
}

#[test]
fn lifo_takes_the_last_and_leaves_the_rest_as_they_came() {
    let mut c = config("lifo");
    c.duration = 20 * SECOND;
    let out = run(c, factory(1, 0, 0, 0, 2 * SECOND, 1), &[1, 1, 1, 1, NEVER]);
    // served: the job of 0 ns, then those of 4, 3, 2 and 1 ns
    assert_eq!(
        samples(&out.series, "job_time", "4,1"),
        vec![2 * SECOND, 4 * SECOND - 4, 6 * SECOND - 3, 8 * SECOND - 2, 10 * SECOND - 1]
    );
}

#[test]
fn lifo_serves_the_latest_pending_task_first() {
    let out = run(config("lifo"), factory(1, 0, 0, 0, 3 * SECOND, 1), &[1, 1, NEVER]);
    assert_eq!(
        samples(&out.series, "job_time", "4,1"),
        vec![3 * SECOND, 6 * SECOND - 2, 9 * SECOND - 1]
    );
}

#[test]
fn random_and_weighted_serve_every_pending_task() {
    for policy in ["random", "weighted"] {
        let mut c = config(policy);
        c.priorities = "1;2;4".to_string();
        let out = run(c, factory(5, 0, 0, 0, SECOND, 1), &[1, 1, 1, 1, NEVER]);
        let mut all: Vec<u64> = Vec::new();
        for s in out.series.entries() {
            assert_eq!(s.name, "job_time");
            for l in &s.value.values {
                assert!(l.name == "4,1" || l.name == "4,2" || l.name == "4,4");
                all.extend(l.value.iter());
            }
        }
        all.sort();
        // the jobs arrive at 0, 1, 2, 3 and 4 ns and end at 1, 2, 3, 4 and
        // 5 s, the first at 1 s and the others in the order that was drawn
        assert_eq!(all.len(), 5);
        assert_eq!(all[0], SECOND);
        for (k, v) in all.iter().enumerate() {
            let end = (k as u64 + 1) * SECOND;
            assert!(*v <= end && *v >= end - 4, "{} {}", k, v);
        }
        let total: u64 = all.iter().sum();
        assert_eq!(total, 15 * SECOND - 10);
    }
}

#[test]
fn two_tasks_on_two_workers_run_at_full_speed() {
    let mut c = config("fifo");
    c.num_serverless_workers = 2;
    c.save_iteration_durations = true;
    let out = run(c, factory(1, 2 * SECOND, 0, 0, 1, 1), &[0, NEVER]);
    let durations = samples(&out.series, "classical_dur", "4,1");
    // for each job the preparation, then two phases without operations
    assert_eq!(durations.len(), 6);
    assert_eq!(durations.iter().filter(|d| **d == 2 * SECOND).count(), 2);
    assert_eq!(durations.iter().filter(|d| **d == 0).count(), 4);
    // one device: the second iteration waits 1 ns for the first
    assert_eq!(samples(&out.series, "qc_iter_dur", "4,1"), vec![1, 2]);
    assert_eq!(
        samples(&out.series, "job_time", "4,1"),
        vec![2 * SECOND + 1, 2 * SECOND + 2]
    );
}

#[test]
fn two_tasks_on_one_worker_share_it() {
    let mut c = config("fifo");
    c.save_iteration_durations = true;
    let out = run(c, factory(1, 2 * SECOND, 0, 0, 1, 1), &[0, NEVER]);
    let durations = samples(&out.series, "classical_dur", "4,1");
    // at half speed each: the update at 2 s leaves 1e9 operations, the
    // one at 3 s leaves 5e8, and so on, halving until a single operation is
    // left; both end together
    let long: Vec<u64> = durations.iter().copied().filter(|d| *d > 0).collect();
    assert_eq!(long.len(), 2);
    assert_eq!(long[0], long[1]);
    assert!(long[0] > 3 * SECOND && long[0] <= 4 * SECOND);
}

#[test]
fn lone_classical_task_ends_after_one_ns_per_operation() {
    let mut c = config("fifo");
    c.save_iteration_durations = true;
    c.num_serverless_workers = 3;
    let out = run(c, factory(1, 123_456_789, 1_000, 77, 5, 2), &[NEVER]);
    assert_eq!(
        samples(&out.series, "classical_dur", "4,1"),
        vec![123_456_789, 1_000, 1_000, 77]
    );
    assert_eq!(samples(&out.series, "qc_iter_dur", "4,1"), vec![5, 5]);
    assert_eq!(samples(&out.series, "job_time", "4,1"), vec![123_456_789 + 2_000 + 10 + 77]);
}

#[test]
fn every_arrival_is_dropped_when_nothing_is_admitted() {
    let mut c = config("fifo");
    c.max_classical_tasks = 0;
    c.max_quantum_tasks = 0;
    let gaps = vec![SECOND; 20];
    let out = run(c, factory(1, 1, 1, 1, 1, 1), &gaps);
    assert_eq!(one_time(&out.single, "num_job_accepted"), Some(0));
    // arrivals at 0, 1, ..., 9 s; the one at 10 s is behind the end
    assert_eq!(one_time(&out.single, "num_job_dropped"), Some(10));
    assert_eq!(one_time(&out.single, "num_events"), Some(10 + 1 + 99 + 1));
    assert!(samples(&out.series, "job_time", "4,1").is_empty());
}

#[test]
fn one_limit_at_zero_is_enough_to_drop() {
    for (max_classical, max_quantum) in [(0, 50), (50, 0)] {
        let mut c = config("fifo");
        c.max_classical_tasks = max_classical;
        c.max_quantum_tasks = max_quantum;
        let out = run(c, factory(1, 1, 1, 1, 1, 1), &[NEVER]);
        assert_eq!(one_time(&out.single, "num_job_accepted"), Some(0));
        assert_eq!(one_time(&out.single, "num_job_dropped"), Some(1));
    }
}

#[test]
fn classical_updates_of_one_time_are_queued_once() {
    let mut c = config("fifo");
    c.num_serverless_workers = 4;
    let mut sim = Simulation::new(c, factory(1, 5 * SECOND, 1, 1, 1, 1)).unwrap();
    let arrivals = 6;
    let mut handled = 0;
    while handled < arrivals {
        let gap = if handled + 1 < arrivals { 0 } else { NEVER };
        assert!(sim.check_step(gap));
        if let Event::JobStart(t) = sim.step(gap) {
            assert_eq!(t, 0);
            handled += 1;
        }
        let updates = sim
            .queued_events()
            .iter()
            .filter(|e| matches!(e, Event::UpdateClassicalTasks(_)))
            .count();
        assert!(updates <= 2);
        let at_zero = sim
            .queued_events()
            .iter()
            .filter(|e| matches!(e, Event::UpdateClassicalTasks(0)))
            .count();
        assert!(at_zero <= 1);
        assert!(conserved(&sim));
    }
    assert_eq!(sim.classical_tasks().len(), arrivals);
    // handle what is left at time 0
    while sim.queued_events()[0].time() == 0 {
        assert!(sim.check_step(0));
        sim.step(0);
    }
    let updates: Vec<&Event> = sim
        .queued_events()
        .iter()
        .filter(|e| matches!(e, Event::UpdateClassicalTasks(_)))
        .collect();
    assert_eq!(updates, vec![&Event::UpdateClassicalTasks(5 * SECOND)]);
}

#[test]
fn time_does_not_go_back_and_jobs_are_conserved() {
    for policy in ["fifo", "lifo", "random", "weighted"] {
        let mut c = config(policy);
        c.num_quantum_computers = 2;
        c.num_serverless_workers = 2;
        c.max_classical_tasks = 3;
        c.max_quantum_tasks = 2;
        c.priorities = "1;3".to_string();
        let mut pre = TraceTable::new();
        let mut iter = TraceTable::new();
        let mut post = TraceTable::new();
        let mut dur = TraceTable::new();
        let mut num = TraceTable::new();
        for k in 1..=4u64 {
            pre.add(4, 100_000_000 * k);
            iter.add(4, 30_000_000 * k);
            post.add(4, 50_000_000 * k);
            dur.add(4, 200_000_000 * k);
            num.add(4, k);
        }
        let mut sim = Simulation::new(c, JobFactory::new(3, pre, iter, post, dur, num)).unwrap();
        let mut last = 0;
        let mut arrivals = 0;
        let mut steps = 0;
        assert_eq!(sim.queued_events()[0], Event::JobStart(0));
        while !sim.is_finished() {
            let gap = 150_000_000 + 1_000 * steps;
            assert!(sim.check_step(gap));
            let admits = sim.classical_tasks().len() < 3 && sim.pending_tasks().len() < 2;
            let accepted = sim.jobs_accepted();
            let dropped = sim.jobs_dropped();
            let event = sim.step(gap);
            steps += 1;
            assert!(event.time() >= last);
            assert_eq!(sim.current_time(), event.time());
            last = event.time();
            if let Event::JobStart(_) = event {
                arrivals += 1;
                if admits {
                    assert_eq!(sim.jobs_accepted(), accepted + 1);
                    assert_eq!(sim.jobs_dropped(), dropped);
                } else {
                    assert_eq!(sim.jobs_accepted(), accepted);
                    assert_eq!(sim.jobs_dropped(), dropped + 1);
                }
            } else {
                assert_eq!(sim.jobs_accepted(), accepted);
                assert_eq!(sim.jobs_dropped(), dropped);
            }
            assert_eq!(sim.jobs_accepted() + sim.jobs_dropped(), arrivals);
            assert!(conserved(&sim));
            let mut ids: Vec<u64> = sim
                .classical_tasks()
                .iter()
                .chain(sim.quantum_tasks().iter())
                .chain(sim.pending_tasks().iter())
                .map(|t| t.job_id)
                .collect();
            ids.sort();
            ids.dedup();
            assert_eq!(ids.len(), sim.active_job_count());
            for e in sim.queued_events() {
                assert!(e.time() >= sim.current_time());
            }
            assert!(sim.quantum_tasks().len() <= 2);
            assert_eq!(sim.events_handled(), steps);
            for t in sim.classical_tasks() {
                assert!(matches!(t.task_type, TaskType::Classical(_)));
            }
            for t in sim.quantum_tasks().iter().chain(sim.pending_tasks().iter()) {
                assert!(matches!(t.task_type, TaskType::Quantum(_)));
            }
        }
        assert!(sim.jobs_dropped() > 0);
        assert!(sim.jobs_accepted() > 3);
        assert_eq!(last, 10 * SECOND);
        assert!(!sim.check_step(0));
    }
}

#[test]
fn two_runs_of_one_configuration_agree() {
    let make = || {
        let mut c = config("random");
        c.num_quantum_computers = 1;
        c.priorities = "1;2".to_string();
        c.save_iteration_durations = true;
        c.warmup_period = SECOND;
        let mut pre = TraceTable::new();
        let mut dur = TraceTable::new();
        let mut num = TraceTable::new();
        for k in 1..=5u64 {
            pre.add(4, 10_000_000 * k);
            dur.add(4, 300_000_000 * k);
            num.add(4, k);
        }
        let f = JobFactory::new(9, pre, single_value(4, 1_000), single_value(4, 2_000), dur, num);
        let gaps: Vec<u64> = (0..60).map(|k| 200_000_000 + 7 * k).collect();
        run(c, f, &gaps)
    };
    let a = make();
    let b = make();
    assert_eq!(a.config_csv, b.config_csv);
    assert_eq!(a.single.one_time_entries().len(), b.single.one_time_entries().len());
    for (x, y) in a.single.one_time_entries().iter().zip(b.single.one_time_entries()) {
        assert_eq!((&x.name, x.value), (&y.name, y.value));
    }
    for (x, y) in a.single.time_avg_entries().iter().zip(b.single.time_avg_entries()) {
        assert_eq!((&x.name, x.value), (&y.name, y.value));
    }
    assert_eq!(a.series.entries().len(), b.series.entries().len());
    for (x, y) in a.series.entries().iter().zip(b.series.entries()) {
        assert_eq!(x.name, y.name);
        assert_eq!(x.value.header, y.value.header);
        assert_eq!(x.value.values.len(), y.value.values.len());
        for (u, v) in x.value.values.iter().zip(&y.value.values) {
            assert_eq!((&u.name, &u.value), (&v.name, &v.value));
        }
    }
    assert!(!samples(&a.series, "job_time", "4,1").is_empty() || !samples(&a.series, "job_time", "4,2").is_empty());
}

#[test]
fn nothing_is_measured_before_the_warmup_ends() {
    let mut c = config("fifo");
    c.warmup_period = 5 * SECOND;
    c.save_iteration_durations = true;
    // one job from 0 to 2 s, one from 6 s to 8 s
    let out = run(c, factory(1, 0, 0, 0, 2 * SECOND, 1), &[6 * SECOND, NEVER]);
    assert_eq!(samples(&out.series, "job_time", "4,1"), vec![2 * SECOND]);
    assert_eq!(samples(&out.series, "qc_iter_dur", "4,1"), vec![2 * SECOND]);
    let active = out.single.time_avg_value("active_quantum_tasks").unwrap();
    // the level is 1 from 6 s to 8 s, and the last change is at 8 s
    assert_eq!(active.avg(), ((2 * SECOND) as u128, 3 * SECOND));
    assert_eq!(active.last_update, 8 * SECOND);
    let queue = out.single.time_avg_value("event_queue_len").unwrap();
    assert_eq!(queue.last_update, 10 * SECOND);
    assert_eq!(queue.sum_time, 5 * SECOND);
    assert_eq!(one_time(&out.single, "num_job_accepted"), Some(2));
}

#[test]
fn one_shot_counts_are_lost_if_the_warmup_never_ends() {
    let mut c = config("fifo");
    c.warmup_period = 11 * SECOND;
    let out = run(c, factory(1, 0, 0, 0, 2 * SECOND, 1), &[NEVER]);
    assert!(!out.single.is_enabled());
    assert_eq!(one_time(&out.single, "num_events"), None);
    assert!(samples(&out.series, "job_time", "4,1").is_empty());
}

#[test]
fn run_stops_when_the_gaps_are_used_up() {
    let mut sim = Simulation::new(config("fifo"), factory(1, 1, 1, 1, 1, 1)).unwrap();
    let result = sim.run(&vec![SECOND, SECOND]);
    assert_eq!(result.err(), Some(Interrupted::ArrivalsExhausted));
    assert!(!sim.is_finished());
    assert_eq!(sim.queued_events()[0], Event::JobStart(2 * SECOND));
    assert_eq!(sim.jobs_accepted(), 2);
    let out = sim.run(&vec![NEVER]).unwrap();
    assert_eq!(one_time(&out.single, "num_job_accepted"), Some(3));
    assert!(sim.is_finished());
}

#[test]
fn run_stops_when_the_next_arrival_is_beyond_the_clock() {
    let mut sim = Simulation::new(config("fifo"), factory(1, 1, 1, 1, 1, 1)).unwrap();
    let result = sim.run(&vec![SECOND, u64::MAX]);
    assert_eq!(result.err(), Some(Interrupted::CannotStep));
    assert_eq!(sim.queued_events()[0], Event::JobStart(SECOND));
    assert!(!sim.check_step(u64::MAX));
    assert!(sim.check_step(u64::MAX - SECOND));
}

#[test]
fn a_run_begins_with_the_initial_events() {
    let mut c = config("fifo");
    c.warmup_period = 3;
    c.duration = 1_000;
    let sim = Simulation::new(c, factory(1, 1, 1, 1, 1, 1)).unwrap();
    let events = sim.queued_events();
    assert_eq!(events.len(), 102);
    assert_eq!(events[0], Event::JobStart(0));
    assert_eq!(events[1], Event::WarmupPeriodEnd(3));
    assert_eq!(events[2], Event::Progress(10, 1));
    assert_eq!(events[3], Event::Progress(20, 2));
    assert_eq!(events[100], Event::Progress(990, 99));
    assert_eq!(events[101], Event::ExperimentEnd(1_000));
    assert_eq!(sim.current_time(), 0);
    assert_eq!(sim.events_handled(), 0);
    assert_eq!(sim.active_job_count(), 0);
    assert!(!sim.is_finished());
    assert!(!sim.metrics().is_enabled());
    assert_eq!(sim.samples().entries().len(), 1);
    assert_eq!(sim.samples().entries()[0].name, "job_time");
    assert_eq!(sim.samples().entries()[0].value.header, "num_qubits,priority");
    assert_eq!(sim.configuration().duration, 1_000);
}

#[test]
fn progress_times_are_rounded_down() {
    let mut c = config("fifo");
    c.duration = 250;
    let sim = Simulation::new(c, factory(1, 1, 1, 1, 1, 1)).unwrap();
    let times: Vec<(u64, u16)> = sim
        .queued_events()
        .iter()
        .filter_map(|e| if let Event::Progress(t, p) = e { Some((*t, *p)) } else { None })
        .collect();
    assert_eq!(times.len(), 99);
    for (t, p) in times {
        assert_eq!(t, p as u64 * 250 / 100);
    }
}

fn rejected(c: Config) -> SimulationError {
    match Simulation::new(c, factory(1, 1, 1, 1, 1, 1)) {
        Ok(_) => panic!("accepted"),
        Err(e) => e,
    }
}

#[test]
fn configurations_are_rejected_in_order() {
    let mut c = config("fifo");
    c.duration = 0;
    c.job_interarrival = 0;
    assert_eq!(rejected(c), SimulationError::VanishingDuration);
    let mut c = config("fifo");
    c.job_interarrival = 0;
    c.job_type = "x".to_string();
    assert_eq!(rejected(c), SimulationError::VanishingInterarrival);
    for bad in ["", "VQE", "VQA;4", "VQE;", "VQE;4;", "VQE;4;x", "VQE;65536", "VQE;-1", "VQE; 4", "4;VQE"] {
        let mut c = config("fifo");
        c.job_type = bad.to_string();
        c.priorities = "0".to_string();
        assert_eq!(rejected(c), SimulationError::InvalidJobType, "{}", bad);
    }
    for bad in ["", "0", "1;0", "1;;2", "a", "1;2;", "65536", "-1"] {
        let mut c = config("nope");
        c.priorities = bad.to_string();
        assert_eq!(rejected(c), SimulationError::InvalidPriorities, "{}", bad);
    }
    for bad in ["", "FIFO", "fifo ", "round-robin"] {
        assert_eq!(rejected(config(bad)), SimulationError::InvalidQuantumPolicy, "{}", bad);
    }
}

#[test]
fn job_types_and_priorities_are_read_as_lists() {
    for good in ["VQE;4", "vqe;4", "Vqe;4;4;4", "vQE;+4;04"] {
        let mut c = config("fifo");
        c.job_type = good.to_string();
        let out = run(c, factory(1, 0, 0, 0, SECOND, 1), &[NEVER]);
        assert_eq!(samples(&out.series, "job_time", "4,1"), vec![SECOND], "{}", good);
    }
    let mut c = config("fifo");
    c.priorities = "7;+7;007".to_string();
    let out = run(c, factory(1, 0, 0, 0, SECOND, 1), &[NEVER]);
    assert_eq!(samples(&out.series, "job_time", "4,7"), vec![SECOND]);
}

#[test]
fn unknown_qubits_count_as_accepted_and_leave_no_job() {
    let mut c = config("fifo");
    c.job_type = "VQE;6".to_string();
    let mut sim = Simulation::new(c, factory(1, 1, 1, 1, 1, 1)).unwrap();
    assert!(sim.check_step(NEVER));
    assert_eq!(sim.step(NEVER), Event::JobStart(0));
    assert_eq!(sim.jobs_accepted(), 1);
    assert_eq!(sim.jobs_dropped(), 0);
    assert_eq!(sim.jobs_failed(), 1);
    assert_eq!(sim.last_failed_draw(), Some((6, 1)));
    assert_eq!(sim.active_job_count(), 0);
    assert!(sim.classical_tasks().is_empty());
    assert!(sim.check_step(NEVER));
    assert_eq!(sim.step(NEVER), Event::WarmupPeriodEnd(0));
    assert_eq!(sim.jobs_failed(), 1);
}

#[test]
fn no_job_fails_when_the_traces_know_the_qubits() {
    let mut sim = Simulation::new(config("fifo"), factory(1, 1, 1, 1, 1, 1)).unwrap();
    let out = sim.run(&vec![SECOND; 20]).unwrap();
    assert_eq!(sim.jobs_failed(), 0);
    assert_eq!(sim.last_failed_draw(), None);
    assert_eq!(sim.jobs_accepted(), 10);
    assert_eq!(one_time(&out.single, "num_job_accepted"), Some(10));
}

#[test]
fn output_writes_the_configuration_with_times_in_ns() {
    let out = run(config("lifo"), factory(1, 0, 0, 0, SECOND, 1), &[NEVER]);
    assert_eq!(
        out.config_csv,
        "42,10000000000,1000000000,0,1000000000,1,1,50,50,lifo,VQE;4,1"
    );
    assert_eq!(Config::header().matches(',').count(), out.config_csv.matches(',').count());
    assert_eq!(
        Config::header(),
        "seed,duration,job_interarrival,warmup_period,worker_capacity,num_serverless_workers,num_quantum_computers,max_classical_tasks,max_quantum_tasks,quantum_schedule_policy,job_type,priorities"
    );
    let names: Vec<&str> = out.single.time_avg_entries().iter().map(|e| e.name.as_str()).collect();
    assert_eq!(
        names,
        vec!["active_classical_tasks", "active_quantum_tasks", "event_queue_len"]
    );
    assert_eq!(
        out.single.header(),
        "num_events,num_job_accepted,num_job_dropped,active_classical_tasks,active_quantum_tasks,event_queue_len"
    );
    let names: Vec<&str> = out.single.one_time_entries().iter().map(|e| e.name.as_str()).collect();
    assert_eq!(names, vec!["num_events", "num_job_accepted", "num_job_dropped"]);
}

#[test]
fn weighted_dispatch_takes_one_pending_task() {
    let mut c = config("weighted");
    c.priorities = "65535".to_string();
    let mut sim = Simulation::new(c, factory(1, 0, 0, 0, SECOND, 1)).unwrap();
    let mut arrivals = 0;
    loop {
        let gap = if arrivals < 4 { 1 } else { NEVER };
        assert!(sim.check_step(gap));
        match sim.step(gap) {
            Event::JobStart(_) => arrivals += 1,
            Event::QuantumIterationEnd(t) => {
                assert_eq!(t, SECOND);
                break;
            },
            _ => {},
        }
    }
    assert_eq!(arrivals, 5);
    assert_eq!(sim.quantum_tasks().len(), 1);
    assert_eq!(sim.pending_tasks().len(), 3);
    assert_eq!(sim.classical_tasks().len(), 1);
    assert_eq!(sim.quantum_tasks()[0].last_update, SECOND);
    assert!(sim.quantum_tasks()[0].start_time <= 4);
    assert!(sim.queued_events().contains(&Event::QuantumIterationEnd(2 * SECOND)));
}
