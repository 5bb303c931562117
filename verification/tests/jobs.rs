use serverless_quantum_sim::job::{Job, JobError, JobFactory, JobStatus, JobType, TraceTable};
use serverless_quantum_sim::task::{Task, TaskType};

fn table(entries: &[(u16, u64)]) -> TraceTable {
    let mut t = TraceTable::new();
    for (q, v) in entries {
        t.add(*q, *v);
    }
    t
}

fn sample_factory(seed: u64) -> JobFactory {
    let mut pre = TraceTable::new();
    let mut iter = TraceTable::new();
    let mut post = TraceTable::new();
    let mut dur = TraceTable::new();
    let mut num = TraceTable::new();
    for q in [4u16, 6, 8, 10] {
        for k in 1..=5u64 {
            pre.add(q, 1_000_000 * k + q as u64);
            iter.add(q, 2_000_000 * k + q as u64);
            post.add(q, 3_000_000 * k + q as u64);
            dur.add(q, 4_000_000 * k + q as u64);
            num.add(q, 10 * k + q as u64);
        }
    }
    JobFactory::new(seed, pre, iter, post, dur, num)
}

#[test]
fn test_job_factory() {
    let mut jf = sample_factory(42);
    let num_qubits_choices = vec![4, 6, 8, 10];
    let mut id = 0;
    for i in 0..10 {
        for num_qubits in &num_qubits_choices {
            let job = jf.make(JobType::Vqe(*num_qubits), i, i as u64 * 1000).unwrap();
            println!("{:?}", job);
            assert!(job.num_operations_pre > 0);
            assert!(job.num_operations_iter > 0);
            assert!(job.num_operations_post > 0);
            assert!(job.dur_qc_iteration > 0);
            assert!(job.num_iterations > 0);
            assert!(job.num_iterations < 1000000);
            assert_eq!(i, job.priority);
            assert_eq!(i as u64 * 1000, job.time_arrival);
            assert_eq!(id, job.job_id);
            id += 1;
        }
    }

    assert!(jf.make(JobType::Vqe(999), 0, 0).is_err());
}

#[test]
fn made_job_draws_each_parameter_from_its_own_trace() {
    let mut jf = sample_factory(7);
    for _ in 0..50 {
        let job = jf.make(JobType::Vqe(6), 3, 77).unwrap();
        assert!(job.num_operations_pre % 1_000_000 == 6 && job.num_operations_pre < 6_000_000);
        assert!(job.num_operations_iter % 2_000_000 == 6 && job.num_operations_iter < 11_000_000);
        assert!(job.num_operations_post % 3_000_000 == 6 && job.num_operations_post < 16_000_000);
        assert!(job.dur_qc_iteration % 4_000_000 == 6 && job.dur_qc_iteration < 21_000_000);
        assert!(job.num_iterations % 10 == 6 && job.num_iterations <= 56);
        assert_eq!(job.num_qubits, 6);
        assert_eq!(job.job_type, JobType::Vqe(6));
        assert_eq!(job.job_status, JobStatus::Preparation);
        assert_eq!(job.label, "6,3");
    }
}

#[test]
fn draws_are_not_always_the_first_value() {
    let mut jf = sample_factory(1);
    let mut seen_other = false;
    for _ in 0..200 {
        let job = jf.make(JobType::Vqe(4), 1, 0).unwrap();
        if job.num_operations_pre != 1_000_004 {
            seen_other = true;
        }
    }
    assert!(seen_other);
}

#[test]
fn same_seed_gives_same_jobs() {
    let mut a = sample_factory(99);
    let mut b = sample_factory(99);
    for i in 0..40u16 {
        let ja = a.make(JobType::Vqe(8), i, 5).unwrap();
        let jb = b.make(JobType::Vqe(8), i, 5).unwrap();
        assert_eq!(ja.num_operations_pre, jb.num_operations_pre);
        assert_eq!(ja.num_operations_iter, jb.num_operations_iter);
        assert_eq!(ja.num_operations_post, jb.num_operations_post);
        assert_eq!(ja.dur_qc_iteration, jb.dur_qc_iteration);
        assert_eq!(ja.num_iterations, jb.num_iterations);
    }
}

#[test]
fn unknown_qubit_count_uses_up_an_identifier() {
    let mut jf = sample_factory(3);
    assert_eq!(jf.jobs_made(), 0);
    let err = jf.make(JobType::Vqe(5), 1, 0).unwrap_err();
    assert_eq!(err, JobError::UnknownQubitCount(5));
    assert_eq!(jf.jobs_made(), 1);
    let job = jf.make(JobType::Vqe(4), 1, 0).unwrap();
    assert_eq!(job.job_id, 1);
    assert_eq!(jf.jobs_made(), 2);
}

#[test]
fn a_trace_missing_a_key_makes_the_job_fail() {
    let pre = table(&[(4, 1)]);
    let iter = table(&[(4, 1)]);
    let post = table(&[(4, 1)]);
    let dur = table(&[(4, 1)]);
    let num = table(&[(6, 1)]);
    let mut jf = JobFactory::new(0, pre, iter, post, dur, num);
    assert_eq!(jf.make(JobType::Vqe(4), 1, 0).unwrap_err(), JobError::UnknownQubitCount(4));
    assert_eq!(jf.make(JobType::Vqe(6), 1, 0).unwrap_err(), JobError::UnknownQubitCount(6));
}

#[test]
fn trace_table_keeps_values_and_bounds() {
    let mut t = TraceTable::new();
    assert_eq!(t.bounds(), (u64::MAX, 0));
    assert!(t.get(4).is_none());
    t.add(4, 30);
    t.add(4, 10);
    t.add(6, 20);
    assert_eq!(t.get(4).unwrap(), &vec![30, 10]);
    assert_eq!(t.get(6).unwrap(), &vec![20]);
    assert!(t.get(8).is_none());
    assert_eq!(t.bounds(), (10, 30));
}

#[test]
fn largest_work_is_the_largest_of_four_traces() {
    let jf = JobFactory::new(
        0,
        table(&[(4, 5)]),
        table(&[(4, 9), (6, 2)]),
        table(&[(4, 7)]),
        table(&[(4, 8)]),
        table(&[(4, 1000)]),
    );
    assert_eq!(jf.largest_work(), 9);
}

fn job_with(num_iterations: u64) -> Job {
    Job::new(JobType::Vqe(4), 17, 100, 200, 300, 400, num_iterations, 5, 2)
}

#[test]
fn new_job_is_in_preparation() {
    let job = job_with(3);
    assert_eq!(job.job_status, JobStatus::Preparation);
    assert_eq!(job.job_id, 17);
    assert_eq!(job.num_operations_pre, 100);
    assert_eq!(job.num_operations_iter, 200);
    assert_eq!(job.num_operations_post, 300);
    assert_eq!(job.dur_qc_iteration, 400);
    assert_eq!(job.num_iterations, 3);
    assert_eq!(job.time_arrival, 5);
    assert_eq!(job.num_qubits, 4);
    assert_eq!(job.priority, 2);
    assert_eq!(job.label, "4,2");
}

#[test]
fn label_is_written_in_decimal() {
    let job = Job::new(JobType::Vqe(65535), 0, 0, 0, 0, 0, 1, 0, 10);
    assert_eq!(job.label, "65535,10");
    let job = Job::new(JobType::Vqe(0), 0, 0, 0, 0, 0, 1, 0, 0);
    assert_eq!(job.label, "0,0");
}

#[test]
fn job_emits_two_tasks_per_iteration_and_two_more() {
    for n in 1..=6u64 {
        let mut job = job_with(n);
        let mut emitted = Vec::new();
        let mut now = 1000;
        while let Some(task) = job.next_task(now) {
            assert_eq!(task.job_id, 17);
            assert_eq!(task.start_time, now);
            assert_eq!(task.last_update, now);
            emitted.push(task.task_type);
            now += 10;
        }
        assert_eq!(emitted.len() as u64, 2 * n + 2);
        assert_eq!(emitted[0], TaskType::Classical(100));
        for k in 1..=n as usize {
            assert_eq!(emitted[2 * k - 1], TaskType::Classical(200));
            assert_eq!(emitted[2 * k], TaskType::Quantum(400));
        }
        assert_eq!(emitted[2 * n as usize + 1], TaskType::Classical(300));
        assert_eq!(job.job_status, JobStatus::Completed);
        assert_eq!(job.next_task(now), None);
        assert_eq!(job.job_status, JobStatus::Completed);
    }
}

#[test]
fn job_walks_through_its_phases() {
    let mut job = job_with(2);
    assert_eq!(
        job.next_task(9),
        Some(Task { job_id: 17, task_type: TaskType::Classical(100), start_time: 9, last_update: 9 })
    );
    assert_eq!(job.job_status, JobStatus::ClassicalIteration(1));
    job.next_task(9);
    assert_eq!(job.job_status, JobStatus::QuantumIteration(1));
    job.next_task(9);
    assert_eq!(job.job_status, JobStatus::ClassicalIteration(2));
    job.next_task(9);
    assert_eq!(job.job_status, JobStatus::QuantumIteration(2));
    job.next_task(9);
    assert_eq!(job.job_status, JobStatus::Postprocessing);
    job.next_task(9);
    assert_eq!(job.job_status, JobStatus::Completed);
}
