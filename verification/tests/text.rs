use rand::{RngCore, SeedableRng};
use serverless_quantum_sim::classical::{
    count_in_service, debit, residual_of, share_capacity, smallest_residual,
    update_classical_tasks, GIGA,
};
use serverless_quantum_sim::config::{check_vqe, parse_job_type, parse_priorities, stream_seed};
use serverless_quantum_sim::error::SimulationError;
use serverless_quantum_sim::event::{Event, EventQueue};
use serverless_quantum_sim::names::{join_names, name_precedes, position, search, Named};
use serverless_quantum_sim::quantum::{
    check_weights, draw_index, find_completed, pick, QuantumSchedulePolicy,
};
use serverless_quantum_sim::task::{Task, TaskType};
use serverless_quantum_sim::text::{
    decimal_string, digit_of, parse_u16, read_trace_line, split_chars, to_chars,
    MalformedTraceLine, TraceLine,
};

fn chars(s: &str) -> Vec<char> {
    s.chars().collect()
}

fn classical(job_id: u64, residual: u64, last_update: u64) -> Task {
    Task { job_id, task_type: TaskType::Classical(residual), start_time: 0, last_update }
}

fn quantum(job_id: u64, residual: u64, last_update: u64) -> Task {
    Task { job_id, task_type: TaskType::Quantum(residual), start_time: 0, last_update }
}

#[test]
fn numbers_are_read_as_rust_reads_them() {
    for text in [
        "0", "1", "9", "10", "007", "65535", "65536", "99999", "4294967296", "+5", "+", "", "-0",
        "-1", " 1", "1 ", "1a", "a", "++1", "1+", "0x10", "٣", "00000000000000000000065535",
        "18446744073709551616",
    ] {
        assert_eq!(parse_u16(&chars(text)), text.parse::<u16>().ok(), "{:?}", text);
    }
    for n in [0u16, 1, 9, 10, 99, 100, 12345, 65534, 65535] {
        assert_eq!(parse_u16(&chars(&n.to_string())), Some(n));
    }
}

#[test]
fn digits_are_the_ten_ascii_digits() {
    for (k, c) in "0123456789".chars().enumerate() {
        assert_eq!(digit_of(c), Some(k as u32));
    }
    for c in ['a', '/', ':', ' ', '+', '٣'] {
        assert_eq!(digit_of(c), None);
    }
}

#[test]
fn decimal_strings_have_no_leading_zeros() {
    for n in [0u64, 1, 9, 10, 11, 99, 100, 101, 65535, 1_000_000_007, u64::MAX] {
        assert_eq!(decimal_string(n), n.to_string());
    }
}

#[test]
fn texts_are_split_as_rust_splits_them() {
    for text in ["", ";", "a", "a;b", ";a", "a;", "a;;b", ";;", "VQE;4;6;8;10", "1;2;4"] {
        let parts: Vec<String> =
            split_chars(&chars(text), ';').iter().map(|p| p.iter().collect()).collect();
        let expected: Vec<String> = text.split(';').map(|p| p.to_string()).collect();
        assert_eq!(parts, expected, "{:?}", text);
    }
    let parts = split_chars(&chars("4,0.25"), ',');
    assert_eq!(parts, vec![chars("4"), chars("0.25")]);
    assert_eq!(split_chars(&chars("a,b,c"), ',').len(), 3);
}

#[test]
fn to_chars_gives_the_characters() {
    assert_eq!(to_chars("a;é;٣"), chars("a;é;٣"));
    assert_eq!(to_chars(""), Vec::<char>::new());
}

#[test]
fn job_type_is_vqe_and_numbers() {
    assert_eq!(parse_job_type("VQE;4;6;8;10"), Some(vec![4, 6, 8, 10]));
    assert_eq!(parse_job_type("vqe;0"), Some(vec![0]));
    assert_eq!(parse_job_type("VqE;65535;+1"), Some(vec![65535, 1]));
    for bad in ["", "VQE", "VQE;", "VQE;4;", "QVE;4", "VQE4", "VQE;4,6", "VQEE;4", "VQ;4"] {
        assert_eq!(parse_job_type(bad), None, "{:?}", bad);
    }
    assert!(check_vqe(&chars("vQe")));
    assert!(!check_vqe(&chars("vq")));
    assert!(!check_vqe(&chars("vqa")));
}

#[test]
fn priorities_are_positive_numbers() {
    assert_eq!(parse_priorities("1;2;4"), Some(vec![1, 2, 4]));
    assert_eq!(parse_priorities("65535"), Some(vec![65535]));
    for bad in ["", "0", "1;0;2", "1;", ";1", "1;x", "65536"] {
        assert_eq!(parse_priorities(bad), None, "{:?}", bad);
    }
}

#[test]
fn stream_seeds_are_a_million_apart() {
    assert_eq!(stream_seed(42, 1), 1_000_042);
    assert_eq!(stream_seed(42, 2), 2_000_042);
    assert_eq!(stream_seed(0, 3), 3_000_000);
    assert_eq!(stream_seed(u64::MAX - 3_000_000, 3), u64::MAX);
}

#[test]
fn policies_are_read_by_name() {
    assert_eq!(QuantumSchedulePolicy::from_str("fifo"), Ok(QuantumSchedulePolicy::Fifo));
    assert_eq!(QuantumSchedulePolicy::from_str("lifo"), Ok(QuantumSchedulePolicy::Lifo));
    assert_eq!(QuantumSchedulePolicy::from_str("random"), Ok(QuantumSchedulePolicy::Random));
    assert_eq!(QuantumSchedulePolicy::from_str("weighted"), Ok(QuantumSchedulePolicy::Weighted));
    for bad in ["", "Fifo", "fifo;", "first"] {
        assert_eq!(
            QuantumSchedulePolicy::from_str(bad),
            Err(SimulationError::InvalidQuantumPolicy)
        );
    }
}

#[test]
fn policies_pick_by_position_or_by_draw() {
    for policy in [
        QuantumSchedulePolicy::Fifo,
        QuantumSchedulePolicy::Lifo,
        QuantumSchedulePolicy::Random,
        QuantumSchedulePolicy::Weighted,
    ] {
        assert_eq!(pick(policy, 0, 0), None);
    }
    assert_eq!(pick(QuantumSchedulePolicy::Fifo, 5, 3), Some(0));
    assert_eq!(pick(QuantumSchedulePolicy::Lifo, 5, 3), Some(4));
    assert_eq!(pick(QuantumSchedulePolicy::Random, 5, 3), Some(3));
    assert_eq!(pick(QuantumSchedulePolicy::Weighted, 5, 3), Some(3));
    assert_eq!(pick(QuantumSchedulePolicy::Lifo, 1, 0), Some(0));
}

#[test]
fn weights_fit_when_count_times_sum_fits_32_bits() {
    assert!(check_weights(&vec![]));
    assert!(check_weights(&vec![0, 0, 0]));
    assert!(check_weights(&vec![u32::MAX]));
    assert!(!check_weights(&vec![u32::MAX, 1]));
    assert!(!check_weights(&vec![u32::MAX, 0]));
    assert!(check_weights(&vec![u32::MAX / 2, 0]));
    assert!(check_weights(&vec![65535; 256]));
    assert!(!check_weights(&vec![65535; 257]));
    assert!(check_weights(&vec![4; 32767]));
    assert!(!check_weights(&vec![4; 32768]));
}

#[test]
fn completed_quantum_task_is_the_first_that_ends_now() {
    let active = vec![quantum(1, 5, 10), quantum(2, 7, 8), quantum(3, 7, 8), classical(4, 15, 0)];
    assert_eq!(find_completed(&active, 15), Some(0));
    assert_eq!(find_completed(&active, 15 + 0), Some(0));
    assert_eq!(find_completed(&vec![quantum(2, 7, 8), quantum(1, 5, 10)], 15), Some(0));
    assert_eq!(find_completed(&vec![quantum(2, 6, 8), quantum(1, 5, 10)], 15), Some(1));
    assert_eq!(find_completed(&active, 16), None);
    assert_eq!(find_completed(&vec![classical(4, 15, 0)], 15), None);
    assert_eq!(find_completed(&vec![quantum(1, 0, 20)], 10), None);
    assert_eq!(find_completed(&vec![quantum(1, u64::MAX, 1)], 0), None);
    assert_eq!(find_completed(&vec![], 0), None);
}

#[test]
fn capacity_is_shared_beyond_the_number_of_workers() {
    assert_eq!(share_capacity(GIGA, 2, 0), None);
    assert_eq!(share_capacity(GIGA, 2, 1), Some(GIGA));
    assert_eq!(share_capacity(GIGA, 2, 2), Some(GIGA));
    assert_eq!(share_capacity(GIGA, 2, 3), Some(666_666_666));
    assert_eq!(share_capacity(GIGA, 2, 4), Some(500_000_000));
    assert_eq!(share_capacity(10, 0, 3), Some(0));
    assert_eq!(share_capacity(u64::MAX, usize::MAX, 1), Some(u64::MAX));
    assert_eq!(share_capacity(u64::MAX, 2, 3), Some((2 * (u64::MAX as u128) / 3) as u64));
}

#[test]
fn debit_rounds_operations_up_and_stops_at_zero() {
    let t = classical(1, 100, 10);
    assert_eq!(debit(t, 10, Some(GIGA)), classical(1, 100, 10));
    assert_eq!(debit(t, 11, Some(GIGA)), classical(1, 99, 11));
    assert_eq!(debit(t, 11, Some(1)), classical(1, 99, 11));
    assert_eq!(debit(t, 13, Some(GIGA / 2)), classical(1, 98, 13));
    assert_eq!(debit(t, 13, Some(666_666_666)), classical(1, 98, 13));
    assert_eq!(debit(t, 110, Some(GIGA)), classical(1, 0, 110));
    assert_eq!(debit(t, 111, Some(GIGA)), classical(1, 0, 111));
    assert_eq!(debit(t, 20, Some(3 * GIGA)), classical(1, 70, 20));
    assert_eq!(debit(t, 50, None), classical(1, 100, 50));
    assert_eq!(debit(t, 50, Some(0)), classical(1, 100, 50));
    assert_eq!(debit(t, u64::MAX, Some(u64::MAX)), classical(1, 0, u64::MAX));
    let q = quantum(2, 100, 10);
    assert_eq!(debit(q, 60, Some(GIGA)), quantum(2, 100, 60));
    let started = Task { job_id: 3, task_type: TaskType::Classical(9), start_time: 4, last_update: 6 };
    assert_eq!(debit(started, 8, Some(GIGA)).start_time, 4);
}

#[test]
fn update_charges_tasks_in_service_and_returns_the_finished() {
    // two tasks in service since 0, one admitted now: two workers, full speed
    let mut tasks = vec![classical(1, 50, 0), classical(2, 20, 0), classical(3, 5, 20)];
    assert_eq!(count_in_service(&tasks, 20), 2);
    let done = update_classical_tasks(&mut tasks, 20, GIGA, 2);
    assert_eq!(done, vec![classical(2, 0, 20)]);
    assert_eq!(tasks, vec![classical(1, 30, 20), classical(3, 5, 20)]);
    assert_eq!(smallest_residual(&tasks), Some(5));

    // one worker for two tasks in service: half speed
    let mut tasks = vec![classical(1, 50, 0), classical(2, 10, 0), classical(3, 0, 20)];
    let done = update_classical_tasks(&mut tasks, 20, GIGA, 1);
    assert_eq!(done, vec![classical(2, 0, 20), classical(3, 0, 20)]);
    assert_eq!(tasks, vec![classical(1, 40, 20)]);

    // nothing in service: nothing is charged
    let mut tasks = vec![classical(1, 50, 7), classical(2, 0, 7)];
    assert_eq!(count_in_service(&tasks, 7), 0);
    let done = update_classical_tasks(&mut tasks, 7, GIGA, 1);
    assert_eq!(done, vec![classical(2, 0, 7)]);
    assert_eq!(tasks, vec![classical(1, 50, 7)]);

    let mut none: Vec<Task> = Vec::new();
    assert!(update_classical_tasks(&mut none, 7, GIGA, 1).is_empty());
    assert_eq!(smallest_residual(&none), None);
}

#[test]
fn lone_task_ends_after_its_residual_in_ns() {
    let arrival = 1_000;
    let residual = 2_500;
    let mut tasks = vec![Task {
        job_id: 9,
        task_type: TaskType::Classical(residual),
        start_time: arrival,
        last_update: arrival,
    }];
    assert!(update_classical_tasks(&mut tasks, arrival, GIGA, 1).is_empty());
    assert_eq!(smallest_residual(&tasks), Some(residual));
    let mut early = tasks.clone();
    assert!(update_classical_tasks(&mut early, arrival + residual - 1, GIGA, 1).is_empty());
    assert_eq!(residual_of(&early[0]), 1);
    let done = update_classical_tasks(&mut tasks, arrival + residual, GIGA, 1);
    assert_eq!(done.len(), 1);
    assert_eq!(done[0].start_time, arrival);
    assert_eq!(done[0].last_update, arrival + residual);
    assert!(tasks.is_empty());
}

#[test]
fn smallest_residual_is_the_least() {
    assert_eq!(smallest_residual(&vec![classical(1, 5, 0), classical(2, 3, 0), classical(3, 9, 0)]), Some(3));
    assert_eq!(smallest_residual(&vec![classical(1, 5, 0)]), Some(5));
    assert_eq!(residual_of(&quantum(1, 8, 0)), 8);
}

#[test]
fn queue_pops_by_time_and_first_pushed_first() {
    let mut q = EventQueue::new();
    assert_eq!(q.peek(), None);
    q.push(Event::ExperimentEnd(10));
    q.push(Event::JobStart(0));
    q.push(Event::Progress(10, 1));
    q.push(Event::WarmupPeriodEnd(0));
    q.push(Event::QuantumIterationEnd(5));
    q.push(Event::JobStart(10));
    assert_eq!(q.len(), 6);
    assert_eq!(q.peek(), Some(Event::JobStart(0)));
    assert_eq!(
        q.as_vec(),
        &vec![
            Event::JobStart(0),
            Event::WarmupPeriodEnd(0),
            Event::QuantumIterationEnd(5),
            Event::ExperimentEnd(10),
            Event::Progress(10, 1),
            Event::JobStart(10),
        ]
    );
    let mut last = 0;
    let mut popped = Vec::new();
    while let Some(e) = q.pop() {
        assert!(e.time() >= last);
        last = e.time();
        popped.push(e);
    }
    assert_eq!(popped.len(), 6);
    assert_eq!(popped[3], Event::ExperimentEnd(10));
    assert_eq!(q.len(), 0);
    assert_eq!(q.pop(), None);
}

#[test]
fn queue_holds_one_classical_update_per_time() {
    let mut q = EventQueue::new();
    q.push(Event::UpdateClassicalTasks(7));
    q.push(Event::UpdateClassicalTasks(7));
    q.push(Event::UpdateClassicalTasks(3));
    q.push(Event::QuantumIterationEnd(7));
    q.push(Event::QuantumIterationEnd(7));
    q.push(Event::UpdateClassicalTasks(7));
    assert_eq!(q.len(), 4);
    assert_eq!(q.pop(), Some(Event::UpdateClassicalTasks(3)));
    assert_eq!(q.pop(), Some(Event::UpdateClassicalTasks(7)));
    // once popped, the time can be queued again
    q.push(Event::UpdateClassicalTasks(7));
    assert_eq!(q.len(), 3);
    assert_eq!(q.pop(), Some(Event::QuantumIterationEnd(7)));
    assert_eq!(q.pop(), Some(Event::QuantumIterationEnd(7)));
    assert_eq!(q.pop(), Some(Event::UpdateClassicalTasks(7)));
    assert_eq!(q.pop(), None);
}

#[test]
fn default_queue_is_empty() {
    let mut q = EventQueue::default();
    assert_eq!(q.len(), 0);
    assert_eq!(q.pop(), None);
    q.push(Event::JobStart(3));
    assert_eq!(q.peek(), Some(Event::JobStart(3)));
}

#[test]
fn event_time_is_its_first_field() {
    assert_eq!(Event::JobStart(1).time(), 1);
    assert_eq!(Event::WarmupPeriodEnd(2).time(), 2);
    assert_eq!(Event::ExperimentEnd(3).time(), 3);
    assert_eq!(Event::Progress(4, 50).time(), 4);
    assert_eq!(Event::QuantumIterationEnd(5).time(), 5);
    assert_eq!(Event::UpdateClassicalTasks(6).time(), 6);
}

#[test]
fn position_finds_an_entry_by_name() {
    let entries = vec![
        Named { name: "a".to_string(), value: 1 },
        Named { name: "b".to_string(), value: 2 },
    ];
    assert_eq!(position(&entries, &"b".to_string()), Some(1));
    assert_eq!(position(&entries, &"a".to_string()), Some(0));
    assert_eq!(position(&entries, &"c".to_string()), None);
}

#[test]
fn names_are_ordered_as_strings_are() {
    let names = ["", "a", "A", "ab", "b", "aa", "é", "e", "z", "€", "𝄞", "a\u{0}", "~"];
    for a in names {
        for b in names {
            assert_eq!(name_precedes(&a.to_string(), &b.to_string()), a < b, "{:?} {:?}", a, b);
        }
    }
}

#[test]
fn search_finds_the_entry_or_its_place() {
    let entries: Vec<Named<u8>> =
        ["b", "d", "f"].iter().map(|n| Named { name: n.to_string(), value: 0 }).collect();
    assert_eq!(search(&entries, &"a".to_string()), Err(0));
    assert_eq!(search(&entries, &"b".to_string()), Ok(0));
    assert_eq!(search(&entries, &"c".to_string()), Err(1));
    assert_eq!(search(&entries, &"d".to_string()), Ok(1));
    assert_eq!(search(&entries, &"f".to_string()), Ok(2));
    assert_eq!(search(&entries, &"g".to_string()), Err(3));
    assert_eq!(search(&Vec::<Named<u8>>::new(), &"g".to_string()), Err(0));
    assert_eq!(join_names(&entries), "b,d,f");
    assert_eq!(join_names(&Vec::<Named<u8>>::new()), "");
}

#[test]
fn drawn_index_is_within_the_pending_tasks() {
    let mut rng = rand::rngs::StdRng::seed_from_u64(11);
    let weights = vec![1u32, 2, 4, 8];
    let mut seen = [false; 4];
    for _ in 0..200 {
        let i = draw_index(
            QuantumSchedulePolicy::Random,
            &weights,
            &mut rng,
        );
        assert!(i < 4);
        seen[i] = true;
    }
    assert_eq!(seen, [true; 4]);
    let mut seen = [false; 4];
    for _ in 0..400 {
        let i = draw_index(
            QuantumSchedulePolicy::Weighted,
            &weights,
            &mut rng,
        );
        assert!(i < 4);
        seen[i] = true;
    }
    assert_eq!(seen, [true; 4]);
    // a task without weight is never drawn
    for _ in 0..200 {
        let i = draw_index(
            QuantumSchedulePolicy::Weighted,
            &vec![0, 3, 0],
            &mut rng,
        );
        assert_eq!(i, 1);
    }
    for policy in [QuantumSchedulePolicy::Fifo, QuantumSchedulePolicy::Lifo] {
        assert_eq!(draw_index(policy, &weights, &mut rng), 0);
    }
    for policy in [QuantumSchedulePolicy::Random, QuantumSchedulePolicy::Weighted] {
        assert_eq!(draw_index(policy, &vec![], &mut rng), 0);
        assert_eq!(draw_index(policy, &vec![7], &mut rng), 0);
    }
}

#[test]
fn trace_lines_have_two_fields() {
    let line = read_trace_line("4,0.25").unwrap();
    assert_eq!(line, TraceLine { num_qubits: Some(4), value: chars("0.25") });
    let line = read_trace_line("x,1e-3").unwrap();
    assert_eq!(line, TraceLine { num_qubits: None, value: chars("1e-3") });
    let line = read_trace_line("70000,").unwrap();
    assert_eq!(line, TraceLine { num_qubits: None, value: chars("") });
    let line = read_trace_line(",").unwrap();
    assert_eq!(line, TraceLine { num_qubits: None, value: chars("") });
    assert_eq!(read_trace_line(""), Err(MalformedTraceLine { fields: 1 }));
    assert_eq!(read_trace_line("4"), Err(MalformedTraceLine { fields: 1 }));
    assert_eq!(read_trace_line("4,1,2"), Err(MalformedTraceLine { fields: 3 }));
    assert_eq!(read_trace_line(",,"), Err(MalformedTraceLine { fields: 3 }));
}

#[test]
fn only_the_random_policy_uses_the_generator() {
    let weights = vec![1u32, 2, 4, 8];
    for policy in [
        QuantumSchedulePolicy::Fifo,
        QuantumSchedulePolicy::Lifo,
        QuantumSchedulePolicy::Weighted,
    ] {
        let mut used = rand::rngs::StdRng::seed_from_u64(5);
        let mut fresh = rand::rngs::StdRng::seed_from_u64(5);
        for _ in 0..10 {
            draw_index(policy, &weights, &mut used);
        }
        assert_eq!(used.next_u64(), fresh.next_u64());
    }
    let mut used = rand::rngs::StdRng::seed_from_u64(5);
    let mut fresh = rand::rngs::StdRng::seed_from_u64(5);
    draw_index(QuantumSchedulePolicy::Random, &vec![], &mut used);
    assert_eq!(used.next_u64(), fresh.next_u64());
    let mut used = rand::rngs::StdRng::seed_from_u64(5);
    let mut fresh = rand::rngs::StdRng::seed_from_u64(5);
    draw_index(QuantumSchedulePolicy::Random, &weights, &mut used);
    assert_ne!(used.next_u64(), fresh.next_u64());
}

#[test]
fn weighted_policy_skips_tasks_without_weight() {
    let mut rng = rand::rngs::StdRng::seed_from_u64(3);
    for weights in [vec![0u32, 5], vec![5, 0], vec![0, 0, 1], vec![0, 7, 0, 9, 0]] {
        for _ in 0..300 {
            let i = draw_index(QuantumSchedulePolicy::Weighted, &weights, &mut rng);
            assert!(weights[i] > 0, "{:?} {}", weights, i);
        }
    }
    // without any weight, every task can be drawn
    let mut seen = [false; 3];
    for _ in 0..300 {
        seen[draw_index(QuantumSchedulePolicy::Weighted, &vec![0, 0, 0], &mut rng)] = true;
    }
    assert_eq!(seen, [true; 3]);
}
