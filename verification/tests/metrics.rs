use serverless_quantum_sim::output::{OutputSeries, OutputSingle, TimeAvg};

#[test]
fn test_time_avg() {
    let warmups = [0, 5];
    let expected_values = [1.9, 2.0];
    for (warmup, expected_value) in warmups.iter().zip(expected_values.iter()) {
        let mut single = OutputSingle::new();
        single.enable(*warmup);
        single.time_avg("metric", 20, 1);
        single.time_avg("metric", 30, 2);
        single.time_avg("metric", 40, 1);
        single.time_avg("metric", 50, 3);
        single.finish(100);

        let metric = single.time_avg_value("metric").unwrap();
        let (sum_values, sum_time) = metric.avg();
        let avg = sum_values as f64 / sum_time as f64;

        assert!(
            avg == *expected_value,
            "{} != {} (sum {}, time {}, warmup {})",
            avg,
            *expected_value,
            metric.sum_values,
            metric.sum_time,
            warmup
        );
    }
}

#[test]
fn time_avg_sums_are_exact() {
    let mut single = OutputSingle::new();
    single.enable(5);
    single.time_avg("m", 20, 1);
    single.time_avg("m", 30, 2);
    single.time_avg("m", 40, 1);
    single.time_avg("m", 50, 3);
    single.finish(100);
    let metric = single.time_avg_value("m").unwrap();
    // 0 * 15 + 1 * 10 + 2 * 10 + 1 * 10 + 3 * 50
    assert_eq!(metric.avg(), (190, 95));
    assert_eq!(metric.last_update, 100);
    assert_eq!(metric.last_value, 3);
}

#[test]
fn time_avg_new_holds_zero() {
    let acc = TimeAvg::new(7);
    assert_eq!(acc, TimeAvg { last_update: 7, last_value: 0, sum_values: 0, sum_time: 0 });
    assert_eq!(acc.avg(), (0, 0));
}

#[test]
fn time_avg_close_adds_value_times_length() {
    let mut acc = TimeAvg { last_update: 10, last_value: 4, sum_values: 6, sum_time: 3 };
    acc.close(25);
    assert_eq!(acc, TimeAvg { last_update: 25, last_value: 4, sum_values: 66, sum_time: 18 });
}

#[test]
fn time_avg_close_at_largest_values_does_not_overflow() {
    let mut acc = TimeAvg { last_update: 0, last_value: u64::MAX, sum_values: 0, sum_time: 0 };
    acc.close(u64::MAX);
    assert_eq!(acc.sum_time, u64::MAX);
    assert_eq!(acc.sum_values, (u64::MAX as u128) * (u64::MAX as u128));
}

#[test]
fn nothing_is_recorded_before_enable() {
    let mut single = OutputSingle::new();
    single.one_time("count", 3);
    single.time_avg("level", 10, 7);
    single.time_avg("level", 20, 9);
    assert!(!single.is_enabled());
    assert_eq!(single.one_time_value("count"), None);
    let level = single.time_avg_value("level").unwrap();
    assert_eq!(level, TimeAvg { last_update: 0, last_value: 9, sum_values: 0, sum_time: 0 });

    single.enable(30);
    assert!(single.is_enabled());
    let level = single.time_avg_value("level").unwrap();
    assert_eq!(level, TimeAvg { last_update: 30, last_value: 9, sum_values: 0, sum_time: 0 });

    single.time_avg("level", 40, 1);
    single.finish(50);
    let level = single.time_avg_value("level").unwrap();
    // 9 held from 30 to 40, then 1 from 40 to 50: nothing from before 30
    assert_eq!(level.avg(), (100, 20));

    single.one_time("count", 3);
    assert_eq!(single.one_time_value("count"), Some(3));
    single.one_time("count", 4);
    assert_eq!(single.one_time_value("count"), Some(4));
    assert_eq!(single.one_time_entries().len(), 1);
}

#[test]
fn enabling_twice_changes_nothing() {
    let mut single = OutputSingle::new();
    single.enable(10);
    single.time_avg("level", 20, 2);
    single.time_avg("level", 30, 5);
    let before = single.time_avg_value("level").unwrap();
    single.enable(40);
    assert_eq!(single.time_avg_value("level").unwrap(), before);
    single.finish(50);
    // 0 from 10 to 20, 2 from 20 to 30, 5 from 30 to 50
    assert_eq!(single.time_avg_value("level").unwrap().avg(), (120, 40));
}

#[test]
fn time_avg_created_after_enable_measures_from_warmup() {
    let mut single = OutputSingle::new();
    single.enable(100);
    single.time_avg("late", 150, 2);
    single.finish(200);
    assert_eq!(single.time_avg_value("late").unwrap().avg(), (100, 100));
    assert_eq!(single.time_avg_value("absent"), None);
    assert_eq!(single.time_avg_entries().len(), 1);
    assert_eq!(single.time_avg_entries()[0].name, "late");
}

#[test]
fn finish_without_enable_closes_from_zero() {
    let mut single = OutputSingle::new();
    single.time_avg("level", 10, 3);
    single.finish(20);
    assert_eq!(single.time_avg_value("level").unwrap().avg(), (60, 20));
}

#[test]
fn default_outputs_are_empty() {
    let single = OutputSingle::default();
    assert!(!single.is_enabled());
    assert!(single.one_time_entries().is_empty());
    assert!(single.time_avg_entries().is_empty());
    let series = OutputSeries::default();
    assert!(series.entries().is_empty());
}

#[test]
fn series_ignores_samples_before_enable() {
    let mut series = OutputSeries::new();
    series.add("job_time", "4,1", 10);
    assert!(series.entries().is_empty());
    series.set_header("job_time", "num_qubits,priority");
    assert_eq!(series.entries().len(), 1);
    assert_eq!(series.entries()[0].name, "job_time");
    assert_eq!(series.entries()[0].value.header, "num_qubits,priority");
    assert!(series.entries()[0].value.values.is_empty());
    series.add("job_time", "4,1", 11);
    assert!(series.entries()[0].value.values.is_empty());

    series.enable();
    series.add("job_time", "4,1", 12);
    series.add("job_time", "6,2", 13);
    series.add("job_time", "4,1", 14);
    series.add("other", "x", 15);
    assert_eq!(series.entries().len(), 2);
    let job_time = &series.entries()[0].value;
    assert_eq!(job_time.header, "num_qubits,priority");
    assert_eq!(job_time.values.len(), 2);
    assert_eq!(job_time.values[0].name, "4,1");
    assert_eq!(job_time.values[0].value, vec![12, 14]);
    assert_eq!(job_time.values[1].name, "6,2");
    assert_eq!(job_time.values[1].value, vec![13]);
    let other = &series.entries()[1];
    assert_eq!(other.name, "other");
    assert_eq!(other.value.header, "label");
    assert_eq!(other.value.values[0].value, vec![15]);
}

#[test]
fn set_header_keeps_samples() {
    let mut series = OutputSeries::new();
    series.enable();
    series.add("s", "a", 1);
    series.set_header("s", "h");
    assert_eq!(series.entries()[0].value.header, "h");
    assert_eq!(series.entries()[0].value.values[0].value, vec![1]);
}

#[test]
fn names_are_kept_in_order() {
    let names = ["b", "a", "", "ab", "B", "é", "z", "aa", "a", "€", "~", "𝄞", "ab"];
    let mut single = OutputSingle::new();
    single.enable(0);
    for (k, name) in names.iter().enumerate() {
        single.one_time(name, k as u64);
        single.time_avg(name, k as u64, 1);
    }
    let mut expected: Vec<String> = names.iter().map(|n| n.to_string()).collect();
    expected.sort();
    expected.dedup();
    let one_time: Vec<String> = single.one_time_entries().iter().map(|e| e.name.clone()).collect();
    let time_avg: Vec<String> = single.time_avg_entries().iter().map(|e| e.name.clone()).collect();
    assert_eq!(one_time, expected);
    assert_eq!(time_avg, expected);
    // the value set last is kept
    assert_eq!(single.one_time_value("a"), Some(8));
    assert_eq!(single.one_time_value("ab"), Some(12));
    assert_eq!(single.one_time_value("b"), Some(0));
    assert_eq!(
        single.header(),
        format!("{},{}", expected.join(","), expected.join(","))
    );
}

#[test]
fn header_of_empty_metrics_is_a_comma() {
    let single = OutputSingle::new();
    assert_eq!(single.header(), ",");
    let mut single = OutputSingle::new();
    single.time_avg("only", 0, 1);
    assert_eq!(single.header(), ",only");
    single.enable(0);
    single.one_time("x", 1);
    assert_eq!(single.header(), "x,only");
}
