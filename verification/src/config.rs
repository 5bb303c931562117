//! The configuration of a simulation, and how its texts are read.

use vstd::prelude::*;
use crate::event::Event;
use crate::text::{decimal, decimal_string, parse_u16, parsed_u16, split, split_chars, to_chars};

verus! {

/// The configuration of one run. Times are in ns.
#[derive(Debug, Clone)]
pub struct Config {
    /// The seed to initialize the pseudo-random number generators.
    pub seed: u64,
    /// The duration of the simulation, in ns.
    pub duration: u64,
    /// The average interval between two jobs, in ns.
    pub job_interarrival: u64,
    /// The warm-up period, in ns.
    pub warmup_period: u64,
    /// The capacity of each serverless worker, in operations/s.
    pub worker_capacity: u64,
    /// The number of serverless workers.
    pub num_serverless_workers: usize,
    /// The number of quantum computers.
    pub num_quantum_computers: usize,
    /// The maximum queue length for classical tasks.
    pub max_classical_tasks: usize,
    /// The maximum queue length for quantum tasks.
    pub max_quantum_tasks: usize,
    /// The policy to schedule quantum tasks.
    pub quantum_schedule_policy: String,
    /// The job type: `VQE`, then the numbers of qubits, with semicolons between.
    pub job_type: String,
    /// The job priorities, with semicolons between.
    pub priorities: String,
    /// Save iteration durations.
    pub save_iteration_durations: bool,
}

/// The token is `vqe`, in letters of either case.
pub open spec fn is_vqe(token: Seq<char>) -> bool {
    &&& token.len() == 3
    &&& (token[0] == 'v' || token[0] == 'V')
    &&& (token[1] == 'q' || token[1] == 'Q')
    &&& (token[2] == 'e' || token[2] == 'E')
}

/// Every token is a 16-bit unsigned number.
pub open spec fn all_numbers(tokens: Seq<Seq<char>>) -> bool {
    forall|i: int| 0 <= i < tokens.len() ==> parsed_u16(#[trigger] tokens[i]) is Some
}

/// The numbers that the tokens denote.
pub open spec fn numbers_of(tokens: Seq<Seq<char>>) -> Seq<u16> {
    Seq::new(tokens.len(), |i: int| parsed_u16(tokens[i]).unwrap())
}

/// The numbers of qubits of a job type: the text is `VQE`, in letters of
/// either case, then one or more numbers, with a semicolon before each.
pub open spec fn parsed_job_type(s: Seq<char>) -> Option<Seq<u16>> {
    let tokens = split(s, ';');
    if is_vqe(tokens[0]) && tokens.len() > 1 && all_numbers(tokens.skip(1)) {
        Some(numbers_of(tokens.skip(1)))
    } else {
        None
    }
}

/// The priorities that a text lists: one or more positive numbers, with
/// semicolons between them.
pub open spec fn parsed_priorities(s: Seq<char>) -> Option<Seq<u16>> {
    let tokens = split(s, ';');
    if all_numbers(tokens) && forall|i: int|
        0 <= i < tokens.len() ==> parsed_u16(#[trigger] tokens[i]).unwrap() > 0 {
        Some(numbers_of(tokens))
    } else {
        None
    }
}

/// The time of the progress report at `percent` per cent of the duration:
/// that share of the duration, rounded down.
pub open spec fn progress_time(duration: u64, percent: int) -> u64 {
    (percent * duration / 100) as u64
}

/// The events with which a run begins, in the order in which they are
/// pushed: the first arrival at 0, the end of the warm-up, the end of the
/// experiment, and the progress reports up to `upto` per cent.
pub open spec fn initial_events(warmup: u64, duration: u64, upto: int) -> Seq<Event>
    decreases upto,
{
    if upto <= 0 {
        seq![Event::JobStart(0), Event::WarmupPeriodEnd(warmup), Event::ExperimentEnd(duration)]
    } else {
        initial_events(warmup, duration, upto - 1).push(
            Event::Progress(progress_time(duration, upto), upto as u16),
        )
    }
}

/// The seed of the `k`-th generator derived from a master seed.
pub open spec fn stream_seed_of(master: u64, k: u64) -> int {
    master + 1_000_000 * k
}

/// The seed of the `k`-th generator derived from a master seed.
pub fn stream_seed(master: u64, k: u64) -> (seed: u64)
    requires
        stream_seed_of(master, k) <= u64::MAX,
    ensures
        seed == stream_seed_of(master, k),
{
    master + 1_000_000 * k
}

/// Whether the token is `vqe`, in letters of either case.
pub fn check_vqe(token: &Vec<char>) -> (b: bool)
    ensures
        b == is_vqe(token@),
{
    token.len() == 3 && (token[0] == 'v' || token[0] == 'V') && (token[1] == 'q' || token[1]
        == 'Q') && (token[2] == 'e' || token[2] == 'E')
}

/// Reads the tokens from index `from` on as numbers, each at least `least`.
fn parse_numbers(tokens: &Vec<Vec<char>>, from: usize, least: u16) -> (numbers: Option<Vec<u16>>)
    requires
        from <= tokens.len(),
    ensures
        match numbers {
            Some(v) => {
                &&& v@.len() == tokens@.len() - from
                &&& forall|i: int|
                    0 <= i < v@.len() ==> parsed_u16((#[trigger] tokens@[from + i])@) == Some(v@[i])
                        && v@[i] >= least
            },
            None => exists|i: int|
                from <= i < tokens@.len() && (parsed_u16((#[trigger] tokens@[i])@) is None
                    || parsed_u16(tokens@[i]@).unwrap() < least),
        },
{
    let mut numbers: Vec<u16> = Vec::new();
    let mut i: usize = from;
    while i < tokens.len()
        invariant
            from <= i <= tokens.len(),
            numbers@.len() == i - from,
            forall|j: int|
                0 <= j < numbers@.len() ==> parsed_u16((#[trigger] tokens@[from + j])@) == Some(
                    numbers@[j],
                ) && numbers@[j] >= least,
        decreases tokens.len() - i,
    {
        match parse_u16(&tokens[i]) {
            Some(n) => {
                if n < least {
                    return None;
                }
                numbers.push(n);
            },
            None => {
                return None;
            },
        }
        i += 1;
    }
    Some(numbers)
}

/// Reads the numbers of qubits of a job type.
pub fn parse_job_type(s: &str) -> (qubits: Option<Vec<u16>>)
    ensures
        match qubits {
            Some(v) => parsed_job_type(s@) == Some(v@) && v@.len() >= 1,
            None => parsed_job_type(s@) is None,
        },
{
    let chars = to_chars(s);
    let tokens = split_chars(&chars, ';');
    let ghost parts = split(s@, ';');
    proof {
        crate::text::lemma_split_nonempty(s@, ';');
    }
    if !check_vqe(&tokens[0]) {
        return None;
    }
    if tokens.len() <= 1 {
        return None;
    }
    match parse_numbers(&tokens, 1, 0) {
        Some(v) => {
            proof {
                let rest = parts.skip(1);
                assert forall|i: int| 0 <= i < rest.len() implies parsed_u16(
                    #[trigger] rest[i],
                ) is Some by {
                    assert(tokens@[1 + i]@ == parts[1 + i]);
                }
                assert(v@ =~= numbers_of(rest)) by {
                    assert forall|i: int| 0 <= i < v@.len() implies v@[i] == numbers_of(rest)[i] by {
                        assert(tokens@[1 + i]@ == parts[1 + i]);
                    }
                }
            }
            Some(v)
        },
        None => {
            proof {
                let i = choose|i: int|
                    1 <= i < tokens@.len() && (parsed_u16((#[trigger] tokens@[i])@) is None
                        || parsed_u16(tokens@[i]@).unwrap() < 0);
                assert(parts.skip(1)[i - 1] == tokens@[i]@);
            }
            None
        },
    }
}

/// Reads a list of priorities.
pub fn parse_priorities(s: &str) -> (priorities: Option<Vec<u16>>)
    ensures
        match priorities {
            Some(v) => {
                &&& parsed_priorities(s@) == Some(v@)
                &&& v@.len() >= 1
                &&& forall|i: int| 0 <= i < v@.len() ==> #[trigger] v@[i] >= 1
            },
            None => parsed_priorities(s@) is None,
        },
{
    let chars = to_chars(s);
    let tokens = split_chars(&chars, ';');
    let ghost parts = split(s@, ';');
    proof {
        crate::text::lemma_split_nonempty(s@, ';');
    }
    match parse_numbers(&tokens, 0, 1) {
        Some(v) => {
            proof {
                assert forall|i: int| 0 <= i < parts.len() implies parsed_u16(#[trigger] parts[i])
                    is Some && parsed_u16(parts[i]).unwrap() > 0 by {
                    assert(tokens@[0 + i]@ == parts[i]);
                }
                assert(v@ =~= numbers_of(parts)) by {
                    assert forall|i: int| 0 <= i < v@.len() implies v@[i] == numbers_of(parts)[i] by {
                        assert(tokens@[0 + i]@ == parts[i]);
                    }
                }
            }
            Some(v)
        },
        None => {
            proof {
                let i = choose|i: int|
                    0 <= i < tokens@.len() && (parsed_u16((#[trigger] tokens@[i])@) is None
                        || parsed_u16(tokens@[i]@).unwrap() < 1);
                assert(parts[i] == tokens@[i]@);
            }
            None
        },
    }
}

impl Config {
    /// The names of the fields that `to_csv` writes, with commas between them.
    pub fn header() -> (line: String)
        ensures
            line@
                == "seed,duration,job_interarrival,warmup_period,worker_capacity,num_serverless_workers,num_quantum_computers,max_classical_tasks,max_quantum_tasks,quantum_schedule_policy,job_type,priorities"@,
    {
        "seed,duration,job_interarrival,warmup_period,worker_capacity,num_serverless_workers,num_quantum_computers,max_classical_tasks,max_quantum_tasks,quantum_schedule_policy,job_type,priorities".to_owned()
    }

    /// The line that `to_csv` writes: the numbers in decimal, the times in
    /// ns, the texts as they are, with commas between them.
    pub open spec fn csv_line(&self) -> Seq<char> {
        decimal(self.seed as nat) + seq![','] + decimal(self.duration as nat) + seq![',']
            + decimal(self.job_interarrival as nat) + seq![','] + decimal(
            self.warmup_period as nat,
        ) + seq![','] + decimal(self.worker_capacity as nat) + seq![','] + decimal(
            self.num_serverless_workers as nat,
        ) + seq![','] + decimal(self.num_quantum_computers as nat) + seq![','] + decimal(
            self.max_classical_tasks as nat,
        ) + seq![','] + decimal(self.max_quantum_tasks as nat) + seq![',']
            + self.quantum_schedule_policy@ + seq![','] + self.job_type@ + seq![',']
            + self.priorities@
    }

    /// The values of the fields that `header` names, with commas between them.
    pub fn to_csv(&self) -> (line: String)
        ensures
            line@ == self.csv_line(),
    {
        proof {
            reveal_strlit(",");
            assert(","@ =~= seq![',']);
        }
        let mut line = decimal_string(self.seed);
        line.append(",");
        line.append(decimal_string(self.duration).as_str());
        line.append(",");
        line.append(decimal_string(self.job_interarrival).as_str());
        line.append(",");
        line.append(decimal_string(self.warmup_period).as_str());
        line.append(",");
        line.append(decimal_string(self.worker_capacity).as_str());
        line.append(",");
        line.append(decimal_string(self.num_serverless_workers as u64).as_str());
        line.append(",");
        line.append(decimal_string(self.num_quantum_computers as u64).as_str());
        line.append(",");
        line.append(decimal_string(self.max_classical_tasks as u64).as_str());
        line.append(",");
        line.append(decimal_string(self.max_quantum_tasks as u64).as_str());
        line.append(",");
        line.append(self.quantum_schedule_policy.as_str());
        line.append(",");
        line.append(self.job_type.as_str());
        line.append(",");
        line.append(self.priorities.as_str());
        line
    }
}

} // verus!
