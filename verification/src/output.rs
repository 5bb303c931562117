//! Metric accumulators: one-shot scalars, time averages of step functions,
//! and labelled series of samples. Nothing is recorded before the warm-up ends.

use vstd::prelude::*;
use crate::names::{
    as_map, join_names, joined_names, lemma_as_map_at, lemma_as_map_dom, lemma_as_map_insert,
    lemma_as_map_push, lemma_as_map_update, lemma_sorted_unique, names_sorted, names_unique,
    position, precedes, search, Named,
};

verus! {

/// The running integral of a step function of time.
///
/// The function holds `last_value` since `last_update`; `sum_values` is its
/// integral over the intervals closed so far and `sum_time` their total length.
#[derive(Debug, Clone, Copy, PartialEq, Eq, Structural)]
pub struct TimeAvg {
    pub last_update: u64,
    pub last_value: u64,
    pub sum_values: u128,
    pub sum_time: u64,
}

impl View for TimeAvg {
    type V = TimeAvg;

    open spec fn view(&self) -> TimeAvg {
        *self
    }
}

impl TimeAvg {
    /// The measured time does not exceed the time elapsed, and the integral
    /// does not exceed what the largest value would give over that time.
    pub open spec fn wf(self) -> bool {
        &&& self.sum_time <= self.last_update
        &&& self.sum_values <= self.sum_time * u64::MAX
    }

    /// An accumulator that holds 0 since `last_update` and has measured nothing.
    pub open spec fn fresh(last_update: u64) -> TimeAvg {
        TimeAvg { last_update, last_value: 0, sum_values: 0, sum_time: 0 }
    }

    /// The accumulator after the open interval is closed at `now`.
    pub open spec fn closed_at(self, now: u64) -> TimeAvg {
        TimeAvg {
            last_update: now,
            last_value: self.last_value,
            sum_values: (self.sum_values + (now - self.last_update) * self.last_value) as u128,
            sum_time: (self.sum_time + (now - self.last_update)) as u64,
        }
    }

    /// The accumulator after the function takes `value` at `now`: the open
    /// interval is closed only if recording is enabled.
    pub open spec fn recorded(self, enabled: bool, now: u64, value: u64) -> TimeAvg {
        let closed = if enabled {
            self.closed_at(now)
        } else {
            self
        };
        TimeAvg { last_value: value, ..closed }
    }

    /// The accumulator when measuring starts at `now`: the value held is
    /// kept, what was measured before is dropped.
    pub open spec fn restarted(self, now: u64) -> TimeAvg {
        TimeAvg { last_update: now, last_value: self.last_value, sum_values: 0, sum_time: 0 }
    }

    /// A new accumulator, which holds 0 since `last_update`.
    pub fn new(last_update: u64) -> (acc: TimeAvg)
        ensures
            acc == TimeAvg::fresh(last_update),
            acc.wf(),
    {
        TimeAvg { last_update, last_value: 0, sum_values: 0, sum_time: 0 }
    }

    /// Closes the open interval at `now`.
    pub fn close(&mut self, now: u64)
        requires
            old(self).wf(),
            now >= old(self).last_update,
        ensures
            *final(self) == old(self).closed_at(now),
            final(self).wf(),
            final(self).sum_values == old(self).sum_values + (now - old(self).last_update)
                * old(self).last_value,
            final(self).sum_time == old(self).sum_time + (now - old(self).last_update),
    {
        let delta: u64 = now - self.last_update;
        proof {
            let d = delta as int;
            let v = self.last_value as int;
            let t = self.sum_time as int;
            let m = u64::MAX as int;
            assert(d * v <= d * m) by (nonlinear_arith)
                requires
                    0 <= d,
                    0 <= v <= m,
            ;
            assert((t + d) * m == t * m + d * m) by (nonlinear_arith);
            assert((t + d) * m <= m * m) by (nonlinear_arith)
                requires
                    0 <= t + d <= m,
            ;
            assert(m * m < u128::MAX) by (nonlinear_arith)
                requires
                    m == u64::MAX,
            ;
            assert(0 <= d * v) by (nonlinear_arith)
                requires
                    0 <= d,
                    0 <= v,
            ;
        }
        self.sum_values = self.sum_values + (delta as u128) * (self.last_value as u128);
        self.sum_time = self.sum_time + delta;
        self.last_update = now;
    }

    /// The average as a ratio: the integral and the time it was taken over.
    /// The average is their quotient, and is undefined over no time.
    pub fn avg(&self) -> (ratio: (u128, u64))
        ensures
            ratio == (self.sum_values, self.sum_time),
    {
        (self.sum_values, self.sum_time)
    }
}

/// The accumulator after each of `samples`, pairs of a time and the value
/// taken at that time, is recorded in order while recording is enabled.
pub open spec fn replayed(acc: TimeAvg, samples: Seq<(u64, u64)>) -> TimeAvg
    decreases samples.len(),
{
    if samples.len() == 0 {
        acc
    } else {
        replayed(acc, samples.drop_last()).recorded(true, samples.last().0, samples.last().1)
    }
}

/// The time of the last sample, or `start` if there is none.
pub open spec fn last_time(start: u64, samples: Seq<(u64, u64)>) -> u64 {
    if samples.len() == 0 {
        start
    } else {
        samples.last().0
    }
}

/// The value taken by the last sample, or `initial` if there is none.
pub open spec fn last_value(initial: u64, samples: Seq<(u64, u64)>) -> u64 {
    if samples.len() == 0 {
        initial
    } else {
        samples.last().1
    }
}

/// The times of the samples do not decrease, and none is before `start`.
pub open spec fn times_ordered(start: u64, samples: Seq<(u64, u64)>) -> bool {
    &&& forall|i: int| 0 <= i < samples.len() ==> start <= (#[trigger] samples[i]).0
    &&& forall|i: int, j: int| 0 <= i <= j < samples.len() ==> samples[i].0 <= samples[j].0
}

/// The integral, from `start` to the last sample, of the step function
/// that holds `initial` from `start` and then the value of each sample from
/// its time on: the sum of each value times the length of its interval.
pub open spec fn integral(start: u64, initial: u64, samples: Seq<(u64, u64)>) -> int
    decreases samples.len(),
{
    if samples.len() == 0 {
        0
    } else {
        let front = samples.drop_last();
        integral(start, initial, front) + last_value(initial, front) * (samples.last().0
            - last_time(start, front))
    }
}

/// Replaying ordered samples from a start accumulates the integral of the
/// step function and the time from the start to the last sample.
pub proof fn lemma_replayed_is_integral(start: u64, initial: u64, samples: Seq<(u64, u64)>)
    requires
        times_ordered(start, samples),
    ensures
        ({
            let acc = TimeAvg { last_update: start, last_value: initial, sum_values: 0, sum_time: 0 };
            let end = replayed(acc, samples);
            &&& end.wf()
            &&& end.last_update == last_time(start, samples)
            &&& end.last_value == last_value(initial, samples)
            &&& end.sum_values == integral(start, initial, samples)
            &&& end.sum_time == last_time(start, samples) - start
        }),
    decreases samples.len(),
{
    let acc = TimeAvg { last_update: start, last_value: initial, sum_values: 0, sum_time: 0 };
    if samples.len() > 0 {
        let front = samples.drop_last();
        assert(times_ordered(start, front)) by {
            assert forall|i: int| 0 <= i < front.len() implies start <= (#[trigger] front[i]).0 by {
                assert(front[i] == samples[i]);
            }
            assert forall|i: int, j: int| 0 <= i <= j < front.len() implies front[i].0
                <= front[j].0 by {
                assert(front[i] == samples[i] && front[j] == samples[j]);
            }
        }
        lemma_replayed_is_integral(start, initial, front);
        let mid = replayed(acc, front);
        let now = samples.last().0;
        assert(mid.last_update <= now) by {
            if front.len() > 0 {
                assert(front.last() == samples[samples.len() - 2]);
            } else {
                assert(start <= samples[samples.len() - 1].0);
            }
        }
        lemma_closed_at_exact(mid, now);
    }
}

/// Closing an interval that does not end before it began adds the value
/// held times its length to the integral, and its length to the time.
pub proof fn lemma_closed_at_exact(acc: TimeAvg, now: u64)
    requires
        acc.wf(),
        acc.last_update <= now,
    ensures
        acc.closed_at(now).wf(),
        acc.closed_at(now).sum_values == acc.sum_values + (now - acc.last_update) * acc.last_value,
        acc.closed_at(now).sum_time == acc.sum_time + (now - acc.last_update),
{
    let d = (now - acc.last_update) as int;
    let v = acc.last_value as int;
    let t = acc.sum_time as int;
    let m = u64::MAX as int;
    assert(d * v <= d * m) by (nonlinear_arith)
        requires
            0 <= d,
            0 <= v <= m,
    ;
    assert(0 <= d * v) by (nonlinear_arith)
        requires
            0 <= d,
            0 <= v,
    ;
    assert((t + d) * m == t * m + d * m) by (nonlinear_arith);
    assert((t + d) * m <= m * m) by (nonlinear_arith)
        requires
            0 <= t + d <= m,
    ;
    assert(m * m < u128::MAX) by (nonlinear_arith)
        requires
            m == u64::MAX,
    ;
}

/// The time-average law. Let measuring start at `start`, let the step
/// function take the values of `samples` at their times, which do not
/// decrease, and let the last interval be closed at `end`. Then the
/// accumulated integral is the sum of each value times the length of the
/// interval over which it was held, and the accumulated time is the time
/// from `start` to `end`; the average is their quotient.
pub proof fn lemma_time_average_law(start: u64, samples: Seq<(u64, u64)>, end: u64)
    requires
        times_ordered(start, samples),
        last_time(start, samples) <= end,
    ensures
        ({
            let acc = replayed(TimeAvg::fresh(start), samples).closed_at(end);
            &&& acc.sum_values == integral(start, 0, samples.push((end, 0)))
            &&& acc.sum_time == end - start
        }),
{
    lemma_replayed_is_integral(start, 0, samples);
    let mid = replayed(TimeAvg::fresh(start), samples);
    lemma_closed_at_exact(mid, end);
    let closing = samples.push((end, 0u64));
    assert(closing.drop_last() =~= samples);
    assert(closing.last() == (end, 0u64));
    assert(integral(start, 0, closing) == integral(start, 0, samples) + last_value(0, samples) * (
    end - last_time(start, samples)));
}

/// The accumulator after each of `samples` is given to it while
/// recording is disabled.
pub open spec fn held(acc: TimeAvg, samples: Seq<(u64, u64)>) -> TimeAvg
    decreases samples.len(),
{
    if samples.len() == 0 {
        acc
    } else {
        held(acc, samples.drop_last()).recorded(false, samples.last().0, samples.last().1)
    }
}

/// Warm-up gating. What an accumulator is given before recording is
/// enabled leaves no trace in what it measures: of all the samples given
/// before, only the value held when measuring starts is kept, and the
/// integral and the time are those of the samples given afterwards.
pub proof fn lemma_warmup_gating(
    acc: TimeAvg,
    before: Seq<(u64, u64)>,
    warmup: u64,
    after: Seq<(u64, u64)>,
)
    requires
        times_ordered(warmup, after),
    ensures
        held(acc, before).sum_values == acc.sum_values,
        held(acc, before).sum_time == acc.sum_time,
        held(acc, before).last_update == acc.last_update,
        held(acc, before).last_value == last_value(acc.last_value, before),
        held(acc, before).restarted(warmup) == (TimeAvg {
            last_update: warmup,
            last_value: last_value(acc.last_value, before),
            sum_values: 0,
            sum_time: 0,
        }),
        replayed(held(acc, before).restarted(warmup), after).sum_values == integral(
            warmup,
            last_value(acc.last_value, before),
            after,
        ),
        replayed(held(acc, before).restarted(warmup), after).sum_time == last_time(warmup, after)
            - warmup,
    decreases before.len(),
{
    if before.len() > 0 {
        lemma_warmup_gating(acc, before.drop_last(), warmup, after);
    }
    lemma_replayed_is_integral(warmup, last_value(acc.last_value, before), after);
}

/// One-shot scalars and time averages, each found by its name.
///
/// Until `enable` is called nothing is recorded, except that each time
/// average remembers the value it was last given.
pub struct OutputSingle {
    enabled: bool,
    warmup: u64,
    one_time: Vec<Named<u64>>,
    time_avg: Vec<Named<TimeAvg>>,
}

impl OutputSingle {
    /// Whether recording is enabled.
    pub closed spec fn enabled(&self) -> bool {
        self.enabled
    }

    /// The time at which recording was enabled, 0 before.
    pub closed spec fn warmup(&self) -> u64 {
        self.warmup
    }

    /// The one-shot scalars with their names, as they are stored.
    pub closed spec fn one_time_list(&self) -> Seq<Named<u64>> {
        self.one_time@
    }

    /// The time averages with their names, as they are stored.
    pub closed spec fn time_avg_list(&self) -> Seq<Named<TimeAvg>> {
        self.time_avg@
    }

    /// The one-shot scalars, by name.
    pub open spec fn one_times(&self) -> Map<Seq<char>, u64> {
        as_map(self.one_time_list())
    }

    /// The time averages, by name.
    pub open spec fn time_avgs(&self) -> Map<Seq<char>, TimeAvg> {
        as_map(self.time_avg_list())
    }

    /// The names are stored in order, each once.
    pub open spec fn names_wf(&self) -> bool {
        names_sorted(self.one_time_list()) && names_sorted(self.time_avg_list())
    }

    /// Every time average is consistent; before recording is enabled the
    /// warm-up time is 0; once it is enabled every time average has measured
    /// exactly the time from the warm-up to its last update.
    pub open spec fn wf(&self) -> bool {
        &&& self.names_wf()
        &&& !self.enabled() ==> self.warmup() == 0
        &&& forall|n: Seq<char>| #[trigger]
            self.time_avgs().contains_key(n) ==> {
                &&& self.time_avgs()[n].wf()
                &&& self.enabled() ==> self.time_avgs()[n].sum_time + self.warmup()
                    == self.time_avgs()[n].last_update
            }
    }

    /// The time average of the given name, or the one that would be created
    /// for it now.
    pub open spec fn time_avg_or_fresh(&self, name: Seq<char>) -> TimeAvg {
        if self.time_avgs().contains_key(name) {
            self.time_avgs()[name]
        } else {
            TimeAvg::fresh(self.warmup())
        }
    }

    /// Accumulators that record nothing yet.
    pub fn new() -> (out: OutputSingle)
        ensures
            out.wf(),
            !out.enabled(),
            out.warmup() == 0,
            out.one_times() == Map::<Seq<char>, u64>::empty(),
            out.time_avgs() == Map::<Seq<char>, TimeAvg>::empty(),
    {
        OutputSingle { enabled: false, warmup: 0, one_time: Vec::new(), time_avg: Vec::new() }
    }

    /// Whether recording is enabled.
    pub fn is_enabled(&self) -> (b: bool)
        ensures
            b == self.enabled(),
    {
        self.enabled
    }

    /// Sets a one-shot scalar, if recording is enabled.
    pub fn one_time(&mut self, name: &str, value: u64)
        requires
            old(self).wf(),
        ensures
            final(self).wf(),
            final(self).enabled() == old(self).enabled(),
            final(self).warmup() == old(self).warmup(),
            final(self).time_avgs() == old(self).time_avgs(),
            final(self).one_times() == if old(self).enabled() {
                old(self).one_times().insert(name@, value)
            } else {
                old(self).one_times()
            },
    {
        if self.enabled {
            let key = name.to_owned();
            proof {
                lemma_sorted_unique(self.one_time@);
            }
            match search(&self.one_time, &key) {
                Ok(i) => {
                    proof {
                        lemma_as_map_update(
                            self.one_time@,
                            i as int,
                            Named { name: self.one_time@[i as int].name, value },
                        );
                    }
                    self.one_time[i].value = value;
                    proof {
                        let before = old(self).one_time@;
                        let after = self.one_time@;
                        assert(after =~= before.update(
                            i as int,
                            Named { name: before[i as int].name, value },
                        ));
                        assert forall|a: int, b: int| 0 <= a < b < after.len() implies precedes(
                            after[a].name@,
                            after[b].name@,
                        ) by {
                            assert(after[a].name@ == before[a].name@);
                            assert(after[b].name@ == before[b].name@);
                        }
                    }
                },
                Err(p) => {
                    let entry = Named { name: key, value };
                    proof {
                        lemma_as_map_dom(self.one_time@, name@);
                        lemma_as_map_insert(self.one_time@, p as int, entry);
                    }
                    self.one_time.insert(p, entry);
                    proof {
                        let before = old(self).one_time@;
                        let after = self.one_time@;
                        assert forall|a: int, b: int| 0 <= a < b < after.len() implies precedes(
                            after[a].name@,
                            after[b].name@,
                        ) by {
                            let a0 = if a < p { a } else { a - 1 };
                            let b0 = if b < p { b } else { b - 1 };
                            if a != p {
                                assert(after[a] == before[a0]);
                            }
                            if b != p {
                                assert(after[b] == before[b0]);
                            }
                        }
                    }
                },
            }
        }
        assert(self.time_avgs() == old(self).time_avgs());
    }

    /// Records that the step function `name` takes `value` at `now`. The
    /// time average is created if it does not exist. If recording is
    /// enabled the interval since its last update is closed first.
    pub fn time_avg(&mut self, name: &str, now: u64, value: u64)
        requires
            old(self).wf(),
            old(self).enabled() ==> now >= old(self).time_avg_or_fresh(name@).last_update,
        ensures
            final(self).wf(),
            final(self).enabled() == old(self).enabled(),
            final(self).warmup() == old(self).warmup(),
            final(self).one_times() == old(self).one_times(),
            final(self).time_avgs() == old(self).time_avgs().insert(
                name@,
                old(self).time_avg_or_fresh(name@).recorded(old(self).enabled(), now, value),
            ),
    {
        let key = name.to_owned();
        proof {
            lemma_sorted_unique(self.time_avg@);
        }
        let found = search(&self.time_avg, &key);
        let i: usize = match found {
            Ok(i) => i,
            Err(p) => {
                let entry = Named { name: key, value: TimeAvg::new(self.warmup) };
                proof {
                    lemma_as_map_dom(self.time_avg@, name@);
                    lemma_as_map_insert(self.time_avg@, p as int, entry);
                }
                self.time_avg.insert(p, entry);
                proof {
                    let before = old(self).time_avg@;
                    let after = self.time_avg@;
                    assert forall|a: int, b: int| 0 <= a < b < after.len() implies precedes(
                        after[a].name@,
                        after[b].name@,
                    ) by {
                        let a0 = if a < p { a } else { a - 1 };
                        let b0 = if b < p { b } else { b - 1 };
                        if a != p {
                            assert(after[a] == before[a0]);
                        }
                        if b != p {
                            assert(after[b] == before[b0]);
                        }
                    }
                }
                p
            },
        };
        let ghost mid = self.time_avg@;
        proof {
            lemma_sorted_unique(mid);
            lemma_as_map_at(mid, i as int);
            if found is Ok {
                lemma_as_map_at(old(self).time_avg@, i as int);
            }
            assert(mid[i as int].value == old(self).time_avg_or_fresh(name@));
            assert(old(self).time_avgs().contains_key(name@) ==> old(self).time_avgs()[name@].wf());
        }
        let mut acc = self.time_avg[i].value;
        if self.enabled {
            acc.close(now);
        }
        acc.last_value = value;
        self.time_avg[i].value = acc;
        proof {
            let e = Named { name: mid[i as int].name, value: acc };
            let after = self.time_avg@;
            assert(after =~= mid.update(i as int, e));
            lemma_as_map_update(mid, i as int, e);
            assert(as_map(after) =~= old(self).time_avgs().insert(name@, acc));
            assert forall|a: int, b: int| 0 <= a < b < after.len() implies precedes(
                after[a].name@,
                after[b].name@,
            ) by {
                assert(after[a].name@ == mid[a].name@);
                assert(after[b].name@ == mid[b].name@);
            }
        }
    }

    /// Starts recording at `now`: every time average keeps the value it
    /// holds and measures from `now` on. Once recording is enabled, enabling
    /// it again changes nothing.
    pub fn enable(&mut self, now: u64)
        requires
            old(self).wf(),
        ensures
            final(self).wf(),
            final(self).enabled(),
            final(self).one_times() == old(self).one_times(),
            old(self).enabled() ==> {
                &&& final(self).warmup() == old(self).warmup()
                &&& final(self).time_avgs() == old(self).time_avgs()
            },
            !old(self).enabled() ==> {
                &&& final(self).warmup() == now
                &&& final(self).time_avgs() == old(self).time_avgs().map_values(
                    |acc: TimeAvg| acc.restarted(now),
                )
            },
    {
        if self.enabled {
            return ;
        }
        self.enabled = true;
        self.warmup = now;
        let mut i: usize = 0;
        while i < self.time_avg.len()
            invariant
                i <= self.time_avg.len(),
                self.enabled,
                self.warmup == now,
                self.one_time@ == old(self).one_time@,
                self.time_avg.len() == old(self).time_avg.len(),
                forall|j: int|
                    0 <= j < self.time_avg.len() ==> (#[trigger] self.time_avg@[j]).name
                        == old(self).time_avg@[j].name,
                forall|j: int|
                    0 <= j < i ==> (#[trigger] self.time_avg@[j]).value
                        == old(self).time_avg@[j].value.restarted(now),
                forall|j: int|
                    i <= j < self.time_avg.len() ==> (#[trigger] self.time_avg@[j]).value
                        == old(self).time_avg@[j].value,
            decreases self.time_avg.len() - i,
        {
            let held = self.time_avg[i].value.last_value;
            self.time_avg[i].value = TimeAvg {
                last_update: now,
                last_value: held,
                sum_values: 0,
                sum_time: 0,
            };
            i += 1;
        }
        proof {
            let before = old(self).time_avg@;
            let after = self.time_avg@;
            lemma_sorted_unique(before);
            assert(names_sorted(after)) by {
                assert forall|a: int, b: int| 0 <= a < b < after.len() implies precedes(
                    after[a].name@,
                    after[b].name@,
                ) by {
                    assert(after[a].name == before[a].name && after[b].name == before[b].name);
                }
            }
            lemma_sorted_unique(after);
            let f = |acc: TimeAvg| acc.restarted(now);
            assert forall|n: Seq<char>| #[trigger]
                as_map(after).contains_key(n) <==> as_map(before).contains_key(n) by {
                lemma_as_map_dom(after, n);
                lemma_as_map_dom(before, n);
                if as_map(after).contains_key(n) {
                    let k = choose|k: int| 0 <= k < after.len() && (#[trigger] after[k]).name@ == n;
                    assert(before[k].name@ == n);
                }
                if as_map(before).contains_key(n) {
                    let k = choose|k: int|
                        0 <= k < before.len() && (#[trigger] before[k]).name@ == n;
                    assert(after[k].name@ == n);
                }
            }
            assert forall|n: Seq<char>| #[trigger]
                as_map(after).contains_key(n) implies as_map(after)[n] == f(as_map(before)[n]) by {
                lemma_as_map_dom(after, n);
                let k = choose|k: int| 0 <= k < after.len() && (#[trigger] after[k]).name@ == n;
                lemma_as_map_at(after, k);
                lemma_as_map_at(before, k);
                assert(after[k].name == before[k].name);
            }
            assert(as_map(after) =~= as_map(before).map_values(f));
        }
    }

    /// Closes the open interval of every time average at `now`.
    pub fn finish(&mut self, now: u64)
        requires
            old(self).wf(),
            forall|n: Seq<char>| #[trigger]
                old(self).time_avgs().contains_key(n) ==> now >= old(self).time_avgs()[n].last_update,
        ensures
            final(self).wf(),
            final(self).enabled() == old(self).enabled(),
            final(self).warmup() == old(self).warmup(),
            final(self).one_times() == old(self).one_times(),
            final(self).time_avgs() == old(self).time_avgs().map_values(
                |acc: TimeAvg| acc.closed_at(now),
            ),
    {
        proof {
            lemma_sorted_unique(self.time_avg@);
            assert forall|j: int| 0 <= j < self.time_avg.len() implies {
                &&& (#[trigger] self.time_avg@[j]).value.wf()
                &&& self.time_avg@[j].value.last_update <= now
            } by {
                lemma_as_map_at(self.time_avg@, j);
                assert(self.time_avgs().contains_key(self.time_avg@[j].name@));
            }
        }
        let mut i: usize = 0;
        while i < self.time_avg.len()
            invariant
                i <= self.time_avg.len(),
                self.enabled == old(self).enabled,
                self.warmup == old(self).warmup,
                self.one_time@ == old(self).one_time@,
                self.time_avg.len() == old(self).time_avg.len(),
                forall|j: int|
                    0 <= j < self.time_avg.len() ==> (#[trigger] self.time_avg@[j]).name
                        == old(self).time_avg@[j].name,
                forall|j: int|
                    0 <= j < i ==> (#[trigger] self.time_avg@[j]).value
                        == old(self).time_avg@[j].value.closed_at(now),
                forall|j: int|
                    i <= j < self.time_avg.len() ==> (#[trigger] self.time_avg@[j]).value
                        == old(self).time_avg@[j].value,
                forall|j: int|
                    0 <= j < self.time_avg.len() ==> {
                        &&& (#[trigger] old(self).time_avg@[j]).value.wf()
                        &&& old(self).time_avg@[j].value.last_update <= now
                    },
            decreases self.time_avg.len() - i,
        {
            assert(old(self).time_avg@[i as int].value.wf());
            let mut acc = self.time_avg[i].value;
            acc.close(now);
            self.time_avg[i].value = acc;
            i += 1;
        }
        proof {
            let before = old(self).time_avg@;
            let after = self.time_avg@;
            lemma_sorted_unique(before);
            assert(names_sorted(after)) by {
                assert forall|a: int, b: int| 0 <= a < b < after.len() implies precedes(
                    after[a].name@,
                    after[b].name@,
                ) by {
                    assert(after[a].name == before[a].name && after[b].name == before[b].name);
                }
            }
            lemma_sorted_unique(after);
            let f = |acc: TimeAvg| acc.closed_at(now);
            assert forall|n: Seq<char>| #[trigger]
                as_map(after).contains_key(n) <==> as_map(before).contains_key(n) by {
                lemma_as_map_dom(after, n);
                lemma_as_map_dom(before, n);
                if as_map(after).contains_key(n) {
                    let k = choose|k: int| 0 <= k < after.len() && (#[trigger] after[k]).name@ == n;
                    assert(before[k].name@ == n);
                }
                if as_map(before).contains_key(n) {
                    let k = choose|k: int|
                        0 <= k < before.len() && (#[trigger] before[k]).name@ == n;
                    assert(after[k].name@ == n);
                }
            }
            assert forall|n: Seq<char>| #[trigger]
                as_map(after).contains_key(n) implies {
                &&& as_map(after)[n] == f(as_map(before)[n])
                &&& as_map(after)[n].wf()
                &&& self.enabled ==> as_map(after)[n].sum_time + self.warmup
                    == as_map(after)[n].last_update
            } by {
                lemma_as_map_dom(after, n);
                let k = choose|k: int| 0 <= k < after.len() && (#[trigger] after[k]).name@ == n;
                lemma_as_map_at(after, k);
                lemma_as_map_at(before, k);
                assert(after[k].name == before[k].name);
                assert(old(self).time_avgs().contains_key(n));
                lemma_closed_at_exact(before[k].value, now);
            }
            assert(as_map(after) =~= as_map(before).map_values(f));
        }
    }

    /// The one-shot scalar of the given name, if it was set.
    pub fn one_time_value(&self, name: &str) -> (value: Option<u64>)
        requires
            self.wf(),
        ensures
            value == if self.one_times().contains_key(name@) {
                Some(self.one_times()[name@])
            } else {
                None
            },
    {
        let key = name.to_owned();
        proof {
            lemma_sorted_unique(self.one_time@);
        }
        match position(&self.one_time, &key) {
            Some(i) => {
                proof {
                    lemma_as_map_at(self.one_time@, i as int);
                }
                Some(self.one_time[i].value)
            },
            None => {
                proof {
                    lemma_as_map_dom(self.one_time@, name@);
                }
                None
            },
        }
    }

    /// The time average of the given name, if it exists.
    pub fn time_avg_value(&self, name: &str) -> (value: Option<TimeAvg>)
        requires
            self.wf(),
        ensures
            value == if self.time_avgs().contains_key(name@) {
                Some(self.time_avgs()[name@])
            } else {
                None
            },
    {
        let key = name.to_owned();
        proof {
            lemma_sorted_unique(self.time_avg@);
        }
        match position(&self.time_avg, &key) {
            Some(i) => {
                proof {
                    lemma_as_map_at(self.time_avg@, i as int);
                }
                Some(self.time_avg[i].value)
            },
            None => {
                proof {
                    lemma_as_map_dom(self.time_avg@, name@);
                }
                None
            },
        }
    }

    /// The one-shot scalars with their names, in the order of their names.
    pub fn one_time_entries(&self) -> (entries: &Vec<Named<u64>>)
        ensures
            entries@ == self.one_time_list(),
    {
        &self.one_time
    }

    /// The time averages with their names, in the order of their names.
    pub fn time_avg_entries(&self) -> (entries: &Vec<Named<TimeAvg>>)
        ensures
            entries@ == self.time_avg_list(),
    {
        &self.time_avg
    }

    /// The names of the one-shot scalars, then those of the time
    /// averages, each in order, with commas between them.
    pub fn header(&self) -> (line: String)
        ensures
            line@ == joined_names(self.one_time_list()) + seq![','] + joined_names(
                self.time_avg_list(),
            ),
    {
        let mut line = join_names(&self.one_time);
        proof {
            reveal_strlit(",");
            assert(","@ =~= seq![',']);
        }
        line.append(",");
        line.append(join_names(&self.time_avg).as_str());
        line
    }
}

impl Default for OutputSingle {
    fn default() -> (out: OutputSingle)
        ensures
            out.wf(),
            !out.enabled(),
            out.one_times() == Map::<Seq<char>, u64>::empty(),
            out.time_avgs() == Map::<Seq<char>, TimeAvg>::empty(),
    {
        OutputSingle::new()
    }
}

/// What one series holds: its header and, by label, its samples in the
/// order in which they were added.
pub struct SeriesView {
    pub header: Seq<char>,
    pub values: Map<Seq<char>, Seq<u64>>,
}

/// One series: a header for its labels and, for each label, the samples
/// added under it.
pub struct OutputSeriesSingle {
    pub header: String,
    pub values: Vec<Named<Vec<u64>>>,
}

impl View for OutputSeriesSingle {
    type V = SeriesView;

    open spec fn view(&self) -> SeriesView {
        SeriesView { header: self.header@, values: as_map(self.values@) }
    }
}

impl OutputSeriesSingle {
    /// Each label is stored once.
    pub open spec fn wf(&self) -> bool {
        names_unique(self.values@)
    }

    /// What a series holds when it is created: the header `label` and no samples.
    pub open spec fn initial() -> SeriesView {
        SeriesView { header: "label"@, values: Map::empty() }
    }

    /// Appends a sample under a label, which is created if it is new.
    pub fn add(&mut self, label: &str, value: u64)
        requires
            old(self).wf(),
        ensures
            final(self).wf(),
            final(self)@ == appended(old(self)@, label@, value),
    {
        let key = label.to_owned();
        let found = position(&self.values, &key);
        let j: usize = match found {
            Some(j) => j,
            None => {
                let entry = Named { name: key, value: Vec::new() };
                proof {
                    lemma_as_map_dom(self.values@, label@);
                    lemma_as_map_push(self.values@, entry);
                }
                self.values.push(entry);
                self.values.len() - 1
            },
        };
        let ghost mid = self.values@;
        proof {
            lemma_as_map_at(mid, j as int);
            if found is Some {
                lemma_as_map_at(old(self).values@, j as int);
            }
        }
        self.values[j].value.push(value);
        proof {
            let e = self.values@[j as int];
            assert(e.name == mid[j as int].name);
            assert(self.values@ =~= mid.update(j as int, e));
            lemma_as_map_update(mid, j as int, e);
            assert(as_map(self.values@) =~= appended(old(self)@, label@, value).values);
        }
    }
}

impl Default for OutputSeriesSingle {
    fn default() -> (single: OutputSeriesSingle)
        ensures
            single.wf(),
            single@ == OutputSeriesSingle::initial(),
    {
        OutputSeriesSingle { header: "label".to_owned(), values: Vec::new() }
    }
}

/// The samples of a label, none if the label does not exist.
pub open spec fn samples_of(series: SeriesView, label: Seq<char>) -> Seq<u64> {
    if series.values.contains_key(label) {
        series.values[label]
    } else {
        Seq::empty()
    }
}

/// A series after a sample is appended under a label.
pub open spec fn appended(series: SeriesView, label: Seq<char>, value: u64) -> SeriesView {
    SeriesView {
        header: series.header,
        values: series.values.insert(label, samples_of(series, label).push(value)),
    }
}

/// Series of samples, each series found by its name and each sample filed
/// under a label. No sample is recorded until `enable` is called.
pub struct OutputSeries {
    enabled: bool,
    series: Vec<Named<OutputSeriesSingle>>,
}

impl View for OutputSeries {
    type V = Map<Seq<char>, SeriesView>;

    /// The series, by name.
    closed spec fn view(&self) -> Map<Seq<char>, SeriesView> {
        as_map(self.series@)
    }
}

impl OutputSeries {
    /// Whether recording is enabled.
    pub closed spec fn enabled(&self) -> bool {
        self.enabled
    }

    /// Each name and, within a series, each label is stored once.
    pub closed spec fn wf(&self) -> bool {
        &&& names_unique(self.series@)
        &&& forall|i: int| 0 <= i < self.series@.len() ==> (#[trigger] self.series@[i]).value.wf()
    }

    /// The series of the given name, or the one that would be created for it.
    pub open spec fn series_or_initial(&self, name: Seq<char>) -> SeriesView {
        if self@.contains_key(name) {
            self@[name]
        } else {
            OutputSeriesSingle::initial()
        }
    }

    /// No series, and recording disabled.
    pub fn new() -> (out: OutputSeries)
        ensures
            out.wf(),
            !out.enabled(),
            out@ == Map::<Seq<char>, SeriesView>::empty(),
    {
        OutputSeries { enabled: false, series: Vec::new() }
    }

    /// The index of the series of the given name, which is created if it is new.
    fn series_index(&mut self, name: &str) -> (i: usize)
        requires
            old(self).wf(),
        ensures
            final(self).wf(),
            final(self).enabled == old(self).enabled,
            i < final(self).series@.len(),
            final(self).series@[i as int].name@ == name@,
            final(self).series@[i as int].value@ == old(self).series_or_initial(name@),
            final(self)@ == old(self)@.insert(name@, old(self).series_or_initial(name@)),
    {
        let key = name.to_owned();
        match position(&self.series, &key) {
            Some(i) => {
                proof {
                    lemma_as_map_at(self.series@, i as int);
                    assert(self@ =~= self@.insert(name@, self.series_or_initial(name@)));
                }
                i
            },
            None => {
                let entry = Named { name: key, value: OutputSeriesSingle::default() };
                proof {
                    lemma_as_map_dom(self.series@, name@);
                    lemma_as_map_push(self.series@, entry);
                }
                self.series.push(entry);
                self.series.len() - 1
            },
        }
    }

    /// Appends `value` to the series `name` under `label`, if recording is
    /// enabled. The series and the label are created if they are new.
    pub fn add(&mut self, name: &str, label: &str, value: u64)
        requires
            old(self).wf(),
        ensures
            final(self).wf(),
            final(self).enabled() == old(self).enabled(),
            final(self)@ == if old(self).enabled() {
                old(self)@.insert(name@, appended(old(self).series_or_initial(name@), label@, value))
            } else {
                old(self)@
            },
    {
        if self.enabled {
            let i = self.series_index(name);
            let ghost mid = self.series@;
            self.series[i].value.add(label, value);
            proof {
                let e = self.series@[i as int];
                assert(e.name == mid[i as int].name);
                assert(self.series@ =~= mid.update(i as int, e));
                lemma_as_map_update(mid, i as int, e);
                assert(self@ =~= old(self)@.insert(
                    name@,
                    appended(old(self).series_or_initial(name@), label@, value),
                ));
                assert forall|k: int| 0 <= k < self.series@.len() implies (
                #[trigger] self.series@[k]).value.wf() by {
                    if k != i {
                        assert(self.series@[k] == mid[k]);
                    }
                }
            }
        }
    }

    /// Enables the recording of samples.
    pub fn enable(&mut self)
        requires
            old(self).wf(),
        ensures
            final(self).wf(),
            final(self).enabled(),
            final(self)@ == old(self)@,
    {
        self.enabled = true;
    }

    /// Sets the header of the series `name`, which is created if it is new.
    pub fn set_header(&mut self, name: &str, header: &str)
        requires
            old(self).wf(),
        ensures
            final(self).wf(),
            final(self).enabled() == old(self).enabled(),
            final(self)@ == old(self)@.insert(
                name@,
                SeriesView { header: header@, values: old(self).series_or_initial(name@).values },
            ),
    {
        let i = self.series_index(name);
        let ghost mid = self.series@;
        self.series[i].value.header = header.to_owned();
        proof {
            let e = self.series@[i as int];
            assert(e.name == mid[i as int].name);
            assert(e.value.values == mid[i as int].value.values);
            assert(self.series@ =~= mid.update(i as int, e));
            lemma_as_map_update(mid, i as int, e);
            assert(self@ =~= old(self)@.insert(
                name@,
                SeriesView { header: header@, values: old(self).series_or_initial(name@).values },
            ));
            assert forall|k: int| 0 <= k < self.series@.len() implies (
            #[trigger] self.series@[k]).value.wf() by {
                if k != i {
                    assert(self.series@[k] == mid[k]);
                }
            }
        }
    }

    /// The series with their names, in the order in which they were created.
    pub fn entries(&self) -> (entries: &Vec<Named<OutputSeriesSingle>>)
        ensures
            as_map(entries@) == self@,
    {
        &self.series
    }
}

impl Default for OutputSeries {
    fn default() -> (out: OutputSeries)
        ensures
            out.wf(),
            !out.enabled(),
            out@ == Map::<Seq<char>, SeriesView>::empty(),
    {
        OutputSeries::new()
    }
}

/// What a run of the simulation hands back.
pub struct Output {
    /// One-shot scalars and time averages.
    pub single: OutputSingle,
    /// Series of samples.
    pub series: OutputSeries,
    /// The configuration of the run, as a line of comma-separated values.
    pub config_csv: String,
}

} // verus!
