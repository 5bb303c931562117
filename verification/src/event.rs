//! Events and the queue that serialises them by simulated time.

use vstd::prelude::*;
use std::collections::BTreeSet;

verus! {

broadcast use {vstd::laws_cmp::group_laws_cmp, vstd::std_specs::btree::group_btree_axioms};

/// A deferred action. Each event carries the time, in ns, at which it is
/// scheduled to occur.
#[derive(Debug, Clone, Copy, PartialEq, Eq, Structural)]
pub enum Event {
    /// A new job arrives.
    JobStart(u64),
    /// The warm-up period expires.
    WarmupPeriodEnd(u64),
    /// The simulation ends.
    ExperimentEnd(u64),
    /// Report progress, with the percentage completed.
    Progress(u64, u16),
    /// A quantum iteration ends.
    QuantumIterationEnd(u64),
    /// The classical tasks have to be updated.
    UpdateClassicalTasks(u64),
}

impl Event {
    /// The time at which the event is scheduled.
    pub open spec fn spec_time(&self) -> u64 {
        match self {
            Event::JobStart(t) => *t,
            Event::WarmupPeriodEnd(t) => *t,
            Event::ExperimentEnd(t) => *t,
            Event::Progress(t, _) => *t,
            Event::QuantumIterationEnd(t) => *t,
            Event::UpdateClassicalTasks(t) => *t,
        }
    }

    /// The time at which the event is scheduled.
    #[verifier::when_used_as_spec(spec_time)]
    pub fn time(&self) -> (t: u64)
        ensures
            t == self.spec_time(),
    {
        match self {
            Event::JobStart(t)
            | Event::WarmupPeriodEnd(t)
            | Event::ExperimentEnd(t)
            | Event::Progress(t, _)
            | Event::QuantumIterationEnd(t)
            | Event::UpdateClassicalTasks(t) => *t,
        }
    }
}

/// Events in the order in which they will be popped: by time, and among
/// events of the same time the one pushed first comes first.
pub open spec fn sorted_by_time(s: Seq<Event>) -> bool {
    forall|i: int, j: int| 0 <= i <= j < s.len() ==> s[i].time() <= s[j].time()
}

/// No two classical-update events of the sequence have the same time.
pub open spec fn updates_unique(s: Seq<Event>) -> bool {
    forall|i: int, j: int|
        0 <= i < s.len() && 0 <= j < s.len() && s[i] is UpdateClassicalTasks && s[i] == s[j]
            ==> i == j
}

/// The place at which an event of time `t` enters a sequence: behind every
/// event that is not later than `t`.
pub open spec fn insertion_point(s: Seq<Event>, t: u64) -> int
    decreases s.len(),
{
    if s.len() == 0 {
        0
    } else if s.last().time() <= t {
        s.len() as int
    } else {
        insertion_point(s.drop_last(), t)
    }
}

/// The queue after `event` is pushed: a classical-update event whose time is
/// already queued changes nothing, any other event enters at its insertion
/// point.
pub open spec fn pushed(s: Seq<Event>, event: Event) -> Seq<Event> {
    if event is UpdateClassicalTasks && s.contains(event) {
        s
    } else {
        s.insert(insertion_point(s, event.time()), event)
    }
}

/// The queue after all of `events` are pushed, in order.
pub open spec fn pushed_all(s: Seq<Event>, events: Seq<Event>) -> Seq<Event>
    decreases events.len(),
{
    if events.len() == 0 {
        s
    } else {
        pushed(pushed_all(s, events.drop_last()), events.last())
    }
}

/// The insertion point splits a sorted sequence into the events up to `t`
/// and the events after `t`.
pub proof fn lemma_insertion_point(s: Seq<Event>, t: u64)
    requires
        sorted_by_time(s),
    ensures
        0 <= insertion_point(s, t) <= s.len(),
        forall|i: int| 0 <= i < insertion_point(s, t) ==> (#[trigger] s[i]).time() <= t,
        forall|i: int| insertion_point(s, t) <= i < s.len() ==> (#[trigger] s[i]).time() > t,
    decreases s.len(),
{
    if s.len() > 0 && s.last().time() > t {
        let front = s.drop_last();
        assert forall|i: int, j: int| 0 <= i <= j < front.len() implies front[i].time()
            <= front[j].time() by {
            assert(front[i] == s[i] && front[j] == s[j]);
        }
        lemma_insertion_point(front, t);
        assert forall|i: int| 0 <= i < insertion_point(s, t) implies (#[trigger] s[i]).time()
            <= t by {
            assert(s[i] == front[i]);
        }
        assert forall|i: int| insertion_point(s, t) <= i < s.len() implies (#[trigger] s[i]).time()
            > t by {
            if i < front.len() {
                assert(s[i] == front[i]);
            }
        }
    }
}

/// Pushing keeps a queue sorted and its classical-update events unique.
pub proof fn lemma_pushed_preserves_order(s: Seq<Event>, event: Event)
    requires
        sorted_by_time(s),
        updates_unique(s),
    ensures
        sorted_by_time(pushed(s, event)),
        updates_unique(pushed(s, event)),
        pushed(s, event).len() == s.len() || pushed(s, event).len() == s.len() + 1,
{
    let p = insertion_point(s, event.time());
    lemma_insertion_point(s, event.time());
    let r = pushed(s, event);
    if !(event is UpdateClassicalTasks && s.contains(event)) {
        assert forall|i: int, j: int| 0 <= i <= j < r.len() implies r[i].time() <= r[j].time() by {
            let a = if i < p { i } else { i - 1 };
            let b = if j < p { j } else { j - 1 };
            if i != p {
                assert(r[i] == s[a]);
            }
            if j != p {
                assert(r[j] == s[b]);
            }
        }
        assert forall|i: int, j: int|
            0 <= i < r.len() && 0 <= j < r.len() && r[i] is UpdateClassicalTasks && r[i]
                == r[j] implies i == j by {
            let a = if i < p { i } else { i - 1 };
            let b = if j < p { j } else { j - 1 };
            if i != p {
                assert(r[i] == s[a]);
            }
            if j != p {
                assert(r[j] == s[b]);
            }
            if i != p && j != p {
                assert(a == b);
            }
        }
    }
}

/// A queue of events that hands them out by time, and that never holds two
/// classical-update events of the same time.
pub struct EventQueue {
    queue: Vec<Event>,
    update_classical_task_times: BTreeSet<u64>,
}

impl View for EventQueue {
    type V = Seq<Event>;

    /// The queued events, in the order in which they will be popped.
    closed spec fn view(&self) -> Seq<Event> {
        self.queue@
    }
}

impl EventQueue {
    /// The side set holds exactly the times of the queued classical-update events.
    pub closed spec fn times_in_sync(&self) -> bool {
        forall|t: u64|
            self.update_classical_task_times@.contains(t) <==> self.queue@.contains(
                Event::UpdateClassicalTasks(t),
            )
    }

    /// The queue is sorted by time, holds each classical-update time at
    /// most once, and its side set of such times is in sync.
    pub open spec fn wf(&self) -> bool {
        &&& sorted_by_time(self@)
        &&& updates_unique(self@)
        &&& self.times_in_sync()
    }

    /// An empty queue.
    pub fn new() -> (q: EventQueue)
        ensures
            q.wf(),
            q@ == Seq::<Event>::empty(),
    {
        EventQueue { queue: Vec::new(), update_classical_task_times: BTreeSet::new() }
    }

    /// Pushes an event, unless it is a classical-update event whose time is
    /// already queued.
    pub fn push(&mut self, event: Event)
        requires
            old(self).wf(),
        ensures
            final(self).wf(),
            final(self)@ == pushed(old(self)@, event),
    {
        if let Event::UpdateClassicalTasks(t) = event {
            if self.update_classical_task_times.contains(&t) {
                return ;
            } else {
                self.update_classical_task_times.insert(t);
            }
        }
        let t = event.time();
        let mut i: usize = self.queue.len();
        assert(self.queue@.take(i as int) =~= self.queue@);
        while i > 0 && self.queue[i - 1].time() > t
            invariant
                0 <= i <= self.queue.len(),
                self.queue@ == old(self).queue@,
                insertion_point(self.queue@, t) == insertion_point(self.queue@.take(i as int), t),
            decreases i,
        {
            proof {
                let s = self.queue@.take(i as int);
                assert(s.last() == self.queue@[i - 1]);
                assert(s.drop_last() =~= self.queue@.take(i - 1));
            }
            i -= 1;
        }
        proof {
            let s = self.queue@.take(i as int);
            if i > 0 {
                assert(s.last() == self.queue@[i - 1]);
            }
            assert(insertion_point(self.queue@, t) == i);
            lemma_pushed_preserves_order(old(self)@, event);
        }
        let ghost before = self.queue@;
        self.queue.insert(i, event);
        proof {
            assert(self.queue@ == pushed(before, event));
            assert forall|u: u64|
                self.update_classical_task_times@.contains(u) <==> self.queue@.contains(
                    Event::UpdateClassicalTasks(u),
                ) by {
                let e = Event::UpdateClassicalTasks(u);
                if self.queue@.contains(e) {
                    let k = choose|k: int| 0 <= k < self.queue@.len() && self.queue@[k] == e;
                    if k != i {
                        let b = if k < i { k } else { k - 1 };
                        assert(before[b] == e);
                    }
                }
                if before.contains(e) {
                    let k = choose|k: int| 0 <= k < before.len() && before[k] == e;
                    let b = if k < i { k } else { k + 1 };
                    assert(self.queue@[b] == e);
                }
                if e == event {
                    assert(self.queue@[i as int] == e);
                }
            }
        }
    }

    /// Removes and returns the earliest event, if any.
    pub fn pop(&mut self) -> (event: Option<Event>)
        requires
            old(self).wf(),
        ensures
            final(self).wf(),
            old(self)@.len() == 0 ==> event is None && final(self)@ == old(self)@,
            old(self)@.len() > 0 ==> event == Some(old(self)@[0]) && final(self)@ == old(
                self,
            )@.drop_first(),
    {
        if self.queue.len() == 0 {
            return None;
        }
        let ghost before = self.queue@;
        let event = self.queue.remove(0);
        if let Event::UpdateClassicalTasks(t) = event {
            self.update_classical_task_times.remove(&t);
        }
        proof {
            assert(self.queue@ =~= before.drop_first());
            assert forall|i: int| 0 <= i < self.queue@.len() implies self.queue@[i] == before[i
                + 1] by {}
            assert forall|u: u64|
                self.update_classical_task_times@.contains(u) <==> self.queue@.contains(
                    Event::UpdateClassicalTasks(u),
                ) by {
                let e = Event::UpdateClassicalTasks(u);
                if self.queue@.contains(e) {
                    let k = choose|k: int| 0 <= k < self.queue@.len() && self.queue@[k] == e;
                    assert(before[k + 1] == e);
                }
                if before.contains(e) && e != event {
                    let k = choose|k: int| 0 <= k < before.len() && before[k] == e;
                    assert(self.queue@[k - 1] == e);
                }
            }
        }
        Some(event)
    }

    /// The number of queued events.
    pub fn len(&self) -> (n: usize)
        ensures
            n == self@.len(),
    {
        self.queue.len()
    }

    /// The queued events, in the order in which they will be popped.
    pub fn as_vec(&self) -> (events: &Vec<Event>)
        ensures
            events@ == self@,
    {
        &self.queue
    }

    /// The earliest event, if any, without removing it.
    pub fn peek(&self) -> (event: Option<Event>)
        ensures
            self@.len() == 0 ==> event is None,
            self@.len() > 0 ==> event == Some(self@[0]),
    {
        if self.queue.len() == 0 {
            None
        } else {
            Some(self.queue[0])
        }
    }
}

impl Default for EventQueue {
    fn default() -> (q: EventQueue)
        ensures
            q.wf(),
            q@ == Seq::<Event>::empty(),
    {
        EventQueue::new()
    }
}

/// No event of the sequence is scheduled before `now`.
pub open spec fn none_before(s: Seq<Event>, now: u64) -> bool {
    forall|i: int| 0 <= i < s.len() ==> (#[trigger] s[i]).time() >= now
}

/// A push adds nothing but the pushed event and removes nothing: an event
/// is queued afterwards if and only if it was queued before or it is the
/// pushed event.
pub proof fn lemma_pushed_contains(s: Seq<Event>, event: Event, other: Event)
    requires
        sorted_by_time(s),
    ensures
        pushed(s, event).contains(other) <==> (s.contains(other) || other == event),
{
    let p = insertion_point(s, event.time());
    lemma_insertion_point(s, event.time());
    let r = pushed(s, event);
    if !(event is UpdateClassicalTasks && s.contains(event)) {
        assert(r[p] == event);
        if s.contains(other) {
            let k = choose|k: int| 0 <= k < s.len() && s[k] == other;
            let b = if k < p { k } else { k + 1 };
            assert(r[b] == other);
        }
        if r.contains(other) {
            let k = choose|k: int| 0 <= k < r.len() && r[k] == other;
            if k != p {
                let b = if k < p { k } else { k - 1 };
                assert(s[b] == other);
            }
        }
    }
}

/// A push of an event that is not before `now` leaves no event before `now`.
pub proof fn lemma_pushed_none_before(s: Seq<Event>, event: Event, now: u64)
    requires
        sorted_by_time(s),
        none_before(s, now),
        event.time() >= now,
    ensures
        none_before(pushed(s, event), now),
{
    let r = pushed(s, event);
    assert forall|i: int| 0 <= i < r.len() implies (#[trigger] r[i]).time() >= now by {
        lemma_pushed_contains(s, event, r[i]);
        assert(r.contains(r[i]));
        if s.contains(r[i]) {
            let k = choose|k: int| 0 <= k < s.len() && s[k] == r[i];
            assert(s[k].time() >= now);
        }
    }
}

/// The only end of the experiment that the sequence holds, if it holds any, is `end`.
pub open spec fn only_end(s: Seq<Event>, end: Event) -> bool {
    forall|i: int| 0 <= i < s.len() && (#[trigger] s[i]) is ExperimentEnd ==> s[i] == end
}

/// A push of an event that is not earlier than the first puts nothing
/// before the first.
pub proof fn lemma_pushed_keeps_first(s: Seq<Event>, event: Event)
    requires
        sorted_by_time(s),
        s.len() > 0,
        s[0].time() <= event.time(),
    ensures
        pushed(s, event).len() > 0,
        pushed(s, event)[0] == s[0],
{
    lemma_insertion_point(s, event.time());
}

/// A push of an event that is no other end of the experiment leaves
/// `end` the only one.
pub proof fn lemma_pushed_only_end(s: Seq<Event>, event: Event, end: Event)
    requires
        sorted_by_time(s),
        only_end(s, end),
        event is ExperimentEnd ==> event == end,
    ensures
        only_end(pushed(s, event), end),
{
    let r = pushed(s, event);
    assert forall|i: int| 0 <= i < r.len() && (#[trigger] r[i]) is ExperimentEnd implies r[i]
        == end by {
        lemma_pushed_contains(s, event, r[i]);
        assert(r.contains(r[i]));
        if s.contains(r[i]) {
            let k = choose|k: int| 0 <= k < s.len() && s[k] == r[i];
            assert(s[k] is ExperimentEnd);
        }
    }
}

/// Simulated time does not go back: in a queue whose events are popped in
/// order, whatever is pushed in between not being earlier than the event
/// popped last, each popped event is not earlier than the one before.
pub proof fn lemma_pops_do_not_go_back(s: Seq<Event>, pushes: Seq<Event>)
    requires
        sorted_by_time(s),
        updates_unique(s),
        s.len() > 0,
        forall|i: int| 0 <= i < pushes.len() ==> (#[trigger] pushes[i]).time() >= s[0].time(),
    ensures
        sorted_by_time(pushed_all(s.drop_first(), pushes)),
        updates_unique(pushed_all(s.drop_first(), pushes)),
        none_before(pushed_all(s.drop_first(), pushes), s[0].time()),
        pushed_all(s.drop_first(), pushes).len() > 0 ==> pushed_all(s.drop_first(), pushes)[0].time()
            >= s[0].time(),
    decreases pushes.len(),
{
    let rest = s.drop_first();
    if pushes.len() == 0 {
        assert forall|i: int, j: int| 0 <= i <= j < rest.len() implies rest[i].time()
            <= rest[j].time() by {
            assert(rest[i] == s[i + 1] && rest[j] == s[j + 1]);
        }
        assert forall|i: int, j: int|
            0 <= i < rest.len() && 0 <= j < rest.len() && rest[i] is UpdateClassicalTasks
                && rest[i] == rest[j] implies i == j by {
            assert(rest[i] == s[i + 1] && rest[j] == s[j + 1]);
        }
        assert forall|i: int| 0 <= i < rest.len() implies (#[trigger] rest[i]).time()
            >= s[0].time() by {
            assert(rest[i] == s[i + 1]);
        }
    } else {
        let front = pushes.drop_last();
        assert forall|i: int| 0 <= i < front.len() implies (#[trigger] front[i]).time()
            >= s[0].time() by {
            assert(front[i] == pushes[i]);
        }
        lemma_pops_do_not_go_back(s, front);
        let mid = pushed_all(rest, front);
        lemma_pushed_preserves_order(mid, pushes.last());
        lemma_pushed_none_before(mid, pushes.last(), s[0].time());
    }
}

/// The number of queued ends of quantum iterations at time `t`.
pub open spec fn queued_ends(s: Seq<Event>, t: u64) -> nat
    decreases s.len(),
{
    if s.len() == 0 {
        0
    } else {
        queued_ends(s.drop_last(), t) + if s.last() == Event::QuantumIterationEnd(t) {
            1nat
        } else {
            0nat
        }
    }
}

/// An event that enters a sequence is counted once, if it is the end of
/// a quantum iteration at `t`.
pub proof fn lemma_queued_ends_insert(s: Seq<Event>, p: int, event: Event, t: u64)
    requires
        0 <= p <= s.len(),
    ensures
        queued_ends(s.insert(p, event), t) == queued_ends(s, t) + if event
            == Event::QuantumIterationEnd(t) {
            1nat
        } else {
            0nat
        },
    decreases s.len(),
{
    let r = s.insert(p, event);
    if p == s.len() {
        assert(r.drop_last() =~= s);
    } else {
        assert(r.drop_last() =~= s.drop_last().insert(p, event));
        assert(r.last() == s.last());
        lemma_queued_ends_insert(s.drop_last(), p, event, t);
    }
}

/// An event that leaves a sequence is no longer counted.
pub proof fn lemma_queued_ends_remove(s: Seq<Event>, p: int, t: u64)
    requires
        0 <= p < s.len(),
    ensures
        queued_ends(s.remove(p), t) + if s[p] == Event::QuantumIterationEnd(t) {
            1nat
        } else {
            0nat
        } == queued_ends(s, t),
    decreases s.len(),
{
    let r = s.remove(p);
    if p == s.len() - 1 {
        assert(r =~= s.drop_last());
    } else {
        assert(r.drop_last() =~= s.drop_last().remove(p));
        assert(r.last() == s.last());
        lemma_queued_ends_remove(s.drop_last(), p, t);
    }
}

/// A push counts the pushed event once, if it is the end of a quantum
/// iteration at `t`.
pub proof fn lemma_queued_ends_pushed(s: Seq<Event>, event: Event, t: u64)
    requires
        sorted_by_time(s),
    ensures
        queued_ends(pushed(s, event), t) == queued_ends(s, t) + if event
            == Event::QuantumIterationEnd(t) {
            1nat
        } else {
            0nat
        },
{
    lemma_insertion_point(s, event.time());
    lemma_queued_ends_insert(s, insertion_point(s, event.time()), event, t);
}

} // verus!
