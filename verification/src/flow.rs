//! The ordered hand-out and hand-back of records, as a mathematical model.
//!
//! Records are numbered in the order in which the source yields them. A record
//! is dispatched to a worker, the worker's result is reported under the
//! record's number whenever it is done, and results are delivered to the
//! caller strictly by ascending number. At most `window` records are in flight
//! (dispatched and not yet delivered) at any time.

use crate::error::CliError;
use vstd::prelude::*;

verus! {

/// The state of the pipeline.
pub struct Flow<T> {
    /// The most records that may be in flight.
    pub window: nat,
    /// How many records were dispatched: the next record gets this number.
    pub dispatched: nat,
    /// How many results were delivered: the next delivery has this number.
    pub finalized: nat,
    /// The results that were reported and not yet delivered, by number.
    pub results: Map<nat, Result<T, CliError>>,
    /// Whether records are still dispatched and delivered.
    pub open: bool,
}

/// One thing that happens to the pipeline.
pub enum Event<T> {
    /// The producer asks to dispatch the next record.
    Dispatch,
    /// A worker reports the result for the record with this number.
    Complete(nat, Result<T, CliError>),
    /// The caller asks for the next result in order.
    Deliver,
    /// The caller ends the run.
    Stop,
}

impl<T> Flow<T> {
    /// The pipeline before anything happened.
    pub open spec fn start(window: nat) -> Self {
        Flow { window, dispatched: 0, finalized: 0, results: Map::empty(), open: true }
    }

    /// What holds of every state that the pipeline reaches.
    pub open spec fn inv(self) -> bool {
        &&& self.window > 0
        &&& self.finalized <= self.dispatched <= self.finalized + self.window
        &&& forall|seq: nat| #[trigger]
            self.results.contains_key(seq) ==> self.finalized <= seq < self.dispatched
    }

    /// How many records are dispatched and not yet delivered.
    pub open spec fn in_flight(self) -> nat {
        (self.dispatched - self.finalized) as nat
    }

    /// Whether a worker still owes the result for `seq`.
    pub open spec fn is_pending(self, seq: nat) -> bool {
        self.finalized <= seq < self.dispatched && !self.results.contains_key(seq)
    }

    /// Whether every record in flight has its result.
    pub open spec fn drained(self) -> bool {
        forall|seq: nat| self.finalized <= seq < self.dispatched ==> self.results.contains_key(seq)
    }

    pub open spec fn can_dispatch(self) -> bool {
        self.open && self.in_flight() < self.window
    }

    /// The next record is dispatched under the number `self.dispatched`,
    /// unless the window is full or the run has ended.
    pub open spec fn dispatch(self) -> Self {
        if self.can_dispatch() {
            Flow { dispatched: self.dispatched + 1, ..self }
        } else {
            self
        }
    }

    /// The result for `seq` is kept, if a worker owes it.
    pub open spec fn complete(self, seq: nat, r: Result<T, CliError>) -> Self {
        if self.is_pending(seq) {
            Flow { results: self.results.insert(seq, r), ..self }
        } else {
            self
        }
    }

    /// Whether the next result in order can be delivered.
    pub open spec fn ready(self) -> bool {
        self.open && self.results.contains_key(self.finalized)
    }

    /// What a delivery hands out: the number and the result of the next
    /// record in order, if it is there.
    pub open spec fn handed(self) -> Option<(nat, Result<T, CliError>)> {
        if self.ready() {
            Some((self.finalized, self.results[self.finalized]))
        } else {
            None
        }
    }

    /// The next result in order leaves the pipeline. A failed result ends the
    /// run.
    pub open spec fn deliver(self) -> Self {
        if self.ready() {
            Flow {
                finalized: self.finalized + 1,
                results: self.results.remove(self.finalized),
                open: self.results[self.finalized] is Ok,
                ..self
            }
        } else {
            self
        }
    }

    /// The run ends: nothing more is dispatched or delivered.
    pub open spec fn stop(self) -> Self {
        Flow { open: false, ..self }
    }

    pub open spec fn apply(self, e: Event<T>) -> Self {
        match e {
            Event::Dispatch => self.dispatch(),
            Event::Complete(seq, r) => self.complete(seq, r),
            Event::Deliver => self.deliver(),
            Event::Stop => self.stop(),
        }
    }

    /// The state after a sequence of events.
    pub open spec fn run(self, events: Seq<Event<T>>) -> Self
        decreases events.len(),
    {
        if events.len() == 0 {
            self
        } else {
            self.run(events.drop_last()).apply(events.last())
        }
    }

    /// Everything that was delivered during a sequence of events, in the
    /// order of delivery.
    pub open spec fn outputs(self, events: Seq<Event<T>>) -> Seq<(nat, Result<T, CliError>)>
        decreases events.len(),
    {
        if events.len() == 0 {
            Seq::empty()
        } else {
            let before = self.outputs(events.drop_last());
            match (events.last(), self.run(events.drop_last()).handed()) {
                (Event::Deliver, Some(item)) => before.push(item),
                _ => before,
            }
        }
    }
}

/// Every event keeps the invariant.
pub proof fn lemma_apply_inv<T>(s: Flow<T>, e: Event<T>)
    requires
        s.inv(),
    ensures
        s.apply(e).inv(),
        s.apply(e).window == s.window,
{
}

/// The invariant holds after any sequence of events.
pub proof fn lemma_run_inv<T>(window: nat, events: Seq<Event<T>>)
    requires
        window > 0,
    ensures
        Flow::<T>::start(window).run(events).inv(),
        Flow::<T>::start(window).run(events).window == window,
    decreases events.len(),
{
    if events.len() > 0 {
        lemma_run_inv::<T>(window, events.drop_last());
        lemma_apply_inv(Flow::<T>::start(window).run(events.drop_last()), events.last());
    }
}

/// As many results were delivered as the state counts, and the pipeline is
/// closed once a failed result was delivered.
proof fn lemma_outputs_counted<T>(window: nat, events: Seq<Event<T>>)
    requires
        window > 0,
    ensures
        Flow::<T>::start(window).outputs(events).len() == Flow::<T>::start(window).run(
            events,
        ).finalized,
        forall|i: int|
            0 <= i < Flow::<T>::start(window).outputs(events).len() ==> (#[trigger] Flow::<
                T,
            >::start(window).outputs(events)[i]).0 == i,
        (exists|i: int|
            0 <= i < Flow::<T>::start(window).outputs(events).len() && (#[trigger] Flow::<
                T,
            >::start(window).outputs(events)[i]).1 is Err) ==> !Flow::<T>::start(window).run(
            events,
        ).open,
    decreases events.len(),
{
    let s0 = Flow::<T>::start(window);
    if events.len() > 0 {
        let front = events.drop_last();
        lemma_outputs_counted::<T>(window, front);
        lemma_run_inv::<T>(window, front);
        let before = s0.outputs(front);
        let after = s0.outputs(events);
        if exists|i: int| 0 <= i < after.len() && (#[trigger] after[i]).1 is Err {
            let i = choose|i: int| 0 <= i < after.len() && (#[trigger] after[i]).1 is Err;
            if i < before.len() {
                assert(before[i] == after[i]);
            }
        }
    }
}

/// Resource bound: whatever happens, and in whatever order, no more than
/// `window` records are ever in flight.
pub proof fn law_window_bounds_in_flight<T>(window: nat, events: Seq<Event<T>>, j: int)
    requires
        window > 0,
        0 <= j <= events.len(),
    ensures
        Flow::<T>::start(window).run(events.take(j)).in_flight() <= window,
{
    lemma_run_inv::<T>(window, events.take(j));
}

/// Order preservation: whatever the order in which workers report, the
/// `i`-th result that is delivered is the one of record `i`.
pub proof fn law_delivery_in_order<T>(window: nat, events: Seq<Event<T>>, i: int)
    requires
        window > 0,
        0 <= i < Flow::<T>::start(window).outputs(events).len(),
    ensures
        Flow::<T>::start(window).outputs(events)[i].0 == i,
{
    lemma_outputs_counted::<T>(window, events);
}

/// A result that is kept for a record was reported for it.
proof fn lemma_kept_was_reported<T>(window: nat, events: Seq<Event<T>>, seq: nat)
    requires
        window > 0,
        Flow::<T>::start(window).run(events).results.contains_key(seq),
    ensures
        exists|j: int| #[trigger]
            events[j] == Event::Complete(seq, Flow::<T>::start(window).run(events).results[seq])
                && 0 <= j < events.len(),
    decreases events.len(),
{
    let s0 = Flow::<T>::start(window);
    if events.len() > 0 {
        let front = events.drop_last();
        let prev = s0.run(front);
        let r = s0.run(events).results[seq];
        if prev.results.contains_key(seq) && prev.results[seq] == r {
            lemma_kept_was_reported::<T>(window, front, seq);
            let j = choose|j: int| #[trigger]
                front[j] == Event::Complete(seq, prev.results[seq]) && 0 <= j < front.len();
            assert(events[j] == front[j]);
        } else {
            let j = events.len() - 1;
            assert(events[j] == Event::Complete(seq, r));
        }
    }
}

/// Payload integrity: every delivered result is one that a worker reported
/// for that very record.
pub proof fn law_delivered_was_reported<T>(window: nat, events: Seq<Event<T>>, i: int)
    requires
        window > 0,
        0 <= i < Flow::<T>::start(window).outputs(events).len(),
    ensures
        exists|j: int| #[trigger]
            events[j] == Event::Complete(
                Flow::<T>::start(window).outputs(events)[i].0,
                Flow::<T>::start(window).outputs(events)[i].1,
            ) && 0 <= j < events.len(),
    decreases events.len(),
{
    let s0 = Flow::<T>::start(window);
    let front = events.drop_last();
    let before = s0.outputs(front);
    if i < before.len() {
        law_delivered_was_reported::<T>(window, front, i);
        let j = choose|j: int| #[trigger]
            front[j] == Event::Complete(before[i].0, before[i].1) && 0 <= j < front.len();
        assert(events[j] == front[j]);
    } else {
        let prev = s0.run(front);
        lemma_kept_was_reported::<T>(window, front, prev.finalized);
        let j = choose|j: int| #[trigger]
            front[j] == Event::Complete(prev.finalized, prev.results[prev.finalized]) && 0 <= j
                < front.len();
        assert(events[j] == front[j]);
    }
}

/// Once closed, the pipeline stays closed and delivers nothing.
proof fn lemma_closed_stays<T>(s: Flow<T>, events: Seq<Event<T>>)
    requires
        !s.open,
    ensures
        !s.run(events).open,
        s.run(events).finalized == s.finalized,
        s.run(events).dispatched == s.dispatched,
        s.outputs(events).len() == 0,
    decreases events.len(),
{
    if events.len() > 0 {
        lemma_closed_stays(s, events.drop_last());
    }
}

/// Running a sequence of events is running its first part and then the rest.
proof fn lemma_run_split<T>(s: Flow<T>, events: Seq<Event<T>>, j: int)
    requires
        0 <= j <= events.len(),
    ensures
        s.run(events) == s.run(events.take(j)).run(events.skip(j)),
        s.outputs(events) == s.outputs(events.take(j)) + s.run(events.take(j)).outputs(
            events.skip(j),
        ),
    decreases events.len(),
{
    if j == events.len() {
        assert(events.take(j) == events);
        assert(events.skip(j).len() == 0);
        assert(s.outputs(events) + Seq::empty() == s.outputs(events));
    } else {
        let front = events.drop_last();
        lemma_run_split(s, front, j);
        assert(front.take(j) == events.take(j));
        assert(front.skip(j) == events.skip(j).drop_last());
        assert(events.skip(j).last() == events.last());
        let mid = s.run(events.take(j));
        let a = s.outputs(events.take(j));
        let b = mid.outputs(front.skip(j));
        match (events.last(), s.run(front).handed()) {
            (Event::Deliver, Some(item)) => {
                assert((a + b).push(item) == a + b.push(item));
            },
            _ => {},
        }
    }
}

/// Early stop: after the caller has ended the run, nothing more is
/// dispatched or delivered, whatever the workers still report.
pub proof fn law_stop_is_final<T>(window: nat, events: Seq<Event<T>>, j: int)
    requires
        window > 0,
        0 <= j < events.len(),
        events[j] is Stop,
    ensures
        Flow::<T>::start(window).outputs(events) == Flow::<T>::start(window).outputs(
            events.take(j),
        ),
        Flow::<T>::start(window).run(events).dispatched == Flow::<T>::start(window).run(
            events.take(j),
        ).dispatched,
{
    let s0 = Flow::<T>::start(window);
    lemma_run_split(s0, events, j + 1);
    let upto = events.take(j + 1);
    assert(upto.drop_last() == events.take(j));
    assert(upto.last() == events[j]);
    let closed = s0.run(upto);
    lemma_closed_stays(closed, events.skip(j + 1));
    assert(s0.outputs(upto) + Seq::empty() == s0.outputs(upto));
}

/// Error sequencing: a failed result is the last thing delivered. With
/// delivery in order, the results of all earlier records were delivered
/// before it and none of a later record ever is.
pub proof fn law_failure_is_last<T>(window: nat, events: Seq<Event<T>>, i: int)
    requires
        window > 0,
        0 <= i < Flow::<T>::start(window).outputs(events).len(),
        Flow::<T>::start(window).outputs(events)[i].1 is Err,
    ensures
        i == Flow::<T>::start(window).outputs(events).len() - 1,
    decreases events.len(),
{
    let s0 = Flow::<T>::start(window);
    let front = events.drop_last();
    let before = s0.outputs(front);
    let after = s0.outputs(events);
    if i < before.len() {
        assert(before[i] == after[i]);
        law_failure_is_last::<T>(window, front, i);
        lemma_outputs_counted::<T>(window, front);
        assert(!s0.run(front).open);
    }
}

} // verus!
