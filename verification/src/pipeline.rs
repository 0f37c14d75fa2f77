//! The reordering buffer of the parallel pipeline.
//!
//! The producer takes a number for each record it hands to a worker, workers
//! report their results under that number in any order, and the caller takes
//! the results out strictly by ascending number. The buffer is a ring with
//! one place per record in flight; its behaviour is that of [`Flow`].

use crate::error::CliError;
use crate::flow::Flow;
use vstd::prelude::*;

verus! {

/// How many records may be in flight for each worker thread.
pub const QUEUE_PER_THREAD: u64 = 2;

/// The number of worker threads that are run for a requested number: at
/// least one.
pub open spec fn spec_worker_count(n_threads: u32) -> u32 {
    if n_threads == 0 {
        1
    } else {
        n_threads
    }
}

/// The most records in flight for a requested number of worker threads.
pub open spec fn window_for(n_threads: u32) -> nat {
    (QUEUE_PER_THREAD * spec_worker_count(n_threads)) as nat
}

/// The number of worker threads that are run for a requested number. A
/// request for none still gets one worker, so that reading, working and
/// finalizing stay apart.
#[verifier::when_used_as_spec(spec_worker_count)]
pub fn worker_count(n_threads: u32) -> (n: u32)
    ensures
        n == spec_worker_count(n_threads),
        n >= 1,
{
    if n_threads == 0 {
        1
    } else {
        n_threads
    }
}

/// What the caller gets when it asks for the next result in order.
pub enum Ready<T> {
    /// The result of the record with this number.
    Item(u64, T),
    /// The work on the record with this number failed; the run has ended.
    Failed(u64, CliError),
    /// The next record in order is not done yet, or none is in flight.
    Wait,
    /// The run has ended.
    Closed,
}

/// The reordering buffer.
pub struct Pipeline<T> {
    /// The ring. It grows to `window` places while the first records are
    /// dispatched. The place of a record in flight holds its result once a
    /// worker has reported it.
    slots: Vec<Option<Result<T, CliError>>>,
    window: u64,
    /// The place of the record with the number `finalized`.
    head: u64,
    finalized: u64,
    dispatched: u64,
    open: bool,
}

impl<T> Pipeline<T> {
    /// The place in the ring of the record with the number `seq`.
    pub closed spec fn place(&self, seq: int) -> int {
        let i = self.head + (seq - self.finalized);
        if i < self.window {
            i
        } else {
            i - self.window
        }
    }

    /// The representation invariant.
    pub closed spec fn wf(&self) -> bool {
        &&& 0 < self.window <= QUEUE_PER_THREAD * u32::MAX
        &&& self.finalized <= self.dispatched <= self.finalized + self.window
        &&& self.head < self.window
        &&& (self.dispatched < self.window ==> self.slots.len() == self.dispatched && self.head
            == self.finalized)
        &&& (self.dispatched >= self.window ==> self.slots.len() == self.window)
    }

    /// The buffer as a state of the model.
    pub closed spec fn view(&self) -> Flow<T> {
        Flow {
            window: self.window as nat,
            dispatched: self.dispatched as nat,
            finalized: self.finalized as nat,
            results: Map::new(
                |seq: nat|
                    self.finalized <= seq < self.dispatched && self.slots[self.place(
                        seq as int,
                    )] is Some,
                |seq: nat| self.slots[self.place(seq as int)]->Some_0,
            ),
            open: self.open,
        }
    }

    /// A well-formed buffer is a state that the model can reach, with
    /// numbers that the machine holds.
    pub proof fn lemma_view_inv(&self)
        requires
            self.wf(),
        ensures
            self@.inv(),
            self@.dispatched <= u64::MAX,
    {
    }

    /// An empty buffer for the given number of worker threads.
    pub fn new(n_threads: u32) -> (p: Self)
        ensures
            p.wf(),
            p@ == Flow::<T>::start(window_for(n_threads)),
    {
        let p = Pipeline {
            slots: Vec::new(),
            window: QUEUE_PER_THREAD * (worker_count(n_threads) as u64),
            head: 0,
            finalized: 0,
            dispatched: 0,
            open: true,
        };
        assert(p@.results =~= Map::empty());
        p
    }

    /// The most records that may be in flight.
    pub fn window(&self) -> (w: u64)
        requires
            self.wf(),
        ensures
            w == self@.window,
    {
        self.window
    }

    /// How many records were dispatched.
    pub fn dispatched(&self) -> (n: u64)
        requires
            self.wf(),
        ensures
            n == self@.dispatched,
    {
        self.dispatched
    }

    /// How many results were delivered.
    pub fn finalized(&self) -> (n: u64)
        requires
            self.wf(),
        ensures
            n == self@.finalized,
    {
        self.finalized
    }

    /// How many records are dispatched and not yet delivered.
    pub fn in_flight(&self) -> (n: u64)
        requires
            self.wf(),
        ensures
            n == self@.in_flight(),
            n <= self@.window,
    {
        self.dispatched - self.finalized
    }

    /// Whether records are still dispatched and delivered.
    pub fn is_open(&self) -> (b: bool)
        requires
            self.wf(),
        ensures
            b == self@.open,
    {
        self.open
    }

    /// The place in the ring of a record in flight.
    fn place_of(&self, seq: u64) -> (i: usize)
        requires
            self.wf(),
            self.finalized <= seq < self.dispatched,
        ensures
            i == self.place(seq as int),
            i < self.slots.len(),
    {
        let i: u64 = self.head + (seq - self.finalized);
        if i < self.window {
            i as usize
        } else {
            (i - self.window) as usize
        }
    }

    /// Takes the number for the next record, if one more record may be in
    /// flight: the run is open, the window is not full, and the numbers are
    /// not used up.
    pub fn try_dispatch(&mut self) -> (seq: Option<u64>)
        requires
            old(self).wf(),
        ensures
            final(self).wf(),
            seq is Some <==> old(self)@.can_dispatch() && old(self)@.dispatched < u64::MAX,
            seq matches Some(n) ==> n == old(self)@.dispatched && final(self)@ == old(
                self,
            )@.dispatch(),
            seq is None ==> final(self)@ == old(self)@,
    {
        if !self.open || self.dispatched - self.finalized >= self.window || self.dispatched
            == u64::MAX {
            return None;
        }
        let seq: u64 = self.dispatched;
        if self.dispatched < self.window {
            self.slots.push(None);
            self.dispatched = seq + 1;
        } else {
            self.dispatched = seq + 1;
            let i: usize = self.place_of(seq);
            self.slots.set(i, None);
        }
        proof {
            let before = old(self);
            assert forall|s: int| before.finalized <= s < before.dispatched implies self.place(s)
                == before.place(s) && self.place(s) != self.place(seq as int) && self.slots[self.place(
                s,
            )] == before.slots[before.place(s)] by {}
            assert(self@.results =~= before@.results);
        }
        Some(seq)
    }

    /// Keeps the result that a worker reports for the record `seq`. A report
    /// for a record that is not in flight, or that has its result already,
    /// is dropped.
    pub fn complete(&mut self, seq: u64, result: Result<T, CliError>) -> (accepted: bool)
        requires
            old(self).wf(),
        ensures
            final(self).wf(),
            accepted == old(self)@.is_pending(seq as nat),
            final(self)@ == old(self)@.complete(seq as nat, result),
    {
        if seq < self.finalized || seq >= self.dispatched {
            return false;
        }
        let i: usize = self.place_of(seq);
        if self.slots[i].is_some() {
            return false;
        }
        self.slots.set(i, Some(result));
        proof {
            let before = old(self);
            assert forall|s: int|
                before.finalized <= s < before.dispatched && s != seq implies self.place(s)
                != self.place(seq as int) by {}
            assert(self@.results =~= before@.results.insert(seq as nat, result));
        }
        true
    }

    /// Takes out the result of the next record in order, if it is there. A
    /// failed result ends the run.
    pub fn next_ready(&mut self) -> (r: Ready<T>)
        requires
            old(self).wf(),
        ensures
            final(self).wf(),
            final(self)@ == old(self)@.deliver(),
            match r {
                Ready::Item(seq, t) => old(self)@.handed() == Some((seq as nat, Ok::<T, CliError>(t))),
                Ready::Failed(seq, e) => old(self)@.handed() == Some(
                    (seq as nat, Err::<T, CliError>(e)),
                ),
                Ready::Wait => old(self)@.open && old(self)@.handed() is None,
                Ready::Closed => !old(self)@.open,
            },
    {
        if !self.open {
            return Ready::Closed;
        }
        if self.finalized == self.dispatched {
            return Ready::Wait;
        }
        let seq: u64 = self.finalized;
        let i: usize = self.place_of(seq);
        if self.slots[i].is_none() {
            return Ready::Wait;
        }
        let mut taken: Option<Result<T, CliError>> = None;
        self.slots.set_and_swap(i, &mut taken);
        self.finalized = seq + 1;
        self.head = if self.head + 1 == self.window {
            0
        } else {
            self.head + 1
        };
        if let Some(Err(_)) = &taken {
            self.open = false;
        }
        proof {
            let before = old(self);
            assert forall|s: int| before.finalized < s < before.dispatched implies self.place(s)
                == before.place(s) && before.place(s) != before.place(seq as int) by {}
            assert(self@.results =~= before@.results.remove(seq as nat));
        }
        match taken {
            Some(Ok(t)) => Ready::Item(seq, t),
            Some(Err(e)) => Ready::Failed(seq, e),
            None => Ready::Wait,
        }
    }

    /// Ends the run: nothing more is dispatched or delivered. Workers may
    /// still report.
    pub fn stop(&mut self)
        requires
            old(self).wf(),
        ensures
            final(self).wf(),
            final(self)@ == old(self)@.stop(),
    {
        self.open = false;
        assert(self@.results =~= old(self)@.results);
    }

    /// Whether every record in flight has its result, so that no worker is
    /// busy any more.
    pub fn is_drained(&self) -> (b: bool)
        requires
            self.wf(),
        ensures
            b == self@.drained(),
    {
        let mut seq: u64 = self.finalized;
        while seq < self.dispatched
            invariant
                self.wf(),
                self.finalized <= seq <= self.dispatched,
                forall|s: nat| self.finalized <= s < seq ==> self@.results.contains_key(s),
            decreases self.dispatched - seq,
        {
            let i: usize = self.place_of(seq);
            if self.slots[i].is_none() {
                assert(!self@.results.contains_key(seq as nat));
                return false;
            }
            assert(self@.results.contains_key(seq as nat));
            seq = seq + 1;
        }
        true
    }
}

} // verus!
