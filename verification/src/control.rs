//! The control of a parallel run, for a caller that owns the threads.
//!
//! The calling thread reads the records, hands them to workers, and
//! finalizes the results; the workers report back. What the calling thread
//! does next is decided here: it tells the control what happened, and the
//! control answers with the next thing to do. The control keeps the
//! reordering buffer, so that results are finalized in the order of the
//! records and no more records are in flight than the window admits. It never
//! asks to wait for a worker when no worker owes a result, and it ends the
//! run only when no worker is busy any more.

use crate::error::CliError;
use crate::flow::Flow;
use crate::pipeline::Pipeline;
use crate::pipeline::Ready;
use vstd::prelude::*;

verus! {

/// The part of a run in which an error arose.
#[derive(Clone, Copy, Debug, PartialEq, Eq, Structural)]
pub enum Stage {
    /// Reading the source.
    Read,
    /// The work on a record.
    Process,
    /// Finalizing a record, where the output is written.
    Write,
}

/// How a run ended.
pub enum Outcome {
    /// The source is at its end and every record was finalized.
    Completed,
    /// The caller's `finalize` asked to stop.
    Stopped,
    /// The source, the work on a record, or `finalize` failed, with the
    /// error.
    Failed(Stage, CliError),
    /// There are more records than the machine has numbers for.
    Exhausted,
    /// The caller told of something that the control had not asked for, or
    /// went on after the end.
    Misused,
}

/// What the calling thread is to do next.
pub enum Action<T> {
    /// Read the next record from the source. If there is one, hand it to a
    /// worker under this number and tell `Dispatched`; else tell
    /// `SourceEnded`, or `SourceFailed` with the error of the source.
    Read(u64),
    /// Wait until a worker reports, and tell `WorkerDone` with its report.
    Await,
    /// Pass the result of the record with this number to `finalize`, and
    /// tell `Finalized` with what it returns.
    Finalize(u64, T),
    /// End the run: no worker is busy any more.
    Finish(Outcome),
}

/// What the calling thread tells the control.
pub enum Happened<T> {
    /// The run begins.
    Started,
    /// A record was read and handed to a worker.
    Dispatched,
    /// The source is at its end.
    SourceEnded,
    /// The source failed.
    SourceFailed(CliError),
    /// A worker reports the result for the record with this number.
    WorkerDone(u64, Result<T, CliError>),
    /// `finalize` returned: whether to go on, or its error.
    Finalized(Result<bool, CliError>),
}

/// What the control waits to be told: the answer to its last action.
pub enum Waiting {
    Start,
    Record,
    Worker,
    Verdict,
    Nothing,
}

/// Where a run stands.
pub enum Phase {
    /// Records are read and finalized.
    Running,
    /// The run is to end with this outcome once no worker is busy.
    Ending(Outcome),
    /// The run has ended.
    Done,
}

/// The state of the control, as a mathematical model.
pub struct Course<T> {
    /// The records in flight and their results.
    pub flow: Flow<T>,
    /// Whether the source is at its end or has failed.
    pub source_done: bool,
    /// The number under which a failure of the source is kept, in place of
    /// a record.
    pub source_failure: Option<u64>,
    pub phase: Phase,
    pub waiting: Waiting,
}

impl Stage {
    /// The name of the stage in messages.
    pub open spec fn spec_name(self) -> Seq<char> {
        match self {
            Stage::Read => "Reading failed"@,
            Stage::Process => "Processing failed"@,
            Stage::Write => "Writing failed"@,
        }
    }

    /// The name of the stage in messages.
    pub fn name(self) -> (name: &'static str)
        ensures
            name@ == self.spec_name(),
    {
        match self {
            Stage::Read => "Reading failed",
            Stage::Process => "Processing failed",
            Stage::Write => "Writing failed",
        }
    }
}

impl Outcome {
    /// The outcome as the result of the run: whether every record was
    /// finalized, or the error with the stage in which it arose named before
    /// its message.
    pub fn into_result(self) -> (r: Result<bool, CliError>)
        ensures
            match self {
                Outcome::Completed => r == Ok::<bool, CliError>(true),
                Outcome::Stopped => r == Ok::<bool, CliError>(false),
                Outcome::Failed(stage, e) => r matches Err(named) && named is Other && (e is Other
                    ==> named.text() == stage.spec_name() + ": "@ + e.text()),
                Outcome::Exhausted => r matches Err(e) && e is Other && e.text()
                    == "Too many sequences"@,
                Outcome::Misused => r matches Err(e) && e is Other && e.text()
                    == "The run was not driven as its control asked"@,
            },
    {
        match self {
            Outcome::Completed => Ok(true),
            Outcome::Stopped => Ok(false),
            Outcome::Failed(stage, e) => Err(e.within(stage.name())),
            Outcome::Exhausted => Err(CliError::other("Too many sequences")),
            Outcome::Misused => Err(CliError::other("The run was not driven as its control asked")),
        }
    }
}

impl<T> Course<T> {
    /// The control before the run.
    pub open spec fn start(window: nat) -> Self {
        Course {
            flow: Flow::start(window),
            source_done: false,
            source_failure: None,
            phase: Phase::Running,
            waiting: Waiting::Start,
        }
    }

    /// What holds of every state that the control reaches.
    pub open spec fn inv(self) -> bool {
        &&& self.flow.inv()
        &&& self.flow.dispatched <= u64::MAX
        &&& self.flow.open <==> self.phase is Running
        &&& self.phase matches Phase::Ending(outcome) ==> outcome is Stopped || outcome is Failed
    }

    /// Whether the control waits to be told of this.
    pub open spec fn expects(self, event: Happened<T>) -> bool {
        match (self.waiting, event) {
            (Waiting::Start, Happened::Started) => true,
            (Waiting::Record, Happened::Dispatched) => true,
            (Waiting::Record, Happened::SourceEnded) => true,
            (Waiting::Record, Happened::SourceFailed(_)) => true,
            (Waiting::Worker, Happened::WorkerDone(_, _)) => true,
            (Waiting::Verdict, Happened::Finalized(_)) => true,
            _ => false,
        }
    }

    /// Whether one more record can be read: the source has more, the window
    /// has room, and the numbers are not used up.
    pub open spec fn can_read(self) -> bool {
        !self.source_done && self.flow.can_dispatch() && self.flow.dispatched < u64::MAX
    }

    /// The state after the control was told of something that it waited
    /// for. A failure of the source takes the place of the next record, so
    /// that it comes after the results of all records before it.
    pub open spec fn absorb(self, event: Happened<T>) -> Self {
        match event {
            Happened::Started => self,
            Happened::Dispatched => if self.can_read() {
                Course { flow: self.flow.dispatch(), ..self }
            } else {
                self
            },
            Happened::SourceEnded => Course { source_done: true, ..self },
            Happened::SourceFailed(e) => if self.can_read() {
                Course {
                    flow: self.flow.dispatch().complete(self.flow.dispatched, Err(e)),
                    source_done: true,
                    source_failure: Some(self.flow.dispatched as u64),
                    ..self
                }
            } else {
                Course {
                    flow: self.flow.stop(),
                    source_done: true,
                    phase: Phase::Ending(Outcome::Failed(Stage::Read, e)),
                    ..self
                }
            },
            Happened::WorkerDone(seq, r) => Course { flow: self.flow.complete(seq as nat, r), ..self },
            Happened::Finalized(verdict) => match verdict {
                Ok(true) => self,
                Ok(false) => Course {
                    flow: self.flow.stop(),
                    phase: Phase::Ending(Outcome::Stopped),
                    ..self
                },
                Err(e) => Course {
                    flow: self.flow.stop(),
                    phase: Phase::Ending(Outcome::Failed(Stage::Write, e)),
                    ..self
                },
            },
        }
    }

    /// The part of the run in which the failure arose that is kept under the
    /// number `seq`: reading, if it is the failure of the source, and else
    /// the work on the record.
    pub open spec fn stage_of(self, seq: nat) -> Stage {
        if self.source_failure == Some(seq as u64) {
            Stage::Read
        } else {
            Stage::Process
        }
    }

    /// The end of a run that is to end with `outcome`: at once if no worker
    /// is busy, and else after the workers have reported.
    pub open spec fn wind_down(self, outcome: Outcome) -> (Self, Action<T>) {
        if self.flow.drained() {
            (Course { phase: Phase::Done, waiting: Waiting::Nothing, ..self }, Action::Finish(outcome))
        } else {
            (
                Course { phase: Phase::Ending(outcome), waiting: Waiting::Worker, ..self },
                Action::Await,
            )
        }
    }

    /// What is to be done next, and the state with that under way. While the
    /// run goes on: finalize the next result in order if it is there; else
    /// read a record if one more may be in flight; else wait for a worker if
    /// any is busy; else the run is complete.
    pub open spec fn decide(self) -> (Self, Action<T>) {
        match self.phase {
            Phase::Running => match self.flow.handed() {
                Some((seq, Ok(item))) => (
                    Course { flow: self.flow.deliver(), waiting: Waiting::Verdict, ..self },
                    Action::Finalize(seq as u64, item),
                ),
                Some((seq, Err(e))) => Course { flow: self.flow.deliver(), ..self }.wind_down(
                    Outcome::Failed(self.stage_of(seq), e),
                ),
                None => if self.can_read() {
                    (
                        Course { waiting: Waiting::Record, ..self },
                        Action::Read(self.flow.dispatched as u64),
                    )
                } else if self.flow.in_flight() > 0 {
                    (Course { waiting: Waiting::Worker, ..self }, Action::Await)
                } else {
                    (
                        Course {
                            flow: self.flow.stop(),
                            phase: Phase::Done,
                            waiting: Waiting::Nothing,
                            ..self
                        },
                        Action::Finish(
                            if self.source_done {
                                Outcome::Completed
                            } else {
                                Outcome::Exhausted
                            },
                        ),
                    )
                },
            },
            Phase::Ending(outcome) => self.wind_down(outcome),
            Phase::Done => (
                Course { waiting: Waiting::Nothing, ..self },
                Action::Finish(Outcome::Misused),
            ),
        }
    }

    /// The state after the control was told of something, and its answer.
    /// Something that it did not wait for ends the run.
    pub open spec fn step(self, event: Happened<T>) -> (Self, Action<T>) {
        if self.expects(event) {
            self.absorb(event).decide()
        } else {
            (
                Course {
                    flow: self.flow.stop(),
                    phase: Phase::Done,
                    waiting: Waiting::Nothing,
                    ..self
                },
                Action::Finish(Outcome::Misused),
            )
        }
    }
}

/// Every step keeps the invariant and the window.
pub proof fn lemma_step_inv<T>(c: Course<T>, event: Happened<T>)
    requires
        c.inv(),
    ensures
        c.step(event).0.inv(),
        c.step(event).0.flow.window == c.flow.window,
{
}

/// No deadlock: whenever the control asks to wait for a worker, a record is
/// in flight whose result no worker has reported yet.
pub proof fn law_await_has_pending<T>(c: Course<T>, event: Happened<T>)
    requires
        c.inv(),
        c.step(event).1 is Await,
    ensures
        exists|seq: nat| #[trigger] c.step(event).0.flow.is_pending(seq),
{
    let after = c.step(event).0;
    let a = c.absorb(event);
    if a.phase is Running && a.flow.handed() is None {
        assert(after.flow.is_pending(after.flow.finalized));
    } else {
        let seq = choose|seq: nat|
            after.flow.finalized <= seq < after.flow.dispatched && !after.flow.results.contains_key(
                seq,
            );
        assert(after.flow.is_pending(seq));
    }
}

/// Order and resource bound: a result that the control hands to `finalize`
/// is the one of the next record in order, as a worker reported it, and no
/// more records than the window admits are in flight.
pub proof fn law_finalize_in_order<T>(c: Course<T>, event: Happened<T>, seq: u64, item: T)
    requires
        c.inv(),
        c.step(event).1 == Action::Finalize(seq, item),
    ensures
        seq == c.absorb(event).flow.finalized,
        c.absorb(event).flow.results[seq as nat] == Ok::<T, CliError>(item),
        c.step(event).0.flow.finalized == seq + 1,
        c.step(event).0.flow.in_flight() <= c.flow.window,
{
    lemma_step_inv(c, event);
}

/// Clean end: when the control ends the run, no worker is busy; and it
/// calls the run complete only if the source is at its end and every record
/// that was read was finalized.
pub proof fn law_finish_is_clean<T>(c: Course<T>, event: Happened<T>)
    requires
        c.inv(),
        c.expects(event),
        !(c.phase is Done),
        c.step(event).1 is Finish,
    ensures
        c.step(event).0.flow.drained(),
        c.step(event).1 == Action::<T>::Finish(Outcome::Completed) ==> c.step(event).0.source_done
            && c.step(event).0.flow.in_flight() == 0 && c.phase is Running,
{
}

/// Error taxonomy: a failure that `finalize` reports ends the run as a
/// failure of writing, and a failure that the source reports while the run
/// cannot take it in order ends the run as a failure of reading.
pub proof fn law_failure_names_its_stage<T>(c: Course<T>, event: Happened<T>, e: CliError)
    requires
        c.inv(),
        c.expects(event),
        event == Happened::<T>::Finalized(Err(e)) || (event == Happened::<T>::SourceFailed(e)
            && !c.can_read()),
    ensures
        c.step(event).1 is Finish ==> c.step(event).1 == Action::<T>::Finish(
            Outcome::Failed(
                if event is Finalized {
                    Stage::Write
                } else {
                    Stage::Read
                },
                e,
            ),
        ),
        c.step(event).1 is Await ==> c.step(event).0.phase == Phase::Ending(
            Outcome::Failed(
                if event is Finalized {
                    Stage::Write
                } else {
                    Stage::Read
                },
                e,
            ),
        ),
{
}

/// No way back: once a run is ending, nothing more is read or finalized.
pub proof fn law_ending_is_final<T>(c: Course<T>, event: Happened<T>)
    requires
        c.inv(),
        !(c.phase is Running),
    ensures
        !(c.step(event).0.phase is Running),
        c.step(event).1 is Await || c.step(event).1 is Finish,
        c.step(event).0.flow.finalized == c.flow.finalized,
        c.step(event).0.flow.dispatched == c.flow.dispatched,
{
}

/// The control of a parallel run.
pub struct Control<T> {
    pipe: Pipeline<T>,
    source_done: bool,
    source_failure: Option<u64>,
    phase: Phase,
    waiting: Waiting,
}

impl<T> Control<T> {
    /// The representation invariant.
    pub closed spec fn wf(&self) -> bool {
        &&& self.pipe.wf()
        &&& self.pipe@.open <==> self.phase is Running
        &&& self.phase matches Phase::Ending(outcome) ==> outcome is Stopped || outcome is Failed
    }

    /// The control as a state of the model.
    pub closed spec fn view(&self) -> Course<T> {
        Course {
            flow: self.pipe@,
            source_done: self.source_done,
            source_failure: self.source_failure,
            phase: self.phase,
            waiting: self.waiting,
        }
    }

    /// A well-formed control is a state that the model can reach.
    pub proof fn lemma_view_inv(&self)
        requires
            self.wf(),
        ensures
            self@.inv(),
    {
        self.pipe.lemma_view_inv();
    }

    /// The control of a run with the given number of worker threads.
    pub fn new(n_threads: u32) -> (c: Self)
        ensures
            c.wf(),
            c@ == Course::<T>::start(crate::pipeline::window_for(n_threads)),
    {
        Control {
            pipe: Pipeline::new(n_threads),
            source_done: false,
            source_failure: None,
            phase: Phase::Running,
            waiting: Waiting::Start,
        }
    }

    /// How many records are dispatched and not yet finalized.
    pub fn in_flight(&self) -> (n: u64)
        requires
            self.wf(),
        ensures
            n == self@.flow.in_flight(),
            n <= self@.flow.window,
    {
        self.pipe.in_flight()
    }

    /// Whether the control waits to be told of this.
    fn expects(&self, event: &Happened<T>) -> (b: bool)
        ensures
            b == self@.expects(*event),
    {
        match (&self.waiting, event) {
            (Waiting::Start, Happened::Started) => true,
            (Waiting::Record, Happened::Dispatched) => true,
            (Waiting::Record, Happened::SourceEnded) => true,
            (Waiting::Record, Happened::SourceFailed(_)) => true,
            (Waiting::Worker, Happened::WorkerDone(_, _)) => true,
            (Waiting::Verdict, Happened::Finalized(_)) => true,
            _ => false,
        }
    }

    /// Whether one more record can be read.
    fn can_read(&self) -> (b: bool)
        requires
            self.wf(),
        ensures
            b == self@.can_read(),
    {
        !self.source_done && self.pipe.is_open() && self.pipe.in_flight() < self.pipe.window()
            && self.pipe.dispatched() < u64::MAX
    }

    /// Ends the run with `outcome`, at once or after the workers have
    /// reported.
    fn wind_down(&mut self, outcome: Outcome) -> (action: Action<T>)
        requires
            old(self).pipe.wf(),
            !old(self).pipe@.open,
            outcome is Stopped || outcome is Failed,
        ensures
            final(self).wf(),
            (final(self)@, action) == old(self)@.wind_down(outcome),
    {
        if self.pipe.is_drained() {
            self.phase = Phase::Done;
            self.waiting = Waiting::Nothing;
            Action::Finish(outcome)
        } else {
            self.phase = Phase::Ending(outcome);
            self.waiting = Waiting::Worker;
            Action::Await
        }
    }

    /// What is to be done next.
    fn decide(&mut self) -> (action: Action<T>)
        requires
            old(self).wf(),
        ensures
            final(self).wf(),
            (final(self)@, action) == old(self)@.decide(),
    {
        let mut phase = Phase::Done;
        core::mem::swap(&mut self.phase, &mut phase);
        match phase {
            Phase::Running => {
                proof {
                    self.pipe.lemma_view_inv();
                }
                match self.pipe.next_ready() {
                    Ready::Item(seq, item) => {
                        self.phase = Phase::Running;
                        self.waiting = Waiting::Verdict;
                        Action::Finalize(seq, item)
                    },
                    Ready::Failed(seq, e) => {
                        let stage = if self.source_failure == Some(seq) {
                            Stage::Read
                        } else {
                            Stage::Process
                        };
                        self.wind_down(Outcome::Failed(stage, e))
                    },
                    Ready::Wait | Ready::Closed => {
                        self.phase = Phase::Running;
                        if self.can_read() {
                            self.waiting = Waiting::Record;
                            Action::Read(self.pipe.dispatched())
                        } else if self.pipe.in_flight() > 0 {
                            self.waiting = Waiting::Worker;
                            Action::Await
                        } else {
                            self.pipe.stop();
                            self.phase = Phase::Done;
                            self.waiting = Waiting::Nothing;
                            Action::Finish(
                                if self.source_done {
                                    Outcome::Completed
                                } else {
                                    Outcome::Exhausted
                                },
                            )
                        }
                    },
                }
            },
            Phase::Ending(outcome) => self.wind_down(outcome),
            Phase::Done => {
                self.waiting = Waiting::Nothing;
                Action::Finish(Outcome::Misused)
            },
        }
    }

    /// Takes in what happened and answers with what to do next. The calling
    /// thread begins with `Started` and then answers each action with what
    /// came of it, until the action is `Finish`.
    pub fn step(&mut self, event: Happened<T>) -> (action: Action<T>)
        requires
            old(self).wf(),
        ensures
            final(self).wf(),
            (final(self)@, action) == old(self)@.step(event),
    {
        if !self.expects(&event) {
            self.pipe.stop();
            self.phase = Phase::Done;
            self.waiting = Waiting::Nothing;
            return Action::Finish(Outcome::Misused);
        }
        match event {
            Happened::Started => {},
            Happened::Dispatched => {
                if self.can_read() {
                    let _ = self.pipe.try_dispatch();
                }
            },
            Happened::SourceEnded => {
                self.source_done = true;
            },
            Happened::SourceFailed(e) => {
                if self.can_read() {
                    self.source_done = true;
                    match self.pipe.try_dispatch() {
                        Some(seq) => {
                            self.source_failure = Some(seq);
                            let _ = self.pipe.complete(seq, Err(e));
                        },
                        None => {},
                    }
                } else {
                    self.source_done = true;
                    self.pipe.stop();
                    self.phase = Phase::Ending(Outcome::Failed(Stage::Read, e));
                }
            },
            Happened::WorkerDone(seq, r) => {
                let _ = self.pipe.complete(seq, r);
            },
            Happened::Finalized(verdict) => match verdict {
                Ok(true) => {},
                Ok(false) => {
                    self.pipe.stop();
                    self.phase = Phase::Ending(Outcome::Stopped);
                },
                Err(e) => {
                    self.pipe.stop();
                    self.phase = Phase::Ending(Outcome::Failed(Stage::Write, e));
                },
            },
        }
        self.decide()
    }
}

} // verus!
