//! Driving a per-record step over the records of a source, one after the
//! other or through the parallel pipeline.
//!
//! A step takes a record and an accumulator and returns the next accumulator
//! together with the signal to go on (`true`) or to stop (`false`), or an
//! error. What a step may return is known only by its contract, so the
//! outcome of a run is stated as a relation: an outcome is possible if there
//! is a chain of accumulators, each of them a possible result of the step
//! before it.

use crate::error::CliError;
use crate::flow::Flow;
use crate::io::Compression;
use crate::io::Record;
use crate::pipeline::Pipeline;
use crate::pipeline::Ready;
use crate::pipeline::window_for;
use crate::text::decimal;
use crate::text::push_decimal;
use vstd::prelude::*;
use vstd::string::StringExecFns;

verus! {

/// Where the records of a source come from: the console, which can be read
/// once only, or the file with this path.
#[derive(Eq, PartialEq, Debug, Clone)]
pub enum InputType {
    Stdin,
    File(String),
}

/// The format of a source.
#[derive(Eq, PartialEq, Debug, Clone)]
pub enum InFormat {
    FASTA,
    FASTQ,
    /// Delimited text with this delimiter, these fields, and perhaps a
    /// header line.
    CSV(u8, Vec<String>, bool),
}

/// One source of records.
#[derive(Clone, Debug)]
pub struct InputOptions {
    pub kind: InputType,
    pub format: InFormat,
    pub compression: Option<Compression>,
    /// Whether a background thread does the reading.
    pub threaded: bool,
    /// The size of the read buffer at the start, in bytes.
    pub cap: usize,
    /// The size that the read buffer may grow to, in bytes.
    pub max_mem: usize,
}

impl InputOptions {
    /// The name by which messages call the source.
    pub open spec fn spec_name(&self) -> Seq<char> {
        match self.kind {
            InputType::Stdin => "STDIN"@,
            InputType::File(path) => path@,
        }
    }

    /// The size of the read buffer at the start: the configured one, but
    /// not above the ceiling.
    pub open spec fn spec_first_buffer(&self) -> usize {
        if self.cap <= self.max_mem {
            self.cap
        } else {
            self.max_mem
        }
    }

    /// The name by which messages call the source.
    pub fn name(&self) -> (name: String)
        ensures
            name@ == self.spec_name(),
    {
        match &self.kind {
            InputType::Stdin => String::from_str("STDIN"),
            InputType::File(path) => path.clone(),
        }
    }

    /// The size that the read buffer takes when `current` bytes are not
    /// enough: twice the size, but at least one byte and at most the
    /// ceiling. A buffer at the ceiling does not grow.
    pub fn grow_to(&self, current: usize) -> (next: Option<usize>)
        ensures
            next == grown(current, self.max_mem),
    {
        if current >= self.max_mem {
            None
        } else if current == 0 {
            Some(1)
        } else if current > self.max_mem / 2 {
            Some(self.max_mem)
        } else {
            Some(2 * current)
        }
    }

    /// Holds the raw size of a record against the ceiling of the source;
    /// `None` stands for a size beyond the machine's numbers. A record above
    /// the ceiling is refused with an error that names the source, the
    /// record's size and the ceiling.
    pub fn fit(&self, size: Option<usize>) -> (r: Result<(), CliError>)
        ensures
            r is Ok <==> (size matches Some(n) && n <= self.max_mem),
            r matches Err(e) ==> e is Other && e.text() == over_ceiling(
                self.spec_name(),
                match size {
                    Some(n) => n as nat,
                    None => usize::MAX as nat,
                },
                self.max_mem as nat,
            ),
    {
        match size {
            Some(n) => if n <= self.max_mem {
                Ok(())
            } else {
                Err(ceiling_error(self.name().as_str(), n, self.max_mem))
            },
            None => Err(ceiling_error(self.name().as_str(), usize::MAX, self.max_mem)),
        }
    }

    /// The size of the read buffer that holds a record of `size` bytes: the
    /// first size that is large enough, starting with the buffer's first size
    /// and growing as `grow_to` says. A record above the ceiling is refused,
    /// with an error that names the source, the record's size and the
    /// ceiling: it is never cut short.
    pub fn buffer_for(&self, size: usize) -> (r: Result<usize, CliError>)
        ensures
            match r {
                Ok(buffer) => size <= self.max_mem && buffer == fitted(
                    self.spec_first_buffer(),
                    size,
                    self.max_mem,
                ) && size <= buffer <= self.max_mem,
                Err(e) => size > self.max_mem && e is Other && e.text() == over_ceiling(
                    self.spec_name(),
                    size as nat,
                    self.max_mem as nat,
                ),
            },
    {
        if size > self.max_mem {
            return Err(ceiling_error(self.name().as_str(), size, self.max_mem));
        }
        let mut buffer: usize = if self.cap <= self.max_mem {
            self.cap
        } else {
            self.max_mem
        };
        while buffer < size
            invariant
                size <= self.max_mem,
                buffer <= self.max_mem,
                fitted(buffer, size, self.max_mem) == fitted(
                    self.spec_first_buffer(),
                    size,
                    self.max_mem,
                ),
            decreases self.max_mem - buffer,
        {
            match self.grow_to(buffer) {
                Some(next) => {
                    buffer = next;
                },
                None => {
                    return Ok(buffer);
                },
            }
        }
        Ok(buffer)
    }
}

/// The sum of two sizes, or `None` if it is beyond the machine's numbers.
pub fn add_sizes(a: Option<usize>, b: usize) -> (sum: Option<usize>)
    ensures
        sum == match a {
            Some(a) => if a + b <= usize::MAX {
                Some((a + b) as usize)
            } else {
                None
            },
            None => None,
        },
{
    match a {
        Some(a) => if b <= usize::MAX - a {
            Some(a + b)
        } else {
            None
        },
        None => None,
    }
}

/// The size of a record as messages show it: the size itself, or the
/// largest number of the machine for a size beyond it.
pub open spec fn shown_size(size: nat) -> nat {
    if size <= usize::MAX {
        size
    } else {
        usize::MAX as nat
    }
}

/// The error for a record of `size` bytes in a source whose read buffer may
/// not grow above `max_mem` bytes.
pub fn ceiling_error(source: &str, size: usize, max_mem: usize) -> (e: CliError)
    ensures
        e is Other,
        e.text() == over_ceiling(source@, size as nat, max_mem as nat),
{
    let mut msg = String::from_str("Record of ");
    push_decimal(&mut msg, size);
    msg.append(" bytes in ");
    msg.append(source);
    msg.append(" exceeds the memory limit of ");
    push_decimal(&mut msg, max_mem);
    msg.append(" bytes");
    CliError::Other(msg)
}

/// The size that a read buffer of `buffer` bytes has grown to when it holds
/// `size` bytes, or when it is at the ceiling.
pub open spec fn fitted(buffer: usize, size: usize, max_mem: usize) -> usize
    decreases max_mem - buffer,
{
    if buffer >= size {
        buffer
    } else {
        match grown(buffer, max_mem) {
            Some(next) => fitted(next, size, max_mem),
            None => buffer,
        }
    }
}

/// The size that a read buffer of `current` bytes grows to under the ceiling
/// `max_mem`, or `None` if it is at the ceiling.
pub open spec fn grown(current: usize, max_mem: usize) -> Option<usize> {
    if current >= max_mem {
        None
    } else if current == 0 {
        Some(1usize)
    } else if 2 * current > max_mem {
        Some(max_mem)
    } else {
        Some((2 * current) as usize)
    }
}

/// The message for a record that is larger than the read buffer may grow.
pub open spec fn over_ceiling(source: Seq<char>, size: nat, max_mem: nat) -> Seq<char> {
    "Record of "@ + decimal(size) + " bytes in "@ + source + " exceeds the memory limit of "@
        + decimal(max_mem) + " bytes"@
}

/// What a step returns: the next accumulator and whether to go on, or an
/// error.
pub type StepResult<A> = Result<(A, bool), CliError>;

/// Whether the step on record `i` may turn `trace[i]` into `trace[i + 1]` and
/// ask to go on.
pub open spec fn linked<R, A>(
    rel: spec_fn(R, A, StepResult<A>) -> bool,
    recs: Seq<R>,
    trace: Seq<A>,
    i: int,
) -> bool {
    rel(recs[i], trace[i], Ok((trace[i + 1], true)))
}

/// The accumulators of a run that is still going on: `trace[i]` is the
/// accumulator before record `i`, and every step taken so far asked to go on.
pub open spec fn is_trace<R, A>(
    rel: spec_fn(R, A, StepResult<A>) -> bool,
    recs: Seq<R>,
    init: A,
    trace: Seq<A>,
) -> bool {
    &&& 1 <= trace.len() <= recs.len() + 1
    &&& trace[0] == init
    &&& forall|i: int| 0 <= i < trace.len() - 1 ==> #[trigger] linked(rel, recs, trace, i)
}

/// How a run with the accumulators `trace` ends in `out`: all records were
/// taken and the step asked to go on every time, or the step after the last
/// accumulator asked to stop or failed.
pub open spec fn ends_with<R, A>(
    rel: spec_fn(R, A, StepResult<A>) -> bool,
    recs: Seq<R>,
    trace: Seq<A>,
    out: StepResult<A>,
) -> bool {
    let k = trace.len() - 1;
    if k == recs.len() {
        out == Ok::<(A, bool), CliError>((trace[k], true))
    } else {
        rel(recs[k], trace[k], out) && !(out matches Ok((_, true)))
    }
}

/// Whether `out` is a possible outcome of driving the step relation `rel`
/// over `recs` in order, starting with the accumulator `init`. The outcome
/// `Ok((a, true))` means that every record was taken; `Ok((a, false))` that a
/// step asked to stop; `Err(e)` that a step failed. No record after the one
/// that stopped or failed is passed to a step.
pub open spec fn drives<R, A>(
    rel: spec_fn(R, A, StepResult<A>) -> bool,
    recs: Seq<R>,
    init: A,
    out: StepResult<A>,
) -> bool {
    exists|trace: Seq<A>| #[trigger] is_trace(rel, recs, init, trace) && ends_with(rel, recs, trace, out)
}

/// The relation between a record, the accumulator before it and what the step
/// may return, for an executable step.
pub open spec fn step_rel<R, A, F: Fn(&R, A) -> StepResult<A>>(step: F) -> spec_fn(
    R,
    A,
    StepResult<A>,
) -> bool {
    |rec: R, acc: A, out: StepResult<A>| step.ensures((&rec, acc), out)
}

/// The sequential driver for the first `upto` records of one source. It
/// passes the records to `step` one at a time and in order, handing each the
/// accumulator that the step before returned. It ends when these records are
/// used up, when a step asks to stop, or with the error of the step that
/// fails.
pub fn run_reader_upto<R, A, F>(records: &Vec<R>, upto: usize, init: A, step: &F) -> (out:
    StepResult<A>) where F: Fn(&R, A) -> StepResult<A>
    requires
        forall|r: &R, a: A| step.requires((r, a)),
        upto <= records.len(),
    ensures
        drives(step_rel(*step), records@.take(upto as int), init, out),
{
    let ghost rel = step_rel(*step);
    let ghost recs = records@.take(upto as int);
    let ghost mut trace: Seq<A> = seq![init];
    let mut acc = init;
    let mut i: usize = 0;
    while i < upto
        invariant
            forall|r: &R, a: A| step.requires((r, a)),
            rel == step_rel(*step),
            recs == records@.take(upto as int),
            i <= upto <= records.len(),
            trace.len() == i + 1,
            trace[i as int] == acc,
            is_trace(rel, recs, init, trace),
        decreases upto - i,
    {
        let out = step(&records[i], acc);
        assert(recs[i as int] == records@[i as int]);
        match out {
            Ok((next, true)) => {
                proof {
                    let longer = trace.push(next);
                    assert forall|j: int| 0 <= j < longer.len() - 1 implies #[trigger] linked(
                        rel,
                        recs,
                        longer,
                        j,
                    ) by {
                        if j < i {
                            assert(linked(rel, recs, trace, j));
                        }
                    }
                    trace = longer;
                }
                acc = next;
                i = i + 1;
            },
            other => {
                assert(is_trace(rel, recs, init, trace) && ends_with(rel, recs, trace, other));
                return other;
            },
        }
    }
    assert(is_trace(rel, recs, init, trace) && ends_with(rel, recs, trace, Ok((acc, true))));
    Ok((acc, true))
}

/// The sequential driver for the records of one source. It passes the
/// records to `step` one at a time and in order, handing each the accumulator
/// that the step before returned. It ends when the records are used up, when
/// a step asks to stop, or with the error of the step that fails.
pub fn run_reader<R, A, F>(records: &Vec<R>, init: A, step: &F) -> (out: StepResult<A>) where
    F: Fn(&R, A) -> StepResult<A>,

    requires
        forall|r: &R, a: A| step.requires((r, a)),
    ensures
        drives(step_rel(*step), records@, init, out),
{
    assert(records@.take(records.len() as int) == records@);
    run_reader_upto(records, records.len(), init, step)
}

/// Whether `res` is a possible result of the work on `rec`: of `work` called
/// with the record, a fresh output slot from `data_init`, and the worker's
/// local state.
pub open spec fn worked<R, S, D, Di: Fn() -> D, W: Fn(&R, D, &S) -> Result<D, CliError>>(
    data_init: Di,
    work: W,
    local: S,
    rec: R,
    res: Result<D, CliError>,
) -> bool {
    exists|slot: D| #[trigger] data_init.ensures((), slot) && work.ensures((&rec, slot, &local), res)
}

/// What follows the work on a record: its output slot goes to `finalize`
/// together with the accumulator; if the work failed, its error is the
/// outcome and `finalize` is not called.
pub open spec fn finalized_as<R, D, A, F: Fn(&R, D, A) -> StepResult<A>>(
    finalize: F,
    rec: R,
    res: Result<D, CliError>,
    acc: A,
    out: StepResult<A>,
) -> bool {
    match res {
        Ok(slot) => finalize.ensures((&rec, slot, acc), out),
        Err(e) => out == Err::<(A, bool), CliError>(e),
    }
}

/// The step relation of the parallel pipeline: the work on the record,
/// followed by `finalize`.
pub open spec fn pipeline_rel<
    R,
    S,
    D,
    A,
    Di: Fn() -> D,
    W: Fn(&R, D, &S) -> Result<D, CliError>,
    F: Fn(&R, D, A) -> StepResult<A>,
>(data_init: Di, work: W, finalize: F, local: S) -> spec_fn(R, A, StepResult<A>) -> bool {
    |rec: R, acc: A, out: StepResult<A>|
        exists|res: Result<D, CliError>| #[trigger]
            worked(data_init, work, local, rec, res) && finalized_as(finalize, rec, res, acc, out)
}

/// The step relation of the parallel pipeline with output slots that start
/// at their type's default and with work that needs no worker state.
pub open spec fn default_rel<
    R,
    D: Default,
    A,
    W: Fn(&R, D) -> Result<D, CliError>,
    F: Fn(&R, D, A) -> StepResult<A>,
>(work: W, finalize: F) -> spec_fn(R, A, StepResult<A>) -> bool {
    |rec: R, acc: A, out: StepResult<A>|
        exists|slot: D, res: Result<D, CliError>|
            call_ensures(D::default, (), slot) && #[trigger] work.ensures((&rec, slot), res)
                && finalized_as(finalize, rec, res, acc, out)
}

/// What holds of the reordering buffer between the steps of a run within one
/// thread: the run is open, and every record in flight has the result of its
/// work.
pub open spec fn all_worked<R, S, D, Di: Fn() -> D, W: Fn(&R, D, &S) -> Result<D, CliError>>(
    data_init: Di,
    work: W,
    local: S,
    recs: Seq<R>,
    flow: Flow<D>,
) -> bool {
    &&& flow.open
    &&& flow.dispatched <= recs.len()
    &&& forall|seq: nat|
        flow.finalized <= seq < flow.dispatched ==> #[trigger] flow.results.contains_key(seq)
            && worked(data_init, work, local, recs[seq as int], flow.results[seq])
}

/// The parallel pipeline for the records of one source, run within the
/// calling thread. Records are dispatched through the reordering buffer for
/// `n_threads` workers, as many at a time as its window admits; the work on a
/// record is done when it is dispatched, with a fresh output slot; the
/// results are finalized in the order of the records. The outcome is that of
/// the sequential driver with a step that does the work and then finalizes,
/// whatever `n_threads` is.
pub fn read_parallel<R, S, D, A, Di, W, F>(
    records: &Vec<R>,
    n_threads: u32,
    local: &S,
    data_init: &Di,
    work: &W,
    finalize: &F,
    init: A,
) -> (out: StepResult<A>) where
    Di: Fn() -> D,
    W: Fn(&R, D, &S) -> Result<D, CliError>,
    F: Fn(&R, D, A) -> StepResult<A>,

    requires
        data_init.requires(()),
        forall|r: &R, d: D, s: &S| work.requires((r, d, s)),
        forall|r: &R, d: D, a: A| finalize.requires((r, d, a)),
    ensures
        drives(pipeline_rel(*data_init, *work, *finalize, *local), records@, init, out),
{
    let ghost rel = pipeline_rel(*data_init, *work, *finalize, *local);
    let ghost mut trace: Seq<A> = seq![init];
    let mut pipe: Pipeline<D> = Pipeline::new(n_threads);
    let mut acc = init;
    let mut next: usize = 0;
    let mut done: usize = 0;
    loop
        invariant
            data_init.requires(()),
            forall|r: &R, d: D, s: &S| work.requires((r, d, s)),
            forall|r: &R, d: D, a: A| finalize.requires((r, d, a)),
            rel == pipeline_rel(*data_init, *work, *finalize, *local),
            pipe.wf(),
            all_worked(*data_init, *work, *local, records@, pipe@),
            pipe@.window == window_for(n_threads),
            pipe@.dispatched == next,
            pipe@.finalized == done,
            done <= next <= records.len(),
            trace.len() == done + 1,
            trace[done as int] == acc,
            is_trace(rel, records@, init, trace),
        decreases records.len() - done,
    {
        while next < records.len()
            invariant
                data_init.requires(()),
                forall|r: &R, d: D, s: &S| work.requires((r, d, s)),
                pipe.wf(),
                all_worked(*data_init, *work, *local, records@, pipe@),
                pipe@.window == window_for(n_threads),
                pipe@.dispatched == next,
                pipe@.finalized == done,
                done <= next <= records.len(),
            ensures
                next == records.len() || pipe@.in_flight() >= pipe@.window,
            decreases records.len() - next,
        {
            proof {
                pipe.lemma_view_inv();
            }
            let ghost at_start = pipe@;
            match pipe.try_dispatch() {
                Some(seq) => {
                    let slot = data_init();
                    let res = work(&records[next], slot, local);
                    let ghost before = pipe@;
                    pipe.complete(seq, res);
                    assert(worked(*data_init, *work, *local, records@[next as int], res));
                    assert(pipe@.results == before.results.insert(seq as nat, res));
                    assert forall|s: nat| pipe@.finalized <= s < pipe@.dispatched implies #[trigger]
                        pipe@.results.contains_key(s) && worked(
                        *data_init,
                        *work,
                        *local,
                        records@[s as int],
                        pipe@.results[s],
                    ) by {
                        if s != seq {
                            assert(at_start.results.contains_key(s));
                        }
                    }
                    next = next + 1;
                },
                None => {
                    break ;
                },
            }
        }
        proof {
            pipe.lemma_view_inv();
        }
        let ghost before = pipe@;
        match pipe.next_ready() {
            Ready::Item(seq, slot) => {
                assert(before.results[done as nat] == Ok::<D, CliError>(slot));
                assert forall|s: nat| pipe@.finalized <= s < pipe@.dispatched implies #[trigger]
                    pipe@.results.contains_key(s) && worked(
                    *data_init,
                    *work,
                    *local,
                    records@[s as int],
                    pipe@.results[s],
                ) by {
                    assert(before.results.contains_key(s));
                }
                assert(worked(*data_init, *work, *local, records@[done as int], Ok(slot)));
                let out = finalize(&records[done], slot, acc);
                assert(rel(records@[done as int], acc, out));
                match out {
                    Ok((after, true)) => {
                        proof {
                            let longer = trace.push(after);
                            assert forall|j: int| 0 <= j < longer.len() - 1 implies #[trigger] linked(
                                rel,
                                records@,
                                longer,
                                j,
                            ) by {
                                if j < done {
                                    assert(linked(rel, records@, trace, j));
                                }
                            }
                            trace = longer;
                        }
                        acc = after;
                        done = done + 1;
                    },
                    other => {
                        pipe.stop();
                        assert(is_trace(rel, records@, init, trace) && ends_with(
                            rel,
                            records@,
                            trace,
                            other,
                        ));
                        return other;
                    },
                }
            },
            Ready::Failed(seq, e) => {
                assert(before.results[done as nat] == Err::<D, CliError>(e));
                assert(worked(*data_init, *work, *local, records@[done as int], Err(e)));
                let out: StepResult<A> = Err(e);
                assert(finalized_as(*finalize, records@[done as int], Err::<D, CliError>(e), acc, out));
                assert(rel(records@[done as int], acc, out));
                assert(is_trace(rel, records@, init, trace) && ends_with(rel, records@, trace, out));
                return out;
            },
            Ready::Wait | Ready::Closed => {
                assert(next == done) by {
                    if done < next {
                        assert(before.results.contains_key(done as nat));
                    }
                }
                assert(is_trace(rel, records@, init, trace) && ends_with(
                    rel,
                    records@,
                    trace,
                    Ok((acc, true)),
                ));
                return Ok((acc, true));
            },
        }
    }
}

/// The records of several sources, one source after the other.
pub open spec fn joined<R>(sources: Seq<Seq<R>>) -> Seq<R>
    decreases sources.len(),
{
    if sources.len() == 0 {
        Seq::empty()
    } else {
        joined(sources.drop_last()) + sources.last()
    }
}

/// Whether the step relation allows one result only for each record and
/// accumulator.
pub open spec fn deterministic<R, A>(rel: spec_fn(R, A, StepResult<A>) -> bool) -> bool {
    forall|rec: R, acc: A, o1: StepResult<A>, o2: StepResult<A>|
        #![trigger rel(rec, acc, o1), rel(rec, acc, o2)]
        rel(rec, acc, o1) && rel(rec, acc, o2) ==> o1 == o2
}

/// A run over no records ends with the accumulator it began with.
pub proof fn lemma_drives_nothing<R, A>(rel: spec_fn(R, A, StepResult<A>) -> bool, init: A)
    ensures
        drives(rel, Seq::<R>::empty(), init, Ok((init, true))),
{
    let trace = seq![init];
    assert(is_trace(rel, Seq::<R>::empty(), init, trace) && ends_with(
        rel,
        Seq::<R>::empty(),
        trace,
        Ok((init, true)),
    ));
}

/// A run that took all records of `first` goes on with the records that
/// follow.
pub proof fn lemma_drives_on<R, A>(
    rel: spec_fn(R, A, StepResult<A>) -> bool,
    first: Seq<R>,
    then: Seq<R>,
    init: A,
    mid: A,
    out: StepResult<A>,
)
    requires
        drives(rel, first, init, Ok((mid, true))),
        drives(rel, then, mid, out),
    ensures
        drives(rel, first + then, init, out),
{
    let t1 = choose|t: Seq<A>| #[trigger]
        is_trace(rel, first, init, t) && ends_with(rel, first, t, Ok((mid, true)));
    let t2 = choose|t: Seq<A>| #[trigger] is_trace(rel, then, mid, t) && ends_with(rel, then, t, out);
    let recs = first + then;
    let n = first.len() as int;
    let t = t1 + t2.drop_first();
    assert(t1.len() == n + 1 && t1[n] == mid);
    assert forall|i: int| 0 <= i < t.len() - 1 implies #[trigger] linked(rel, recs, t, i) by {
        if i < n {
            assert(linked(rel, first, t1, i));
            assert(recs[i] == first[i]);
            assert(t[i] == t1[i] && t[i + 1] == t1[i + 1]);
        } else {
            assert(linked(rel, then, t2, i - n));
            assert(recs[i] == then[i - n]);
            assert(t[i] == t2[i - n]);
            assert(t[i + 1] == t2[i - n + 1]);
        }
    }
    let k = t.len() - 1;
    assert(t[k] == t2[t2.len() - 1]);
    if k < recs.len() {
        assert(recs[k] == then[k - n]);
    }
    assert(is_trace(rel, recs, init, t) && ends_with(rel, recs, t, out));
}

/// A run that stopped or failed is not changed by records that follow.
pub proof fn lemma_drives_halted<R, A>(
    rel: spec_fn(R, A, StepResult<A>) -> bool,
    first: Seq<R>,
    then: Seq<R>,
    init: A,
    out: StepResult<A>,
)
    requires
        drives(rel, first, init, out),
        !(out matches Ok((_, true))),
    ensures
        drives(rel, first + then, init, out),
{
    let t = choose|t: Seq<A>| #[trigger] is_trace(rel, first, init, t) && ends_with(rel, first, t, out);
    let recs = first + then;
    assert forall|i: int| 0 <= i < t.len() - 1 implies #[trigger] linked(rel, recs, t, i) by {
        assert(linked(rel, first, t, i));
        assert(recs[i] == first[i]);
    }
    assert(recs[t.len() - 1] == first[t.len() - 1]);
    assert(is_trace(rel, recs, init, t) && ends_with(rel, recs, t, out));
}

/// Induction over a run: what holds of the first accumulator, and is kept
/// by every step that goes on, holds of every accumulator of the run.
pub proof fn lemma_trace_inv<R, A>(
    rel: spec_fn(R, A, StepResult<A>) -> bool,
    recs: Seq<R>,
    init: A,
    trace: Seq<A>,
    inv: spec_fn(int, A) -> bool,
    k: int,
)
    requires
        is_trace(rel, recs, init, trace),
        inv(0, init),
        forall|i: int, a: A, b: A|
            0 <= i < recs.len() && inv(i, a) && #[trigger] rel(recs[i], a, Ok((b, true))) ==> inv(
                i + 1,
                b,
            ),
        0 <= k < trace.len(),
    ensures
        inv(k, trace[k]),
    decreases k,
{
    if k > 0 {
        lemma_trace_inv(rel, recs, init, trace, inv, k - 1);
        assert(linked(rel, recs, trace, k - 1));
    }
}

/// A run over records is a run over other items that stand for them one by
/// one, with a step relation that allows for each item what the first
/// allows for its record.
pub proof fn lemma_drives_map<R, T, A>(
    rel: spec_fn(R, A, StepResult<A>) -> bool,
    wider: spec_fn(T, A, StepResult<A>) -> bool,
    recs: Seq<R>,
    items: Seq<T>,
    init: A,
    out: StepResult<A>,
)
    requires
        items.len() == recs.len(),
        forall|k: int, acc: A, o: StepResult<A>|
            0 <= k < recs.len() && #[trigger] rel(recs[k], acc, o) ==> wider(items[k], acc, o),
        drives(rel, recs, init, out),
    ensures
        drives(wider, items, init, out),
{
    let t = choose|t: Seq<A>| #[trigger] is_trace(rel, recs, init, t) && ends_with(rel, recs, t, out);
    assert forall|i: int| 0 <= i < t.len() - 1 implies #[trigger] linked(wider, items, t, i) by {
        assert(linked(rel, recs, t, i));
    }
    assert(is_trace(wider, items, init, t) && ends_with(wider, items, t, out));
}

/// A run that is possible with a step relation is possible with every
/// relation that allows at least as much.
pub proof fn lemma_drives_weaken<R, A>(
    rel: spec_fn(R, A, StepResult<A>) -> bool,
    wider: spec_fn(R, A, StepResult<A>) -> bool,
    recs: Seq<R>,
    init: A,
    out: StepResult<A>,
)
    requires
        forall|rec: R, acc: A, o: StepResult<A>| #[trigger] rel(rec, acc, o) ==> wider(rec, acc, o),
        drives(rel, recs, init, out),
    ensures
        drives(wider, recs, init, out),
{
    let t = choose|t: Seq<A>| #[trigger] is_trace(rel, recs, init, t) && ends_with(rel, recs, t, out);
    assert forall|i: int| 0 <= i < t.len() - 1 implies #[trigger] linked(wider, recs, t, i) by {
        assert(linked(rel, recs, t, i));
    }
    assert(is_trace(wider, recs, init, t) && ends_with(wider, recs, t, out));
}

/// Two runs of a deterministic step over the same records have the same
/// accumulators as far as both go.
proof fn lemma_traces_agree<R, A>(
    rel: spec_fn(R, A, StepResult<A>) -> bool,
    recs: Seq<R>,
    init: A,
    t1: Seq<A>,
    t2: Seq<A>,
    i: int,
)
    requires
        deterministic(rel),
        is_trace(rel, recs, init, t1),
        is_trace(rel, recs, init, t2),
        0 <= i < t1.len(),
        i < t2.len(),
    ensures
        t1[i] == t2[i],
    decreases i,
{
    if i > 0 {
        lemma_traces_agree(rel, recs, init, t1, t2, i - 1);
        assert(linked(rel, recs, t1, i - 1));
        assert(linked(rel, recs, t2, i - 1));
        let o1: StepResult<A> = Ok((t1[i], true));
        let o2: StepResult<A> = Ok((t2[i], true));
        assert(rel(recs[i - 1], t1[i - 1], o1) && rel(recs[i - 1], t1[i - 1], o2));
    }
}

/// Determinism of a run: where the step allows one result only for each
/// record and accumulator, the run has one outcome only. So two runs over the
/// same records end alike, whatever else differs between them.
pub proof fn law_outcome_unique<R, A>(
    rel: spec_fn(R, A, StepResult<A>) -> bool,
    recs: Seq<R>,
    init: A,
    out1: StepResult<A>,
    out2: StepResult<A>,
)
    requires
        deterministic(rel),
        drives(rel, recs, init, out1),
        drives(rel, recs, init, out2),
    ensures
        out1 == out2,
{
    let t1 = choose|t: Seq<A>| #[trigger] is_trace(rel, recs, init, t) && ends_with(rel, recs, t, out1);
    let t2 = choose|t: Seq<A>| #[trigger] is_trace(rel, recs, init, t) && ends_with(rel, recs, t, out2);
    let k1 = t1.len() - 1;
    let k2 = t2.len() - 1;
    if k1 == k2 {
        lemma_traces_agree(rel, recs, init, t1, t2, k1);
        if k1 < recs.len() {
            assert(rel(recs[k1], t1[k1], out1) && rel(recs[k1], t1[k1], out2));
        }
    } else if k1 < k2 {
        lemma_traces_agree(rel, recs, init, t1, t2, k1);
        assert(linked(rel, recs, t2, k1));
        let o: StepResult<A> = Ok((t2[k1 + 1], true));
        assert(rel(recs[k1], t1[k1], out1) && rel(recs[k1], t1[k1], o));
    } else {
        lemma_traces_agree(rel, recs, init, t1, t2, k2);
        assert(linked(rel, recs, t1, k2));
        let o: StepResult<A> = Ok((t1[k2 + 1], true));
        assert(rel(recs[k2], t2[k2], out2) && rel(recs[k2], t2[k2], o));
    }
}

/// Early stop: a run that a step stopped, or that failed, ends the same
/// whatever records follow the one that stopped it. None of them is passed
/// to a step or to `finalize`.
pub proof fn law_early_stop<R, A>(
    rel: spec_fn(R, A, StepResult<A>) -> bool,
    taken: Seq<R>,
    rest: Seq<R>,
    other_rest: Seq<R>,
    init: A,
    out: StepResult<A>,
)
    requires
        drives(rel, taken, init, out),
        !(out matches Ok((_, true))),
    ensures
        drives(rel, taken + rest, init, out),
        drives(rel, taken + other_rest, init, out),
{
    lemma_drives_halted(rel, taken, rest, init, out);
    lemma_drives_halted(rel, taken, other_rest, init, out);
}

/// Error sequencing: if the records before record `k` are finalized and
/// each asks to go on, and the work on record `k` fails, then the run of the
/// parallel pipeline fails with the error of that work. `finalize` is called
/// for the records before `k`, in order, and for no record from `k` on,
/// whatever became of the work on them.
pub proof fn law_error_sequencing<R, S, D, A, Di, W, F>(
    data_init: Di,
    work: W,
    finalize: F,
    local: S,
    recs: Seq<R>,
    init: A,
    before: A,
    k: int,
    e: CliError,
) where Di: Fn() -> D, W: Fn(&R, D, &S) -> Result<D, CliError>, F: Fn(&R, D, A) -> StepResult<A>
    requires
        0 <= k < recs.len(),
        drives(
            pipeline_rel(data_init, work, finalize, local),
            recs.take(k),
            init,
            Ok((before, true)),
        ),
        worked(data_init, work, local, recs[k], Err(e)),
    ensures
        drives(pipeline_rel(data_init, work, finalize, local), recs, init, Err(e)),
{
    let rel = pipeline_rel(data_init, work, finalize, local);
    let failed: StepResult<A> = Err(e);
    assert(finalized_as(finalize, recs[k], Err::<D, CliError>(e), before, failed));
    assert(rel(recs[k], before, failed));
    let one = seq![recs[k]];
    let trace = seq![before];
    assert(is_trace(rel, one, before, trace) && ends_with(rel, one, trace, failed));
    lemma_drives_on(rel, recs.take(k), one, init, before, failed);
    assert(recs.take(k) + one =~= recs.take(k + 1));
    lemma_drives_halted(rel, recs.take(k + 1), recs.skip(k + 1), init, failed);
    assert(recs.take(k + 1) + recs.skip(k + 1) =~= recs);
}

/// Worker-count degeneracy: with deterministic work and a deterministic
/// `finalize`, two runs of the parallel pipeline over the same records end
/// alike. What the pipeline promises of a run does not depend on the number
/// of worker threads, so one worker and eight give the same outcome.
pub proof fn law_thread_count_is_immaterial<R, S, D, A, Di, W, F>(
    data_init: Di,
    work: W,
    finalize: F,
    local: S,
    recs: Seq<R>,
    init: A,
    with_one: StepResult<A>,
    with_many: StepResult<A>,
) where Di: Fn() -> D, W: Fn(&R, D, &S) -> Result<D, CliError>, F: Fn(&R, D, A) -> StepResult<A>
    requires
        deterministic(pipeline_rel(data_init, work, finalize, local)),
        drives(pipeline_rel(data_init, work, finalize, local), recs, init, with_one),
        drives(pipeline_rel(data_init, work, finalize, local), recs, init, with_many),
    ensures
        with_one == with_many,
{
    law_outcome_unique(
        pipeline_rel(data_init, work, finalize, local),
        recs,
        init,
        with_one,
        with_many,
    );
}

/// Order preservation: the parallel pipeline ends as the sequential driver
/// does with a step that does the work on a record and then finalizes it. The
/// records reach `finalize` in the order of the source, each with the
/// accumulator that `finalize` returned for the record before.
pub proof fn law_parallel_is_sequential<R, S, D, A, Di, W, F, G>(
    data_init: Di,
    work: W,
    finalize: F,
    local: S,
    step: G,
    recs: Seq<R>,
    init: A,
    out: StepResult<A>,
) where
    Di: Fn() -> D,
    W: Fn(&R, D, &S) -> Result<D, CliError>,
    F: Fn(&R, D, A) -> StepResult<A>,
    G: Fn(&R, A) -> StepResult<A>,

    requires
        forall|rec: R, acc: A, o: StepResult<A>|
            step.ensures((&rec, acc), o) <==> pipeline_rel(data_init, work, finalize, local)(
                rec,
                acc,
                o,
            ),
    ensures
        drives(pipeline_rel(data_init, work, finalize, local), recs, init, out) <==> drives(
            step_rel(step),
            recs,
            init,
            out,
        ),
{
    let par = pipeline_rel::<R, S, D, A, Di, W, F>(data_init, work, finalize, local);
    let seq = step_rel::<R, A, G>(step);
    assert forall|rec: R, acc: A, o: StepResult<A>| #[trigger] par(rec, acc, o) == seq(rec, acc, o) by {
        assert(step.ensures((&rec, acc), o) <==> par(rec, acc, o));
    }
    assert(par =~= seq);
}

/// The records of each source, as sequences.
pub open spec fn sources_view<R>(inputs: Seq<Vec<R>>) -> Seq<Seq<R>> {
    Seq::new(inputs.len(), |i: int| inputs[i]@)
}

/// The records of all sources are those of the first `n` sources followed by
/// those of the rest.
pub proof fn lemma_joined_split<R>(sources: Seq<Seq<R>>, n: int)
    requires
        0 <= n <= sources.len(),
    ensures
        joined(sources) == joined(sources.take(n)) + joined(sources.skip(n)),
    decreases sources.len(),
{
    if n == sources.len() {
        assert(sources.take(n) == sources);
        assert(sources.skip(n).len() == 0);
        assert(joined(sources) + Seq::empty() == joined(sources));
    } else {
        let front = sources.drop_last();
        lemma_joined_split(front, n);
        assert(front.take(n) == sources.take(n));
        assert(front.skip(n) == sources.skip(n).drop_last());
        assert(sources.skip(n).last() == sources.last());
        assert(joined(front.take(n)) + joined(front.skip(n)) + sources.last() == joined(
            front.take(n),
        ) + (joined(front.skip(n)) + sources.last()));
    }
}

/// The sequential driver over the first `n` of several sources: the
/// records of these sources in the order of the sources, each source to its
/// end before the next begins, until a step asks to stop or fails.
pub fn io_readers_upto<R, A, F>(inputs: &Vec<Vec<R>>, n: usize, init: A, step: &F) -> (out:
    StepResult<A>) where F: Fn(&R, A) -> StepResult<A>
    requires
        forall|r: &R, a: A| step.requires((r, a)),
        n <= inputs.len(),
    ensures
        drives(step_rel(*step), joined(sources_view(inputs@).take(n as int)), init, out),
{
    let ghost rel = step_rel(*step);
    let ghost all = sources_view(inputs@).take(n as int);
    let mut acc = init;
    let mut i: usize = 0;
    proof {
        lemma_drives_nothing(rel, init);
        assert(joined(all.take(0)) == Seq::<R>::empty());
    }
    while i < n
        invariant
            forall|r: &R, a: A| step.requires((r, a)),
            rel == step_rel(*step),
            all == sources_view(inputs@).take(n as int),
            i <= n <= inputs.len(),
            drives(rel, joined(all.take(i as int)), init, Ok((acc, true))),
        decreases n - i,
    {
        let ghost before = joined(all.take(i as int));
        let ghost mid = acc;
        let out = run_reader(&inputs[i], acc, step);
        proof {
            assert(all[i as int] == inputs@[i as int]@);
            assert(all.take(i + 1).drop_last() == all.take(i as int));
            assert(joined(all.take(i + 1)) == before + inputs@[i as int]@);
            lemma_drives_on(rel, before, inputs@[i as int]@, init, mid, out);
        }
        match out {
            Ok((next, true)) => {
                acc = next;
            },
            other => {
                proof {
                    lemma_joined_split(all, i + 1);
                    lemma_drives_halted(
                        rel,
                        joined(all.take(i + 1)),
                        joined(all.skip(i + 1)),
                        init,
                        other,
                    );
                }
                return other;
            },
        }
        i = i + 1;
    }
    assert(all.take(n as int) == all);
    Ok((acc, true))
}

/// The sequential driver over several sources: the records of the sources
/// in the order of the sources, each source to its end before the next
/// begins, until a step asks to stop or fails.
pub fn io_readers<R, A, F>(inputs: &Vec<Vec<R>>, init: A, step: &F) -> (out: StepResult<A>) where
    F: Fn(&R, A) -> StepResult<A>,

    requires
        forall|r: &R, a: A| step.requires((r, a)),
    ensures
        drives(step_rel(*step), joined(sources_view(inputs@)), init, out),
{
    assert(sources_view(inputs@).take(inputs.len() as int) == sources_view(inputs@));
    io_readers_upto(inputs, inputs.len(), init, step)
}

/// The parallel pipeline over several sources: the pipeline is run for one
/// source after the other, in the order of the sources, until `finalize` asks
/// to stop, or the work on a record or `finalize` fails.
pub fn read_parallel_all<R, S, D, A, Di, W, F>(
    inputs: &Vec<Vec<R>>,
    n_threads: u32,
    local: &S,
    data_init: &Di,
    work: &W,
    finalize: &F,
    init: A,
) -> (out: StepResult<A>) where
    Di: Fn() -> D,
    W: Fn(&R, D, &S) -> Result<D, CliError>,
    F: Fn(&R, D, A) -> StepResult<A>,

    requires
        data_init.requires(()),
        forall|r: &R, d: D, s: &S| work.requires((r, d, s)),
        forall|r: &R, d: D, a: A| finalize.requires((r, d, a)),
    ensures
        drives(
            pipeline_rel(*data_init, *work, *finalize, *local),
            joined(sources_view(inputs@)),
            init,
            out,
        ),
{
    let ghost rel = pipeline_rel(*data_init, *work, *finalize, *local);
    let ghost all = sources_view(inputs@);
    let mut acc = init;
    let mut i: usize = 0;
    proof {
        lemma_drives_nothing(rel, init);
        assert(joined(all.take(0)) == Seq::<R>::empty());
    }
    while i < inputs.len()
        invariant
            data_init.requires(()),
            forall|r: &R, d: D, s: &S| work.requires((r, d, s)),
            forall|r: &R, d: D, a: A| finalize.requires((r, d, a)),
            rel == pipeline_rel(*data_init, *work, *finalize, *local),
            all == sources_view(inputs@),
            i <= inputs.len(),
            drives(rel, joined(all.take(i as int)), init, Ok((acc, true))),
        decreases inputs.len() - i,
    {
        let ghost before = joined(all.take(i as int));
        let ghost mid = acc;
        let out = read_parallel(&inputs[i], n_threads, local, data_init, work, finalize, acc);
        proof {
            assert(all.take(i + 1).drop_last() == all.take(i as int));
            assert(joined(all.take(i + 1)) == before + inputs@[i as int]@);
            lemma_drives_on(rel, before, inputs@[i as int]@, init, mid, out);
        }
        match out {
            Ok((next, true)) => {
                acc = next;
            },
            other => {
                proof {
                    lemma_joined_split(all, i + 1);
                    lemma_drives_halted(
                        rel,
                        joined(all.take(i + 1)),
                        joined(all.skip(i + 1)),
                        init,
                        other,
                    );
                }
                return other;
            },
        }
        i = i + 1;
    }
    assert(all.take(inputs.len() as int) == all);
    Ok((acc, true))
}

/// One thing that a run over several sources meets: the start of the
/// source with this number, or a record of the source with this number.
pub enum Item<R> {
    Start(int, InputOptions),
    Rec(int, R),
}

/// The records of the source with the number `i`, as items.
pub open spec fn record_items<R>(i: int, recs: Seq<R>) -> Seq<Item<R>> {
    Seq::new(recs.len(), |k: int| Item::Rec(i, recs[k]))
}

/// What a run over several sources meets: for each source in turn its
/// start, then its records.
pub open spec fn items_of<R>(opts: Seq<InputOptions>, sources: Seq<Seq<R>>) -> Seq<Item<R>>
    decreases sources.len(),
{
    if sources.len() == 0 {
        Seq::empty()
    } else {
        let i = sources.len() - 1;
        items_of(opts, sources.drop_last()) + seq![Item::Start(i, opts[i])] + record_items(
            i,
            sources.last(),
        )
    }
}

/// What comes of the start of a source: the accumulator that the
/// preparation returns, with the signal to go on, or its error.
pub open spec fn started<A>(r: Result<A, CliError>) -> StepResult<A> {
    match r {
        Ok(acc) => Ok((acc, true)),
        Err(e) => Err(e),
    }
}

/// What a run over several sources meets is what it meets in the first `n`
/// sources followed by what it meets in the rest.
pub proof fn lemma_items_halted<R, A>(
    rel: spec_fn(Item<R>, A, StepResult<A>) -> bool,
    opts: Seq<InputOptions>,
    sources: Seq<Seq<R>>,
    n: int,
    taken: Seq<Item<R>>,
    init: A,
    out: StepResult<A>,
)
    requires
        0 <= n < sources.len(),
        taken == items_of(opts, sources.take(n)) + seq![Item::Start(n, opts[n])] || taken == items_of(
            opts,
            sources.take(n + 1),
        ),
        drives(rel, taken, init, out),
        !(out matches Ok((_, true))),
    ensures
        drives(rel, items_of(opts, sources), init, out),
    decreases sources.len() - n,
{
    let upto = items_of(opts, sources.take(n + 1));
    assert(sources.take(n + 1).drop_last() == sources.take(n));
    assert(upto == items_of(opts, sources.take(n)) + seq![Item::Start(n, opts[n])] + record_items(
        n,
        sources[n],
    ));
    if taken != upto {
        lemma_drives_halted(rel, taken, record_items(n, sources[n]), init, out);
    }
    if n + 1 == sources.len() {
        assert(sources.take(n + 1) == sources);
    } else {
        let next = upto + seq![Item::Start(n + 1, opts[n + 1])];
        lemma_drives_halted(rel, upto, seq![Item::Start(n + 1, opts[n + 1])], init, out);
        lemma_items_halted(rel, opts, sources, n + 1, next, init, out);
    }
}

/// The driver over several sources with a preparation at the start of each
/// source. `hook` prepares the source with the given number; `run_one` drives
/// the records of the source with the given number. The run ends with the
/// first preparation or record that stops it or fails.
pub(crate) fn over_sources<R, A, H, G>(
    opts: &[InputOptions],
    inputs: &Vec<Vec<R>>,
    init: A,
    hook: &H,
    run_one: &G,
    Ghost(rel): Ghost<spec_fn(Item<R>, A, StepResult<A>) -> bool>,
) -> (out: StepResult<A>) where
    H: Fn(usize, A) -> Result<A, CliError>,
    G: Fn(usize, &Vec<R>, A) -> StepResult<A>,

    requires
        inputs@.len() <= opts@.len(),
        forall|i: usize, acc: A| i < opts@.len() ==> hook.requires((i, acc)),
        forall|i: usize, recs: &Vec<R>, acc: A| i < opts@.len() ==> run_one.requires((i, recs, acc)),
        forall|i: usize, acc: A, r: Result<A, CliError>|
            i < opts@.len() && #[trigger] hook.ensures((i, acc), r) ==> rel(
                Item::Start(i as int, opts@[i as int]),
                acc,
                started(r),
            ),
        forall|i: usize, recs: &Vec<R>, acc: A, o: StepResult<A>|
            i < opts@.len() && #[trigger] run_one.ensures((i, recs, acc), o) ==> drives(
                rel,
                record_items(i as int, recs@),
                acc,
                o,
            ),
    ensures
        drives(rel, items_of(opts@, sources_view(inputs@)), init, out),
{
    let ghost all = sources_view(inputs@);
    let mut acc = init;
    let mut i: usize = 0;
    proof {
        lemma_drives_nothing(rel, init);
        assert(items_of(opts@, all.take(0)) == Seq::<Item<R>>::empty());
    }
    while i < inputs.len()
        invariant
            inputs@.len() <= opts@.len(),
            forall|i: usize, acc: A| i < opts@.len() ==> hook.requires((i, acc)),
            forall|i: usize, recs: &Vec<R>, acc: A|
                i < opts@.len() ==> run_one.requires((i, recs, acc)),
            forall|i: usize, acc: A, r: Result<A, CliError>|
                i < opts@.len() && #[trigger] hook.ensures((i, acc), r) ==> rel(
                    Item::Start(i as int, opts@[i as int]),
                    acc,
                    started(r),
                ),
            forall|i: usize, recs: &Vec<R>, acc: A, o: StepResult<A>|
                i < opts@.len() && #[trigger] run_one.ensures((i, recs, acc), o) ==> drives(
                    rel,
                    record_items(i as int, recs@),
                    acc,
                    o,
                ),
            all == sources_view(inputs@),
            i <= inputs.len(),
            drives(rel, items_of(opts@, all.take(i as int)), init, Ok((acc, true))),
        decreases inputs.len() - i,
    {
        let ghost before = items_of(opts@, all.take(i as int));
        let ghost start = seq![Item::<R>::Start(i as int, opts@[i as int])];
        let ghost at_start = acc;
        let prepared = hook(i, acc);
        proof {
            let o = started(prepared);
            let trace = if prepared is Ok {
                seq![at_start, prepared->Ok_0]
            } else {
                seq![at_start]
            };
            if prepared is Ok {
                assert(linked(rel, start, trace, 0));
            }
            assert(is_trace(rel, start, at_start, trace) && ends_with(rel, start, trace, o));
            lemma_drives_on(rel, before, start, init, at_start, o);
        }
        let ready = match prepared {
            Ok(a) => a,
            Err(e) => {
                proof {
                    lemma_items_halted(rel, opts@, all, i as int, before + start, init, Err(e));
                }
                return Err(e);
            },
        };
        let ghost mid = ready;
        let out = run_one(i, &inputs[i], ready);
        proof {
            assert(all.take(i + 1).drop_last() == all.take(i as int));
            assert(items_of(opts@, all.take(i + 1)) == before + start + record_items(
                i as int,
                inputs@[i as int]@,
            ));
            lemma_drives_on(rel, before + start, record_items(i as int, inputs@[i as int]@), init, mid, out);
        }
        match out {
            Ok((next, true)) => {
                acc = next;
            },
            other => {
                proof {
                    lemma_items_halted(
                        rel,
                        opts@,
                        all,
                        i as int,
                        items_of(opts@, all.take(i + 1)),
                        init,
                        other,
                    );
                }
                return other;
            },
        }
        i = i + 1;
    }
    assert(all.take(inputs.len() as int) == all);
    Ok((acc, true))
}

/// Whether every one of the records is within a ceiling.
pub open spec fn fits_all<R: Record>(max_mem: usize, recs: Seq<R>) -> bool {
    forall|j: int| 0 <= j < recs.len() ==> (#[trigger] recs[j]).raw_size() <= max_mem
}

/// Whether every record of every source is within the ceiling of its
/// source.
pub open spec fn all_within<R: Record>(opts: Seq<InputOptions>, sources: Seq<Seq<R>>) -> bool {
    forall|i: int| 0 <= i < sources.len() ==> fits_all(opts[i].max_mem, #[trigger] sources[i])
}

/// Whether record `idx` of source `src` is the first record, in the order
/// in which the records are read, that is above the ceiling of its source.
pub open spec fn first_over<R: Record>(
    opts: Seq<InputOptions>,
    sources: Seq<Seq<R>>,
    src: int,
    idx: int,
) -> bool {
    &&& 0 <= src < sources.len()
    &&& 0 <= idx < sources[src].len()
    &&& forall|i: int| 0 <= i < src ==> fits_all(opts[i].max_mem, #[trigger] sources[i])
    &&& forall|j: int| 0 <= j < idx ==> (#[trigger] sources[src][j]).raw_size() <= opts[src].max_mem
    &&& sources[src][idx].raw_size() > opts[src].max_mem
}

/// There is one first record above its ceiling at most.
pub proof fn lemma_first_over_unique<R: Record>(
    opts: Seq<InputOptions>,
    sources: Seq<Seq<R>>,
    src: int,
    idx: int,
    other_src: int,
    other_idx: int,
)
    requires
        first_over(opts, sources, src, idx),
        first_over(opts, sources, other_src, other_idx),
    ensures
        src == other_src,
        idx == other_idx,
{
    if src < other_src {
        assert(fits_all(opts[src].max_mem, sources[src]));
    } else if other_src < src {
        assert(fits_all(opts[other_src].max_mem, sources[other_src]));
    }
}

/// Where reading stops at the ceiling: the source and the index of the
/// first record that is above the ceiling of its source, if there is one.
pub open spec fn ceiling_stop<R: Record>(opts: Seq<InputOptions>, sources: Seq<Seq<R>>) -> Option<
    (int, int),
> {
    if exists|src: int, idx: int| first_over(opts, sources, src, idx) {
        Some(choose|src: int, idx: int| first_over(opts, sources, src, idx))
    } else {
        None
    }
}

/// The records that are read: all of them, or those before the first one
/// that is above the ceiling of its source.
pub open spec fn held_records<R: Record>(opts: Seq<InputOptions>, sources: Seq<Seq<R>>) -> Seq<R> {
    match ceiling_stop(opts, sources) {
        Some((src, idx)) => joined(sources.take(src)) + sources[src].take(idx),
        None => joined(sources),
    }
}

/// Where every record is within its ceiling, reading does not stop at the
/// ceiling.
pub proof fn lemma_all_within<R: Record>(opts: Seq<InputOptions>, sources: Seq<Seq<R>>)
    requires
        all_within(opts, sources),
    ensures
        ceiling_stop(opts, sources) is None,
        held_records(opts, sources) == joined(sources),
{
    assert forall|src: int, idx: int| !first_over(opts, sources, src, idx) by {
        if first_over(opts, sources, src, idx) {
            assert(fits_all(opts[src].max_mem, sources[src]));
        }
    }
}

/// In a source with a record above the ceiling, one of them is the first.
proof fn lemma_find_record<R: Record>(
    opts: Seq<InputOptions>,
    sources: Seq<Seq<R>>,
    src: int,
    from: int,
)
    requires
        0 <= src < sources.len(),
        forall|i: int| 0 <= i < src ==> fits_all(opts[i].max_mem, #[trigger] sources[i]),
        0 <= from <= sources[src].len(),
        forall|j: int| 0 <= j < from ==> (#[trigger] sources[src][j]).raw_size() <= opts[src].max_mem,
        !fits_all(opts[src].max_mem, sources[src]),
    ensures
        exists|s: int, i: int| first_over(opts, sources, s, i),
    decreases sources[src].len() - from,
{
    if from < sources[src].len() {
        if sources[src][from].raw_size() > opts[src].max_mem {
            assert(first_over(opts, sources, src, from));
        } else {
            lemma_find_record(opts, sources, src, from + 1);
        }
    }
}

/// Either every record is within its ceiling, or one of those above is the
/// first.
proof fn lemma_find_over<R: Record>(opts: Seq<InputOptions>, sources: Seq<Seq<R>>, upto: int)
    requires
        0 <= upto <= sources.len(),
        forall|i: int| 0 <= i < upto ==> fits_all(opts[i].max_mem, #[trigger] sources[i]),
    ensures
        all_within(opts, sources) || exists|s: int, i: int| first_over(opts, sources, s, i),
    decreases sources.len() - upto,
{
    if upto < sources.len() {
        if fits_all(opts[upto].max_mem, sources[upto]) {
            lemma_find_over(opts, sources, upto + 1);
        } else {
            lemma_find_record(opts, sources, upto, 0);
        }
    }
}

/// Reading stops at the ceiling if and only if some record is above the
/// ceiling of its source.
pub proof fn lemma_ceiling_stop<R: Record>(opts: Seq<InputOptions>, sources: Seq<Seq<R>>)
    ensures
        ceiling_stop(opts, sources) is None <==> all_within(opts, sources),
        ceiling_stop(opts, sources) matches Some((src, idx)) ==> first_over(
            opts,
            sources,
            src,
            idx,
        ),
{
    lemma_find_over(opts, sources, 0);
    if all_within(opts, sources) {
        lemma_all_within(opts, sources);
    }
}

} // verus!
