//! The command that writes the last records of the input.

use crate::cfg::Config;
use crate::cfg::held_outcome;
use crate::cfg::is_mismatch;
use crate::cfg::is_repetition;
use crate::cfg::kept_outcome;
use crate::cmd::pass::all_have_qualities;
use crate::cmd::pass::writable;
use crate::error::CliError;
use crate::io::input::all_within;
use crate::io::input::ceiling_stop;
use crate::io::input::drives;
use crate::io::input::ends_with;
use crate::io::input::held_records;
use crate::io::input::is_trace;
use crate::io::input::joined;
use crate::io::input::lemma_all_within;
use crate::io::input::lemma_ceiling_stop;
use crate::io::input::lemma_trace_inv;
use crate::io::input::linked;
use crate::io::input::sources_view;
use crate::io::input::step_rel;
use crate::io::input::StepResult;
use crate::io::output::OutFormat;
use crate::io::output::Sink;
use crate::io::output::write_rel;
use crate::io::output::Writer;
use crate::io::output::Written;
use crate::io::Record;
use crate::text::unsigned_value;
use vstd::prelude::*;
use vstd::string::StringExecFns;

verus! {

/// The number of records that a text stands for: decimal digits, after a
/// plus sign or without one, for a number that the machine holds. Leading
/// zeros do not count. Any other text stands for none: the empty text, a
/// sign alone, a text with a minus sign, a blank or a letter in it, and the
/// digits of a number that is too large.
pub open spec fn parsed_count(text: Seq<char>) -> Option<usize> {
    match unsigned_value(text) {
        Some(n) => if n <= usize::MAX {
            Some(n as usize)
        } else {
            None
        },
        None => None,
    }
}

/// `str::parse` for `usize`, which is `usize::from_str`: the text is an
/// optional plus sign followed by decimal digits only, at least one. An empty
/// text, any other character (a minus sign, a blank, an underscore) and a
/// number too large for `usize` are errors, which are `None` here.
#[verifier::external_body]
fn parse_count(text: &str) -> (n: Option<usize>)
    ensures
        n == parsed_count(text@),
{
    text.parse().ok()
}

/// The number of the first record that is written, counting from zero, where
/// the last `n_select` of `total` records are asked for.
pub open spec fn select_from(total: nat, n_select: nat) -> nat {
    if total > n_select {
        (total - n_select) as nat
    } else {
        0
    }
}

/// The number of the first record that is written, counting from zero, where
/// the last `n_select` of `total` records are asked for: the records before
/// it are passed over.
pub fn first_selected(total: usize, n_select: usize) -> (from: usize)
    ensures
        from == select_from(total as nat, n_select as nat),
{
    if total > n_select {
        total - n_select
    } else {
        0
    }
}

/// How many records of a batch are passed over, where the first record of
/// the batch has the number `first`, the batch holds `len` records, and the
/// records from the number `from` on are written.
pub open spec fn spec_passed_over(first: nat, len: nat, from: nat) -> nat {
    if from <= first {
        0
    } else if from - first >= len {
        len
    } else {
        (from - first) as nat
    }
}

/// How many records of a batch are passed over before the first one that
/// is written; see `spec_passed_over`.
pub fn passed_over(first: usize, len: usize, from: usize) -> (skip: usize)
    ensures
        skip == spec_passed_over(first as nat, len as nat, from as nat),
        skip <= len,
{
    if from <= first {
        0
    } else if from - first >= len {
        len
    } else {
        from - first
    }
}

/// The number of records after `more` records came to the `total` so far:
/// the sum, or an error if it is beyond the machine's numbers.
pub fn count_on(total: usize, more: usize) -> (r: Result<usize, CliError>)
    ensures
        match r {
            Ok(n) => n == total + more,
            Err(e) => total + more > usize::MAX && e is Other && e.text() == "Too many sequences"@,
        },
{
    if more <= usize::MAX - total {
        Ok(total + more)
    } else {
        Err(CliError::other("Too many sequences"))
    }
}

/// Refuses a configuration with the console among its sources: the records
/// are read twice, once to be counted and once to be written.
pub fn check_two_passes(cfg: &Config) -> (r: Result<(), CliError>)
    ensures
        r is Ok <==> !cfg.spec_has_stdin(),
        r matches Err(e) ==> e is Other && e.text() == needs_two_passes(),
{
    if cfg.has_stdin() {
        Err(CliError::other("Cannot use STDIN as input, since we need to count all sequences before"))
    } else {
        Ok(())
    }
}

/// The number of records that the text `num_seqs` stands for, or the error
/// for a text that stands for none, which shows the text.
pub fn parse_num_seqs(num_seqs: &str) -> (r: Result<usize, CliError>)
    ensures
        match r {
            Ok(n) => parsed_count(num_seqs@) == Some(n),
            Err(e) => parsed_count(num_seqs@) is None && e is Other && e.text() == invalid_number(
                num_seqs@,
            ),
        },
{
    match parse_count(num_seqs) {
        Some(n) => Ok(n),
        None => {
            let mut msg = String::from_str("Invalid number: ");
            msg.append(num_seqs);
            Err(CliError::Other(msg))
        },
    }
}

/// Counts the records of all sources in a full read. It fails if the
/// guard refuses, the inputs are not those of the sources, a record is
/// above the ceiling of its source, or the records are more than the
/// machine counts.
fn count_records<R: Record>(cfg: &mut Config, inputs: &Vec<Vec<R>>) -> (r: Result<usize, CliError>)
    ensures
        old(cfg).becomes_started(final(cfg)),
        !old(cfg).admits() ==> (r matches Err(e) && is_repetition(e)),
        old(cfg).admits() && inputs@.len() != old(cfg).spec_input_opts().len() ==> (r matches Err(e)
            && is_mismatch(e)),
        old(cfg).admits() && inputs@.len() == old(cfg).spec_input_opts().len() ==> (r is Ok
            <==> all_within(old(cfg).spec_input_opts(), sources_view(inputs@)) && joined(
            sources_view(inputs@),
        ).len() <= usize::MAX),
        r matches Ok(n) ==> n == joined(sources_view(inputs@)).len(),
{
    let count = |rec: &R, n: usize| -> (o: StepResult<usize>)
        ensures
            match o {
                Ok((next, go)) => go && next == n + 1,
                Err(_) => n == usize::MAX,
            },
        {
            if n < usize::MAX {
                Ok((n + 1, true))
            } else {
                Err(CliError::other("Too many sequences"))
            }
        };
    let counted = cfg.read_sequential(inputs, 0usize, count);
    proof {
        let opts = old(cfg).spec_input_opts();
        let driven = held_records(opts, sources_view(inputs@));
        if old(cfg).admits() && inputs@.len() == opts.len() {
            lemma_ceiling_stop(opts, sources_view(inputs@));
            if all_within(opts, sources_view(inputs@)) {
                lemma_all_within(opts, sources_view(inputs@));
            }
            let rel = step_rel(count);
            let o = choose|o: StepResult<usize>| #[trigger]
                drives(rel, driven, 0usize, o) && held_outcome(
                    opts,
                    sources_view(inputs@),
                    o,
                    counted,
                );
            let trace = choose|t: Seq<usize>| #[trigger]
                is_trace(rel, driven, 0usize, t) && ends_with(rel, driven, t, o);
            let inv = |i: int, n: usize| n == i;
            lemma_trace_inv(rel, driven, 0usize, trace, inv, trace.len() - 1);
        }
    }
    counted
}

/// Whether `acc` is the first writer `start` and a count of zero after the
/// records before `i` were passed: the count is `i`, and those from `from` on
/// were written.
pub open spec fn selected_upto<R: Record, E>(
    format: &OutFormat,
    records: Seq<R>,
    start: Writer<E>,
    from: int,
    i: int,
    acc: (Writer<E>, usize),
) -> bool {
    &&& acc.1 == i
    &&& acc.0.has_format(format)
    &&& acc.0.same_setup(&start)
    &&& (i <= from ==> acc.0.bytes() == start.bytes())
    &&& (format.is_plain() ==> acc.0.registered() && acc.0.bytes() == start.bytes()
        + format.texts_of(
        records.subrange(
            if from < i {
                from
            } else {
                i
            },
            i,
        ),
    ))
}

/// The message for input that cannot be counted before it is written.
pub open spec fn needs_two_passes() -> Seq<char> {
    "Cannot use STDIN as input, since we need to count all sequences before"@
}

/// Writes the last `n_select` records of the input, or all of them if there
/// are fewer, to the configured output and hands back the bytes and the way
/// they are to be sent. `inputs` holds the records of each source, one entry
/// for each configured source. The records are counted in a first pass and
/// written in a second one, so input from the console is refused. The run
/// also fails if the fields of the output cannot be prepared, if one of the
/// records to write cannot be written, if there are more records than the
/// machine can count, or if a record is above the ceiling of its source. A
/// field of delimited text that names no attribute is compiled by `compile`
/// and filled for each record by `fill`. For output that is filled from the
/// records alone the run succeeds whenever none of these can happen.
pub fn select<R: Record, E, C, F>(
    cfg: &mut Config,
    inputs: &Vec<Vec<R>>,
    n_select: usize,
    compile: C,
    fill: F,
) -> (r: Result<Written<()>, CliError>) where
    C: Fn(&str) -> Result<E, CliError>,
    F: Fn(&E, &R) -> Vec<u8>,

    requires
        forall|f: &str| compile.requires((f,)),
        forall|e: &E, rec: &R| fill.requires((e, rec)),
    ensures
        select_outcome(old(cfg), final(cfg), inputs@, n_select, compile, fill, r),
{
    match check_two_passes(cfg) {
        Ok(_) => {},
        Err(e) => {
            return Err(e);
        },
    }
    let start = match cfg.start_writer(&compile) {
        Ok(w) => w,
        Err(e) => {
            return Err(e);
        },
    };
    let ghost format = cfg.spec_output_opts().format;
    let ghost first = start;
    let ghost records = joined(sources_view(inputs@));
    let counted = count_records(cfg, inputs);
    let ghost opts = old(cfg).spec_input_opts();
    let ghost driven = held_records(opts, sources_view(inputs@));
    proof {
        if inputs@.len() == opts.len() && counted is Ok {
            lemma_all_within(opts, sources_view(inputs@));
        }
    }
    let n: usize = match counted {
        Ok(n) => n,
        Err(e) => {
            return Err(e);
        },
    };
    let select_from: usize = first_selected(n, n_select);
    let filler = &fill;
    let write_last = |rec: &R, acc: (Writer<E>, usize)| -> (o: StepResult<(Writer<E>, usize)>)
        ensures
            match o {
                Ok((next, go)) => go && next.1 == acc.1 + 1 && next.0.same_setup(&acc.0) && (
                acc.0.simple() ==> next.0.bytes() == acc.0.bytes() + if acc.1 >= select_from {
                    acc.0.text_of(rec)
                } else {
                    Seq::empty()
                }) && if acc.1 >= select_from {
                    write_rel(*filler)(*rec, acc.0, Ok((next.0, true)))
                } else {
                    next.0.bytes() == acc.0.bytes()
                },
                Err(_) => acc.1 == usize::MAX || (acc.1 >= select_from && acc.0 is Fastq
                    && rec.qual_bytes() is None),
            },
        {
            let (mut w, i) = acc;
            if i == usize::MAX {
                return Err(CliError::other("Too many sequences"));
            }
            if i >= select_from {
                match w.write(rec, filler) {
                    Ok(_) => {},
                    Err(e) => {
                        return Err(e);
                    },
                }
            } else {
                assert(w.bytes() + Seq::<u8>::empty() == w.bytes());
            }
            Ok(((w, i + 1), true))
        };
    let out = cfg.read_sequential(inputs, (start, 0usize), write_last);
    let sink = Sink::plan(Some(cfg.output_opts()));
    proof {
        if format.is_plain() {
            first.lemma_plain_registered(compile, &format);
        }
        if inputs@.len() == old(cfg).spec_input_opts().len() {
            let from = select_from as int;
            let rel = step_rel(write_last);
            assert(cfg.spec_input_opts() == opts);
            assert(ceiling_stop(opts, sources_view(inputs@)) is None);
            assert(driven == records);
            let o = choose|o: StepResult<(Writer<E>, usize)>| #[trigger]
                drives(rel, records, (first, 0usize), o) && held_outcome(
                    opts,
                    sources_view(inputs@),
                    o,
                    out,
                );
            let trace = choose|t: Seq<(Writer<E>, usize)>| #[trigger]
                is_trace(rel, records, (first, 0usize), t) && ends_with(rel, records, t, o);
            let inv = |i: int, acc: (Writer<E>, usize)|
                selected_upto(&format, records, first, from, i, acc);
            assert(records.subrange(0, 0) =~= Seq::<R>::empty());
            assert(first.bytes() + format.texts_of(records.subrange(0, 0)) == first.bytes());
            assert forall|i: int, a: (Writer<E>, usize), b: (Writer<E>, usize)|
                0 <= i < records.len() && inv(i, a) && #[trigger] rel(
                    records[i],
                    a,
                    Ok((b, true)),
                ) implies inv(i + 1, b) by {
                if format.is_plain() {
                    a.0.lemma_text_of(&format, &records[i]);
                }
                if !format.is_plain() {
                } else if i >= from {
                    let written = records.subrange(from, i + 1);
                    assert(written.drop_last() == records.subrange(from, i));
                    assert(written.last() == records[i]);
                    assert(a.0.bytes() + a.0.text_of(&records[i]) == first.bytes() + format.texts_of(
                        written,
                    ));
                } else {
                    assert(records.subrange(i, i) =~= Seq::<R>::empty());
                    assert(records.subrange(i + 1, i + 1) =~= Seq::<R>::empty());
                    assert(a.0.bytes() + Seq::<u8>::empty() == a.0.bytes());
                }
            }
            let k = trace.len() - 1;
            lemma_trace_inv(rel, records, (first, 0usize), trace, inv, k);
            assert(records.subrange(from, records.len() as int) == records.skip(from));
            assert(Seq::<u8>::empty() + format.texts_of(records.skip(from)) == format.texts_of(
                records.skip(from),
            ));
            if k < records.len() {
                assert(records.skip(from)[k - from] == records[k]);
            }
            if out is Ok {
                let last = records.skip(from);
                let target = write_rel(fill);
                let written = Seq::new((k - from + 1) as nat, |j: int| trace[from + j].0);
                assert(k == records.len());
                lemma_trace_inv(rel, records, (first, 0usize), trace, inv, from);
                assert forall|j: int| 0 <= j < written.len() - 1 implies #[trigger] linked(
                    target,
                    last,
                    written,
                    j,
                ) by {
                    lemma_trace_inv(rel, records, (first, 0usize), trace, inv, from + j);
                    assert(linked(rel, records, trace, from + j));
                    assert(last[j] == records[from + j]);
                }
                let end: StepResult<Writer<E>> = Ok((trace[k].0, true));
                assert(is_trace(target, last, written[0], written) && ends_with(
                    target,
                    last,
                    written,
                    end,
                ));
                assert(old(cfg).begins_with(compile, &written[0]));
                assert(drives(target, last, written[0], end));
            }
        }
    }
    match out {
        Ok((end, _)) => Ok(Written { value: (), bytes: end.into_inner(), sink }),
        Err(e) => Err(e),
    }
}

/// The message for a number of records that is no number: it shows the
/// What is written of the selected records `last`, and what comes of it,
/// where the output is filled from the records alone: their texts up to
/// the first that cannot be written. If there is such a record the run
/// fails; the records before it stay written.
pub open spec fn kept_selection<R: Record>(
    format: &OutFormat,
    last: Seq<R>,
    bytes: Seq<u8>,
    r: Result<(), CliError>,
) -> bool {
    exists|n: int|
        0 <= n <= last.len() && bytes == format.texts_of(#[trigger] last.take(n)) && (format
            is FASTQ ==> all_have_qualities(last.take(n))) && if n < last.len() {
            r is Err && format is FASTQ && last[n].qual_bytes() is None
        } else {
            r is Ok
        }
}

/// Writes the last `n_select` records of the input like `select`, and
/// hands back what was written also where a record cannot be written: the
/// records before it stay written. Where the input cannot be counted,
/// nothing is written.
pub fn select_kept<R: Record, E, C, F>(
    cfg: &mut Config,
    inputs: &Vec<Vec<R>>,
    n_select: usize,
    compile: C,
    fill: F,
) -> (r: (Written<()>, Result<(), CliError>)) where
    C: Fn(&str) -> Result<E, CliError>,
    F: Fn(&E, &R) -> Vec<u8>,

    requires
        forall|f: &str| compile.requires((f,)),
        forall|e: &E, rec: &R| fill.requires((e, rec)),
    ensures
        r.0.sink == Sink::spec_plan(Some(&old(cfg).spec_output_opts())),
        if old(cfg).spec_has_stdin() {
            *final(cfg) == *old(cfg) && r.0.bytes@.len() == 0 && (r.1 matches Err(e) && e is Other
                && e.text() == needs_two_passes())
        } else {
            old(cfg).becomes_started(final(cfg)) || *final(cfg) == *old(cfg)
        },
        !old(cfg).spec_has_stdin() && old(cfg).spec_output_opts().format.is_plain() ==> old(
            cfg,
        ).becomes_started(final(cfg)) && if inputs@.len() != old(cfg).spec_input_opts().len() {
            r.0.bytes@.len() == 0 && (r.1 matches Err(e) && is_mismatch(e))
        } else if !(all_within(old(cfg).spec_input_opts(), sources_view(inputs@)) && joined(
            sources_view(inputs@),
        ).len() <= usize::MAX) {
            r.0.bytes@.len() == 0 && r.1 is Err
        } else {
            kept_selection(
                &old(cfg).spec_output_opts().format,
                joined(sources_view(inputs@)).skip(
                    select_from(joined(sources_view(inputs@)).len(), n_select as nat) as int,
                ),
                r.0.bytes@,
                r.1,
            )
        },
{
    let sink = Sink::plan(Some(cfg.output_opts()));
    match check_two_passes(cfg) {
        Ok(_) => {},
        Err(e) => {
            return (Written { value: (), bytes: Vec::new(), sink }, Err(e));
        },
    }
    let start = match cfg.start_writer(&compile) {
        Ok(w) => w,
        Err(e) => {
            return (Written { value: (), bytes: Vec::new(), sink }, Err(e));
        },
    };
    let ghost format = cfg.spec_output_opts().format;
    let ghost first = start;
    let ghost records = joined(sources_view(inputs@));
    let counted = count_records(cfg, inputs);
    let ghost opts = old(cfg).spec_input_opts();
    let ghost driven = held_records(opts, sources_view(inputs@));
    proof {
        if inputs@.len() == opts.len() && counted is Ok {
            lemma_all_within(opts, sources_view(inputs@));
        }
    }
    let n: usize = match counted {
        Ok(n) => n,
        Err(e) => {
            return (Written { value: (), bytes: Vec::new(), sink }, Err(e));
        },
    };
    let select_from: usize = first_selected(n, n_select);
    let filler = &fill;
    let write_last = |rec: &R, acc: (Writer<E>, usize, Option<CliError>)| -> (o: StepResult<
        (Writer<E>, usize, Option<CliError>),
    >)
        ensures
            match o {
                Ok((next, go)) => next.0.same_setup(&acc.0) && if go {
                    next.1 == acc.1 + 1 && next.2 == acc.2 && !(acc.1 >= select_from && acc.0
                        is Fastq && rec.qual_bytes() is None) && (acc.0.simple() ==> next.0.bytes()
                        == acc.0.bytes() + if acc.1 >= select_from {
                        acc.0.text_of(rec)
                    } else {
                        Seq::empty()
                    }) && (acc.1 < select_from ==> next.0.bytes() == acc.0.bytes())
                } else {
                    next.2 is Some && acc.1 >= select_from && acc.0 is Fastq && rec.qual_bytes()
                        is None && next.0.bytes() == acc.0.bytes()
                },
                Err(_) => acc.1 == usize::MAX,
            },
        {
            let (mut w, i, failed) = acc;
            if i == usize::MAX {
                return Err(CliError::other("Too many sequences"));
            }
            if i >= select_from {
                match w.write(rec, filler) {
                    Ok(_) => {},
                    Err(e) => {
                        return Ok(((w, i, Some(e)), false));
                    },
                }
            } else {
                assert(w.bytes() + Seq::<u8>::empty() == w.bytes());
            }
            Ok(((w, i + 1, failed), true))
        };
    let out = cfg.read_sequential_kept(inputs, (start, 0usize, None), write_last);
    proof {
        if format.is_plain() {
            first.lemma_plain_registered(compile, &format);
        }
        if format.is_plain() && inputs@.len() == old(cfg).spec_input_opts().len() {
            let from = select_from as int;
            let rel = step_rel(write_last);
            let init = (first, 0usize, None::<CliError>);
            assert(cfg.spec_input_opts() == opts);
            assert(ceiling_stop(opts, sources_view(inputs@)) is None);
            assert(driven == records);
            let o = choose|o: StepResult<(Writer<E>, usize, Option<CliError>)>| #[trigger]
                drives(rel, records, init, o) && kept_outcome(opts, sources_view(inputs@), o, out);
            let trace = choose|t: Seq<(Writer<E>, usize, Option<CliError>)>| #[trigger]
                is_trace(rel, records, init, t) && ends_with(rel, records, t, o);
            let inv = |i: int, acc: (Writer<E>, usize, Option<CliError>)|
                selected_upto(&format, records, first, from, i, (acc.0, acc.1)) && acc.2 is None && (
                format is FASTQ ==> forall|j: int|
                    from <= j < i ==> (#[trigger] records[j]).qual_bytes() is Some);
            assert(records.subrange(0, 0) =~= Seq::<R>::empty());
            assert(first.bytes() + format.texts_of(records.subrange(0, 0)) == first.bytes());
            assert forall|
                i: int,
                a: (Writer<E>, usize, Option<CliError>),
                b: (Writer<E>, usize, Option<CliError>),
            |
                0 <= i < records.len() && inv(i, a) && #[trigger] rel(
                    records[i],
                    a,
                    Ok((b, true)),
                ) implies inv(i + 1, b) by {
                a.0.lemma_text_of(&format, &records[i]);
                if i >= from {
                    let written = records.subrange(from, i + 1);
                    assert(written.drop_last() == records.subrange(from, i));
                    assert(written.last() == records[i]);
                    assert(a.0.bytes() + a.0.text_of(&records[i]) == first.bytes() + format.texts_of(
                        written,
                    ));
                } else {
                    assert(records.subrange(i, i) =~= Seq::<R>::empty());
                    assert(records.subrange(i + 1, i + 1) =~= Seq::<R>::empty());
                    assert(a.0.bytes() + Seq::<u8>::empty() == a.0.bytes());
                }
            }
            let k = trace.len() - 1;
            lemma_trace_inv(rel, records, init, trace, inv, k);
            let last = records.skip(from);
            assert(out is Ok);
            let got = out->Ok_0;
            let r1 = match got.0.2 {
                Some(e) => Err::<(), CliError>(e),
                None => Ok::<(), CliError>(()),
            };
            let m = if k < from {
                0
            } else {
                k - from
            };
            assert(got.1 is None);
            assert(last.take(m) =~= records.subrange(
                if from < k {
                    from
                } else {
                    k
                },
                k,
            ));
            assert(Seq::<u8>::empty() + format.texts_of(last.take(m)) == format.texts_of(
                last.take(m),
            ));
            if format is FASTQ {
                assert forall|j: int| 0 <= j < m implies (#[trigger] last.take(m)[j]).qual_bytes()
                    is Some by {
                    assert(last.take(m)[j] == records[from + j]);
                }
            }
            if k < records.len() {
                assert(k >= from);
                assert(last[m] == records[k]);
            }
            assert(got.0.0.bytes() == format.texts_of(last.take(m)));
            assert(kept_selection(&format, last, got.0.0.bytes(), r1));
        }
    }
    match out {
        Err(e) => (Written { value: (), bytes: Vec::new(), sink }, Err(e)),
        Ok(((w, _, failed), _)) => {
            let r = match failed {
                Some(e) => Err(e),
                None => Ok(()),
            };
            (Written { value: (), bytes: w.into_inner(), sink }, r)
        },
    }
}

/// text as it was given.
pub open spec fn invalid_number(text: Seq<char>) -> Seq<char> {
    "Invalid number: "@ + text
}

/// Writes the last records of the input, given the number that the text
/// `num_seqs` stands for: as `select` does if it stands for one, and else not
/// at all, with an error that shows the text. Without a number the guard is
/// not asked and nothing is read, so that the configuration stays as it
/// was; with one, `select_outcome` says what is written and what fails.
pub fn select_parsed<R: Record, E, C, F>(
    cfg: &mut Config,
    inputs: &Vec<Vec<R>>,
    num_seqs: &str,
    parsed: Option<usize>,
    compile: C,
    fill: F,
) -> (r: Result<Written<()>, CliError>) where
    C: Fn(&str) -> Result<E, CliError>,
    F: Fn(&E, &R) -> Vec<u8>,

    requires
        forall|f: &str| compile.requires((f,)),
        forall|e: &E, rec: &R| fill.requires((e, rec)),
    ensures
        final(cfg).spec_input_opts() == old(cfg).spec_input_opts(),
        final(cfg).spec_output_opts() == old(cfg).spec_output_opts(),
        parsed_outcome(old(cfg), final(cfg), inputs@, num_seqs@, parsed, compile, fill, r),
{
    match parsed {
        None => {
            let mut msg = String::from_str("Invalid number: ");
            msg.append(num_seqs);
            Err(CliError::Other(msg))
        },
        Some(n_select) => select(cfg, inputs, n_select, compile, fill),
    }
}

/// Writes the last records of the input, as many as the text `num_seqs`
/// says: an optional plus sign and decimal digits. Any other text is refused
/// with an error that shows it, and the input is not read. For a number, the
/// run is that of `select`.
pub fn run<R: Record, E, C, F>(
    cfg: &mut Config,
    inputs: &Vec<Vec<R>>,
    num_seqs: &str,
    compile: C,
    fill: F,
) -> (r: Result<Written<()>, CliError>) where
    C: Fn(&str) -> Result<E, CliError>,
    F: Fn(&E, &R) -> Vec<u8>,

    requires
        forall|f: &str| compile.requires((f,)),
        forall|e: &E, rec: &R| fill.requires((e, rec)),
    ensures
        final(cfg).spec_input_opts() == old(cfg).spec_input_opts(),
        final(cfg).spec_output_opts() == old(cfg).spec_output_opts(),
        parsed_outcome(
            old(cfg),
            final(cfg),
            inputs@,
            num_seqs@,
            parsed_count(num_seqs@),
            compile,
            fill,
            r,
        ),
{
    match parse_num_seqs(num_seqs) {
        Ok(n_select) => select(cfg, inputs, n_select, compile, fill),
        Err(e) => Err(e),
    }
}

/// What comes of writing the last `n_select` records: what `select` hands
/// back, and what becomes of the configuration.
pub open spec fn select_outcome<
    R: Record,
    E,
    C: Fn(&str) -> Result<E, CliError>,
    F: Fn(&E, &R) -> Vec<u8>,
>(
    before: &Config,
    after: &Config,
    inputs: Seq<Vec<R>>,
    n_select: usize,
    compile: C,
    fill: F,
    r: Result<Written<()>, CliError>,
) -> bool {
    let format = before.spec_output_opts().format;
    let records = joined(sources_view(inputs));
    let last = records.skip(select_from(records.len(), n_select as nat) as int);
    &&& if before.spec_has_stdin() {
        *after == *before
    } else {
        before.becomes_started(after) || *after == *before
    }
    &&& !before.spec_has_stdin() && (r is Ok || format.is_plain()) ==> before.becomes_started(after)
    &&& before.spec_has_stdin() ==> (r matches Err(e) && e is Other && e.text()
        == needs_two_passes())
    &&& match r {
        Ok(written) => !before.spec_has_stdin() && inputs.len() == before.spec_input_opts().len()
            && all_within(before.spec_input_opts(), sources_view(inputs))
            && written.sink == Sink::spec_plan(Some(&before.spec_output_opts())) && (
        format.is_plain() ==> written.bytes@ == format.texts_of(last)) && exists|
            start: Writer<E>,
            end: Writer<E>,
        |
            before.begins_with(compile, &start) && #[trigger] drives(
                write_rel(fill),
                last,
                start,
                Ok((end, true)),
            ) && written.bytes@ == end.bytes(),
        Err(_) => !(!before.spec_has_stdin() && format.is_plain() && inputs.len()
            == before.spec_input_opts().len() && all_within(
            before.spec_input_opts(),
            sources_view(inputs),
        ) && records.len() <= usize::MAX && writable(
            &format,
            last,
        )),
    }
}

/// What comes of writing the last records, as many as the text `num_seqs`
/// says, where `parsed` is the number that the text stands for: what
/// `select` does if it stands for one, and else an error that shows the text,
/// with the configuration as it was.
pub open spec fn parsed_outcome<
    R: Record,
    E,
    C: Fn(&str) -> Result<E, CliError>,
    F: Fn(&E, &R) -> Vec<u8>,
>(
    before: &Config,
    after: &Config,
    inputs: Seq<Vec<R>>,
    num_seqs: Seq<char>,
    parsed: Option<usize>,
    compile: C,
    fill: F,
    r: Result<Written<()>, CliError>,
) -> bool {
    match parsed {
        None => r matches Err(e) && e is Other && e.text() == invalid_number(num_seqs) && *after
            == *before,
        Some(n_select) => select_outcome(before, after, inputs, n_select, compile, fill, r),
    }
}

} // verus!
