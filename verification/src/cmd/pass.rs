//! The command that writes every record in the output format: it converts
//! between formats and adds attributes.

use crate::cfg::Config;
use crate::cfg::held_outcome;
use crate::cfg::is_mismatch;
use crate::cfg::is_over_ceiling;
use crate::cfg::kept_outcome;
use crate::cfg::is_repetition;
use crate::error::CliError;
use crate::io::input::all_within;
use crate::io::input::ceiling_stop;
use crate::io::input::drives;
use crate::io::input::ends_with;
use crate::io::input::held_records;
use crate::io::input::is_trace;
use crate::io::input::InputOptions;
use crate::io::input::joined;
use crate::io::input::lemma_all_within;
use crate::io::input::lemma_ceiling_stop;
use crate::io::input::lemma_drives_weaken;
use crate::io::input::lemma_trace_inv;
use crate::io::input::sources_view;
use crate::io::input::step_rel;
use crate::io::input::StepResult;
use crate::io::output::OutFormat;
use crate::io::output::Sink;
use crate::io::output::write_rel;
use crate::io::output::Writer;
use crate::io::output::Written;
use crate::io::Record;
use vstd::prelude::*;

verus! {

/// Whether every one of the records has qualities.
pub open spec fn all_have_qualities<R: Record>(records: Seq<R>) -> bool {
    forall|i: int| 0 <= i < records.len() ==> (#[trigger] records[i]).qual_bytes() is Some
}

/// Whether writing these records in the format cannot fail: FASTA and
/// delimited text always can be written, FASTQ if every record has
/// qualities.
pub open spec fn writable<R: Record>(format: &OutFormat, records: Seq<R>) -> bool {
    match format {
        OutFormat::FASTA(..) => true,
        OutFormat::FASTQ(..) => all_have_qualities(records),
        OutFormat::CSV(..) => true,
    }
}

/// Whether `w` is the first writer `start` after the records before `i`
/// were written to it, for a format that is filled from the records alone.
pub open spec fn wrote_upto<R: Record, E>(
    format: &OutFormat,
    records: Seq<R>,
    start: Writer<E>,
    i: int,
    w: Writer<E>,
) -> bool {
    &&& w.has_format(format)
    &&& w.same_setup(&start)
    &&& (format.is_plain() ==> w.registered() && w.bytes() == start.bytes() + format.texts_of(
        records.take(i),
    ))
}

/// Writes the records of a batch from the one with the index `from` on to
/// `writer`, in order, up to the first that cannot be written, which is a
/// record without qualities for FASTQ output; `fill` gives the value of a
/// compiled variable or expression for a record. It hands back the index
/// at which it ended, and the error if that is a record: the records
/// before it stay written.
pub fn write_part<R: Record, E, F>(
    writer: &mut Writer<E>,
    records: &Vec<R>,
    from: usize,
    fill: &F,
) -> (r: (usize, Result<(), CliError>)) where F: Fn(&E, &R) -> Vec<u8>
    requires
        forall|e: &E, rec: &R| fill.requires((e, rec)),
        from <= records.len(),
    ensures
        from <= r.0 <= records.len(),
        *old(writer) is Fastq ==> forall|j: int|
            from <= j < r.0 ==> (#[trigger] records@[j]).qual_bytes() is Some,
        match r.1 {
            Ok(_) => r.0 == records.len(),
            Err(_) => r.0 < records.len() && *old(writer) is Fastq && records@[r.0 as int].qual_bytes()
                is None,
        },
        final(writer).same_setup(old(writer)),
        old(writer).simple() ==> final(writer).bytes() == old(writer).bytes() + old(writer).texts(
            records@.subrange(from as int, r.0 as int),
        ),
{
    let ghost first = *writer;
    let mut i: usize = from;
    proof {
        assert(records@.subrange(from as int, from as int) =~= Seq::<R>::empty());
        assert(first.bytes() + first.texts(records@.subrange(from as int, from as int))
            == first.bytes());
    }
    while i < records.len()
        invariant
            forall|e: &E, rec: &R| fill.requires((e, rec)),
            from <= i <= records.len(),
            first == *old(writer),
            writer.same_setup(&first),
            first.simple() ==> writer.bytes() == first.bytes() + first.texts(
                records@.subrange(from as int, i as int),
            ),
            first is Fastq ==> forall|j: int|
                from <= j < i ==> (#[trigger] records@[j]).qual_bytes() is Some,
        decreases records.len() - i,
    {
        let ghost before = *writer;
        match writer.write(&records[i], fill) {
            Ok(_) => {},
            Err(e) => {
                assert(before is Fastq && first is Fastq);
                return (i, Err(e));
            },
        }
        proof {
            let done = records@.subrange(from as int, i as int);
            let more = records@.subrange(from as int, i + 1);
            before.lemma_same_texts(&first, done);
            assert(more.drop_last() == done);
            assert(more.last() == records@[i as int]);
            if first.simple() {
                assert(before.text_of(&records@[i as int]) == first.text_of(&records@[i as int]));
                assert(before.bytes() + before.text_of(&records@[i as int]) == first.bytes()
                    + first.texts(more));
            }
        }
        i = i + 1;
    }
    (i, Ok(()))
}

/// Writes the records of a batch from the one with the index `from` on to
/// `writer`, in order, and hands the writer back; `fill` gives the value of
/// a compiled variable or expression for a record. It fails with the error
/// of the first of these records that cannot be written, which is a record
/// without qualities for FASTQ output.
pub fn write_from<R: Record, E, F>(
    writer: Writer<E>,
    records: &Vec<R>,
    from: usize,
    fill: &F,
) -> (r: Result<Writer<E>, CliError>) where F: Fn(&E, &R) -> Vec<u8>
    requires
        forall|e: &E, rec: &R| fill.requires((e, rec)),
        from <= records.len(),
    ensures
        r is Ok <==> !(writer is Fastq && !all_have_qualities(records@.skip(from as int))),
        r matches Ok(end) ==> end.same_setup(&writer) && (writer.simple() ==> end.bytes()
            == writer.bytes() + writer.texts(records@.skip(from as int))),
{
    let mut w = writer;
    let (end, r) = write_part(&mut w, records, from, fill);
    proof {
        let rest = records@.skip(from as int);
        match r {
            Ok(_) => {
                assert(records@.subrange(from as int, records.len() as int) == rest);
                if writer is Fastq {
                    assert forall|j: int| 0 <= j < rest.len() implies (#[trigger] rest[j]).qual_bytes()
                        is Some by {
                        assert(rest[j] == records@[j + from]);
                    }
                }
            },
            Err(_) => {
                assert(rest[end - from].qual_bytes() is None);
            },
        }
    }
    match r {
        Ok(_) => Ok(w),
        Err(e) => Err(e),
    }
}

/// Writes the records of a batch to `writer`, in order, and hands the
/// writer back; see `write_from`.
pub fn write_batch<R: Record, E, F>(writer: Writer<E>, records: &Vec<R>, fill: &F) -> (r: Result<
    Writer<E>,
    CliError,
>) where F: Fn(&E, &R) -> Vec<u8>
    requires
        forall|e: &E, rec: &R| fill.requires((e, rec)),
    ensures
        r is Ok <==> !(writer is Fastq && !all_have_qualities(records@)),
        r matches Ok(end) ==> end.same_setup(&writer) && (writer.simple() ==> end.bytes()
            == writer.bytes() + writer.texts(records@)),
{
    assert(records@.skip(0) == records@);
    write_from(writer, records, 0, fill)
}

/// Writes every record of every source to the configured output, in the
/// order of the sources and of the records within each, and hands back the
/// bytes and the way they are to be sent. `inputs` holds the records of each
/// source, one entry for each configured source. A field of delimited text
/// that names no attribute is compiled by `compile` and filled for each
/// record by `fill`. The fields are prepared first, then the guard is asked.
/// A record above the ceiling of its source ends the run with an error
/// that names the source, the record's size and the ceiling. The run also
/// fails if `compile` refuses a field or a record cannot be written; for
/// output that is filled from the records alone it succeeds whenever every
/// record is within its ceiling and none can fail to be written.
pub fn run<R: Record, E, C, F>(cfg: &mut Config, inputs: &Vec<Vec<R>>, compile: C, fill: F) -> (r:
    Result<Written<()>, CliError>) where
    C: Fn(&str) -> Result<E, CliError>,
    F: Fn(&E, &R) -> Vec<u8>,

    requires
        forall|f: &str| compile.requires((f,)),
        forall|e: &E, rec: &R| fill.requires((e, rec)),
    ensures
        old(cfg).becomes_started(final(cfg)) || *final(cfg) == *old(cfg),
        r is Ok || old(cfg).spec_output_opts().format.is_plain() ==> old(cfg).becomes_started(
            final(cfg),
        ),
        old(cfg).spec_output_opts().format.is_plain() && !old(cfg).admits() ==> (r matches Err(
            e,
        ) && is_repetition(e)),
        match r {
            Ok(written) => old(cfg).admits() && inputs@.len() == old(cfg).spec_input_opts().len()
                && all_within(old(cfg).spec_input_opts(), sources_view(inputs@))
                && written.sink == Sink::spec_plan(Some(&old(cfg).spec_output_opts())) && (old(
                cfg,
            ).spec_output_opts().format.is_plain() ==> written.bytes@ == old(
                cfg,
            ).spec_output_opts().format.texts_of(joined(sources_view(inputs@)))) && exists|
                start: Writer<E>,
                end: Writer<E>,
            |
                old(cfg).begins_with(compile, &start) && #[trigger] drives(
                    write_rel(fill),
                    joined(sources_view(inputs@)),
                    start,
                    Ok((end, true)),
                ) && written.bytes@ == end.bytes(),
            Err(e) => !(old(cfg).admits() && old(cfg).spec_output_opts().format.is_plain()
                && inputs@.len() == old(cfg).spec_input_opts().len() && all_within(
                old(cfg).spec_input_opts(),
                sources_view(inputs@),
            ) && writable(
                &old(cfg).spec_output_opts().format,
                joined(sources_view(inputs@)),
            )),
        },
{
    let start = match cfg.start_writer(&compile) {
        Ok(w) => w,
        Err(e) => {
            return Err(e);
        },
    };
    let ghost format = cfg.spec_output_opts().format;
    let ghost first = start;
    let ghost records = joined(sources_view(inputs@));
    let filler = &fill;
    let step = |rec: &R, w: Writer<E>| -> (o: StepResult<Writer<E>>)
        ensures
            write_rel(*filler)(*rec, w, o),
            match o {
                Ok((next, go)) => go && next.same_setup(&w) && (w.simple() ==> next.bytes()
                    == w.bytes() + w.text_of(rec)),
                Err(_) => w is Fastq && rec.qual_bytes() is None,
            },
        {
            let mut w = w;
            match w.write(rec, filler) {
                Ok(_) => Ok((w, true)),
                Err(e) => Err(e),
            }
        };
    let out = cfg.read_sequential(inputs, start, step);
    let sink = Sink::plan(Some(cfg.output_opts()));
    proof {
        if format.is_plain() {
            first.lemma_plain_registered(compile, &format);
        }
        if old(cfg).admits() && inputs@.len() == old(cfg).spec_input_opts().len() {
            let opts = old(cfg).spec_input_opts();
            let driven = held_records(opts, sources_view(inputs@));
            lemma_ceiling_stop(opts, sources_view(inputs@));
            if all_within(opts, sources_view(inputs@)) {
                lemma_all_within(opts, sources_view(inputs@));
            }
            let rel = step_rel(step);
            let o = choose|o: StepResult<Writer<E>>| #[trigger]
                drives(rel, driven, first, o) && held_outcome(opts, sources_view(inputs@), o, out);
            let trace = choose|t: Seq<Writer<E>>| #[trigger]
                is_trace(rel, driven, first, t) && ends_with(rel, driven, t, o);
            let inv = |i: int, w: Writer<E>| wrote_upto(&format, driven, first, i, w);
            assert(driven.take(0) =~= Seq::<R>::empty());
            assert(first.bytes() + format.texts_of(driven.take(0)) == first.bytes());
            assert forall|i: int, a: Writer<E>, b: Writer<E>|
                0 <= i < driven.len() && inv(i, a) && #[trigger] rel(
                    driven[i],
                    a,
                    Ok((b, true)),
                ) implies inv(i + 1, b) by {
                if format.is_plain() {
                    a.lemma_text_of(&format, &driven[i]);
                    assert(driven.take(i + 1).drop_last() == driven.take(i));
                    assert(driven.take(i + 1).last() == driven[i]);
                    assert(a.bytes() + a.text_of(&driven[i]) == first.bytes() + format.texts_of(
                        driven.take(i + 1),
                    ));
                }
            }
            let k = trace.len() - 1;
            lemma_trace_inv(rel, driven, first, trace, inv, k);
            assert(driven.take(driven.len() as int) == driven);
            assert(Seq::<u8>::empty() + format.texts_of(driven) == format.texts_of(driven));
            if out is Ok {
                assert(ceiling_stop(opts, sources_view(inputs@)) is None);
                assert(driven == records);
                assert(o == Ok::<(Writer<E>, bool), CliError>((out->Ok_0, true)));
                lemma_drives_weaken(rel, write_rel(fill), records, first, o);
            }
        }
    }
    match out {
        Ok(end) => Ok(Written { value: (), bytes: end.into_inner(), sink }),
        Err(e) => Err(e),
    }
}

/// What is written, and what comes of it, where the output is filled from
/// the records alone: the texts of the records that are read, up to the
/// first that cannot be written. If that is a record, or if reading ended
/// at the ceiling, the run fails; the records before stay written.
pub open spec fn kept_output<R: Record>(
    opts: Seq<InputOptions>,
    format: &OutFormat,
    sources: Seq<Seq<R>>,
    bytes: Seq<u8>,
    r: Result<(), CliError>,
) -> bool {
    let held = held_records(opts, sources);
    exists|n: int|
        0 <= n <= held.len() && bytes == format.texts_of(#[trigger] held.take(n)) && (format
            is FASTQ ==> all_have_qualities(held.take(n))) && if n < held.len() {
            r is Err && format is FASTQ && held[n].qual_bytes() is None
        } else {
            match ceiling_stop(opts, sources) {
                Some((src, idx)) => r matches Err(e) && is_over_ceiling(opts, sources, src, idx, e),
                None => r is Ok,
            }
        }
}

/// Writes every record of every source to the configured output like
/// `run`, and hands back what was written also where the run fails: the
/// records before the one that could not be read or written stay written.
/// Where the guard or `compile` refuses, nothing is written.
pub fn run_kept<R: Record, E, C, F>(cfg: &mut Config, inputs: &Vec<Vec<R>>, compile: C, fill: F) -> (r:
    (Written<()>, Result<(), CliError>)) where
    C: Fn(&str) -> Result<E, CliError>,
    F: Fn(&E, &R) -> Vec<u8>,

    requires
        forall|f: &str| compile.requires((f,)),
        forall|e: &E, rec: &R| fill.requires((e, rec)),
    ensures
        old(cfg).becomes_started(final(cfg)) || *final(cfg) == *old(cfg),
        r.0.sink == Sink::spec_plan(Some(&old(cfg).spec_output_opts())),
        old(cfg).spec_output_opts().format.is_plain() ==> old(cfg).becomes_started(final(cfg)) && if !old(
            cfg,
        ).admits() {
            r.0.bytes@.len() == 0 && (r.1 matches Err(e) && is_repetition(e))
        } else if inputs@.len() != old(cfg).spec_input_opts().len() {
            r.0.bytes@.len() == 0 && (r.1 matches Err(e) && is_mismatch(e))
        } else {
            kept_output(
                old(cfg).spec_input_opts(),
                &old(cfg).spec_output_opts().format,
                sources_view(inputs@),
                r.0.bytes@,
                r.1,
            )
        },
{
    let sink = Sink::plan(Some(cfg.output_opts()));
    let start = match cfg.start_writer(&compile) {
        Ok(w) => w,
        Err(e) => {
            return (Written { value: (), bytes: Vec::new(), sink }, Err(e));
        },
    };
    let ghost format = cfg.spec_output_opts().format;
    let ghost first = start;
    let filler = &fill;
    let step = |rec: &R, acc: (Writer<E>, Option<CliError>)| -> (o: StepResult<
        (Writer<E>, Option<CliError>),
    >)
        ensures
            match o {
                Ok((next, go)) => next.0.same_setup(&acc.0) && if go {
                    next.1 == acc.1 && !(acc.0 is Fastq && rec.qual_bytes() is None) && (
                    acc.0.simple() ==> next.0.bytes() == acc.0.bytes() + acc.0.text_of(rec))
                } else {
                    next.1 is Some && acc.0 is Fastq && rec.qual_bytes() is None && next.0.bytes()
                        == acc.0.bytes()
                },
                Err(_) => false,
            },
        {
            let (w, failed) = acc;
            let mut w = w;
            match w.write(rec, filler) {
                Ok(_) => Ok(((w, failed), true)),
                Err(e) => Ok(((w, Some(e)), false)),
            }
        };
    let out = cfg.read_sequential_kept(inputs, (start, None), step);
    proof {
        if format.is_plain() {
            first.lemma_plain_registered(compile, &format);
        }
        if format.is_plain() && old(cfg).admits() && inputs@.len() == old(cfg).spec_input_opts().len() {
            let opts = old(cfg).spec_input_opts();
            let sources = sources_view(inputs@);
            let held = held_records(opts, sources);
            let rel = step_rel(step);
            let init = (first, None::<CliError>);
            let o = choose|o: StepResult<(Writer<E>, Option<CliError>)>| #[trigger]
                drives(rel, held, init, o) && kept_outcome(opts, sources, o, out);
            let trace = choose|t: Seq<(Writer<E>, Option<CliError>)>| #[trigger]
                is_trace(rel, held, init, t) && ends_with(rel, held, t, o);
            let inv = |i: int, acc: (Writer<E>, Option<CliError>)|
                wrote_upto(&format, held, first, i, acc.0) && acc.1 is None && (format is FASTQ
                    ==> all_have_qualities(held.take(i)));
            assert(held.take(0) =~= Seq::<R>::empty());
            assert(first.bytes() + format.texts_of(held.take(0)) == first.bytes());
            assert forall|i: int, a: (Writer<E>, Option<CliError>), b: (Writer<E>, Option<CliError>)|
                0 <= i < held.len() && inv(i, a) && #[trigger] rel(
                    held[i],
                    a,
                    Ok((b, true)),
                ) implies inv(i + 1, b) by {
                a.0.lemma_text_of(&format, &held[i]);
                assert(held.take(i + 1).drop_last() == held.take(i));
                assert(held.take(i + 1).last() == held[i]);
                assert(a.0.bytes() + a.0.text_of(&held[i]) == first.bytes() + format.texts_of(
                    held.take(i + 1),
                ));
                if format is FASTQ {
                    assert forall|j: int| 0 <= j < i + 1 implies (#[trigger] held.take(
                        i + 1,
                    )[j]).qual_bytes() is Some by {
                        if j < i {
                            assert(held.take(i)[j] == held[j]);
                        }
                    }
                }
            }
            let k = trace.len() - 1;
            lemma_trace_inv(rel, held, init, trace, inv, k);
            assert(Seq::<u8>::empty() + format.texts_of(held.take(k)) == format.texts_of(
                held.take(k),
            ));
            assert(out is Ok);
            let got = out->Ok_0;
            let r1 = match got.0.1 {
                Some(e) => Err::<(), CliError>(e),
                None => match got.1 {
                    Some(e) => Err::<(), CliError>(e),
                    None => Ok::<(), CliError>(()),
                },
            };
            assert(got.0.0.bytes() == format.texts_of(held.take(k)));
            assert(kept_output(opts, &format, sources, got.0.0.bytes(), r1));
        }
    }
    match out {
        Err(e) => (Written { value: (), bytes: Vec::new(), sink }, Err(e)),
        Ok(((w, failed), over)) => {
            let r = match failed {
                Some(e) => Err(e),
                None => match over {
                    Some(e) => Err(e),
                    None => Ok(()),
                },
            };
            (Written { value: (), bytes: w.into_inner(), sink }, r)
        },
    }
}

} // verus!
