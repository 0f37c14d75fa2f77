//! The configuration of a run: its sources and its output, and the entry
//! points that read all records.
//!
//! A source on the console can be read once only: a second pass would find
//! it empty and silently give wrong output. Every entry point that reads all
//! records therefore asks the guard first, which refuses a second full read
//! of a configuration that has the console among its sources.

use crate::error::CliError;
use crate::io::attribute_named;
use crate::io::Compression;
use crate::io::input::all_within;
use crate::io::input::ceiling_stop;
use crate::io::input::default_rel;
use crate::io::input::drives;
use crate::io::input::finalized_as;
use crate::io::input::ends_with;
use crate::io::input::first_over;
use crate::io::input::fits_all;
use crate::io::input::held_records;
use crate::io::input::InputOptions;
use crate::io::input::InputType;
use crate::io::input::io_readers;
use crate::io::input::io_readers_upto;
use crate::io::input::Item;
use crate::io::input::items_of;
use crate::io::input::joined;
use crate::io::input::lemma_all_within;
use crate::io::input::lemma_drives_halted;
use crate::io::input::lemma_drives_map;
use crate::io::input::lemma_drives_on;
use crate::io::input::lemma_drives_weaken;
use crate::io::input::is_trace;
use crate::io::input::lemma_first_over_unique;
use crate::io::input::linked;
use crate::io::input::over_ceiling;
use crate::io::input::over_sources;
use crate::io::input::pipeline_rel;
use crate::io::input::read_parallel;
use crate::io::input::record_items;
use crate::io::input::run_reader;
use crate::io::input::run_reader_upto;
use crate::io::input::shown_size;
use crate::io::input::sources_view;
use crate::io::input::step_rel;
use crate::io::input::StepResult;
use crate::io::input::worked;
use crate::io::output::csv::compiles_to;
use crate::io::output::from_format;
use crate::io::output::OutFormat;
use crate::io::output::OutputKind;
use crate::io::output::OutputOptions;
use crate::io::output::Sink;
use crate::io::output::Writer;
use crate::io::output::Written;
use crate::io::Record;
use crate::var::help_text;
use crate::var::var_help;
use crate::var::VarOpts;
use vstd::prelude::*;
use vstd::string::StringExecFns;

verus! {

/// The outcome of a run without the signal to go on.
pub open spec fn finished<A>(out: StepResult<A>) -> Result<A, CliError> {
    match out {
        Ok((acc, _)) => Ok(acc),
        Err(e) => Err(e),
    }
}

/// Whether `e` is the error for records that are not given source by
/// source as the configuration has them.
pub open spec fn is_mismatch(e: CliError) -> bool {
    e is Other && e.text() == "The number of inputs differs from the number of sources"@
}

/// What comes of the start of a source in a run with a variable context:
/// what `new_input` makes of the context, with the signal to go on, or its
/// error.
pub open spec fn prepared<V, N: Fn(&InputOptions, V) -> Result<V, CliError>>(
    new_input: N,
    o: InputOptions,
    vars: V,
    out: StepResult<V>,
) -> bool {
    match out {
        Ok((next, go)) => go && new_input.ensures((&o, vars), Ok(next)),
        Err(e) => new_input.ensures((&o, vars), Err(e)),
    }
}

/// What comes of a record in a sequential run with a variable context:
/// `set_record` tells the context of the record, then `func` gets the record
/// and the context. If `set_record` fails, its error is the outcome and
/// `func` is not called.
pub open spec fn var_step<
    R,
    V,
    S: Fn(&R, V) -> Result<V, CliError>,
    F: Fn(&R, V) -> StepResult<V>,
>(set_record: S, func: F, rec: R, vars: V, out: StepResult<V>) -> bool {
    exists|set: Result<V, CliError>| #[trigger]
        set_record.ensures((&rec, vars), set) && match set {
            Ok(v) => func.ensures((&rec, v), out),
            Err(e) => out == Err::<(V, bool), CliError>(e),
        }
}

/// The step relation of a sequential run with a variable context.
pub open spec fn var_rel<
    R,
    V,
    N: Fn(&InputOptions, V) -> Result<V, CliError>,
    S: Fn(&R, V) -> Result<V, CliError>,
    F: Fn(&R, V) -> StepResult<V>,
>(new_input: N, set_record: S, func: F) -> spec_fn(Item<R>, V, StepResult<V>) -> bool {
    |item: Item<R>, vars: V, out: StepResult<V>|
        match item {
            Item::Start(_, o) => prepared(new_input, o, vars, out),
            Item::Rec(_, rec) => var_step(set_record, func, rec, vars, out),
        }
}

/// What comes of a record with its filled output slot in a parallel run
/// with a variable context: `set_record` tells the context of the record,
/// then `func` gets the record, the slot and the context.
pub open spec fn var_finalized<
    R,
    D,
    V,
    S: Fn(&R, V) -> Result<V, CliError>,
    F: Fn(&R, D, V) -> StepResult<V>,
>(set_record: S, func: F, rec: R, slot: D, vars: V, out: StepResult<V>) -> bool {
    exists|set: Result<V, CliError>| #[trigger]
        set_record.ensures((&rec, vars), set) && match set {
            Ok(v) => func.ensures((&rec, slot, v), out),
            Err(e) => out == Err::<(V, bool), CliError>(e),
        }
}

/// What comes of a record in a parallel run with a variable context: the
/// work on the record, then `set_record` and `func` on the calling thread.
/// If the work failed, its error is the outcome and neither is called.
pub open spec fn var_worked<
    R,
    L,
    D,
    V,
    Di: Fn() -> D,
    W: Fn(&R, D, &L) -> Result<D, CliError>,
    S: Fn(&R, V) -> Result<V, CliError>,
    F: Fn(&R, D, V) -> StepResult<V>,
>(data_init: Di, work: W, local: L, set_record: S, func: F, rec: R, vars: V, out: StepResult<
    V,
>) -> bool {
    exists|res: Result<D, CliError>| #[trigger]
        worked(data_init, work, local, rec, res) && match res {
            Ok(slot) => var_finalized(set_record, func, rec, slot, vars, out),
            Err(e) => out == Err::<(V, bool), CliError>(e),
        }
}

/// The step relation of a parallel run with a variable context.
pub open spec fn var_pipeline_rel<
    R,
    L,
    D,
    V,
    Di: Fn() -> D,
    W: Fn(&R, D, &L) -> Result<D, CliError>,
    N: Fn(&InputOptions, V) -> Result<V, CliError>,
    S: Fn(&R, V) -> Result<V, CliError>,
    F: Fn(&R, D, V) -> StepResult<V>,
>(data_init: Di, work: W, local: L, new_input: N, set_record: S, func: F) -> spec_fn(
    Item<R>,
    V,
    StepResult<V>,
) -> bool {
    |item: Item<R>, vars: V, out: StepResult<V>|
        match item {
            Item::Start(_, o) => prepared(new_input, o, vars, out),
            Item::Rec(_, rec) => var_worked(data_init, work, local, set_record, func, rec, vars, out),
        }
}

/// The step relation of a parallel run with a variable context, with output
/// slots that start at their type's default, work that needs no worker
/// state, and nothing to do at the start of a source.
pub open spec fn default_var_rel<
    R,
    D: Default,
    V,
    W: Fn(&R, D) -> Result<D, CliError>,
    S: Fn(&R, V) -> Result<V, CliError>,
    F: Fn(&R, D, V) -> StepResult<V>,
>(work: W, set_record: S, func: F) -> spec_fn(Item<R>, V, StepResult<V>) -> bool {
    |item: Item<R>, vars: V, out: StepResult<V>|
        match item {
            Item::Start(_, _) => out == Ok::<(V, bool), CliError>((vars, true)),
            Item::Rec(_, rec) => exists|slot: D, res: Result<D, CliError>|
                call_ensures(D::default, (), slot) && #[trigger] work.ensures((&rec, slot), res)
                    && match res {
                    Ok(filled) => var_finalized(set_record, func, rec, filled, vars, out),
                    Err(e) => out == Err::<(V, bool), CliError>(e),
                },
        }
}

/// The step relation of a scan that passes each record with the number of
/// its source: the start of a source changes nothing, and no record stops
/// the scan.
pub open spec fn indexed_rel<R, A, F: Fn(usize, &R, A) -> Result<A, CliError>>(func: F) -> spec_fn(
    Item<R>,
    A,
    StepResult<A>,
) -> bool {
    |item: Item<R>, acc: A, out: StepResult<A>|
        match item {
            Item::Start(_, _) => out == Ok::<(A, bool), CliError>((acc, true)),
            Item::Rec(i, rec) => 0 <= i <= usize::MAX && match out {
                Ok((next, go)) => go && func.ensures((i as usize, &rec, acc), Ok(next)),
                Err(e) => func.ensures((i as usize, &rec, acc), Err(e)),
            },
        }
}

/// What a reference refers to.
spec fn held<T>(r: &T) -> T {
    *r
}

/// Whether `e` is the error for record `idx` of source `src`, which is
/// above the ceiling of its source: it names the source, the record's size
/// and the ceiling.
pub open spec fn is_over_ceiling<R: Record>(
    opts: Seq<InputOptions>,
    sources: Seq<Seq<R>>,
    src: int,
    idx: int,
    e: CliError,
) -> bool {
    e is Other && e.text() == over_ceiling(
        opts[src].spec_name(),
        shown_size(sources[src][idx].raw_size()),
        opts[src].max_mem as nat,
    )
}

/// What comes of a sequential run that is held to the ceilings of its
/// sources, where `out` is the outcome of driving the records that are
/// read: if they were all taken and a record above its ceiling is next, the
/// error for that record, and else the outcome.
pub open spec fn held_outcome<R: Record, A>(
    opts: Seq<InputOptions>,
    sources: Seq<Seq<R>>,
    out: StepResult<A>,
    r: Result<A, CliError>,
) -> bool {
    match (ceiling_stop(opts, sources), out) {
        (Some((src, idx)), Ok((_, true))) => r matches Err(e) && is_over_ceiling(
            opts,
            sources,
            src,
            idx,
            e,
        ),
        _ => r == finished(out),
    }
}

/// What comes of a sequential run that hands the accumulator back, where
/// `out` is the outcome of driving the records that are read: if they were
/// all taken and a record above its ceiling is next, the accumulator with
/// the error for that record; else the accumulator alone, or the error of
/// the step that failed.
pub open spec fn kept_outcome<R: Record, A>(
    opts: Seq<InputOptions>,
    sources: Seq<Seq<R>>,
    out: StepResult<A>,
    r: Result<(A, Option<CliError>), CliError>,
) -> bool {
    match out {
        Err(e) => r == Err::<(A, Option<CliError>), CliError>(e),
        Ok((acc, go)) => match ceiling_stop(opts, sources) {
            Some((src, idx)) if go => r matches Ok((last, Some(e))) && last == acc
                && is_over_ceiling(opts, sources, src, idx, e),
            _ => r == Ok::<(A, Option<CliError>), CliError>((acc, None)),
        },
    }
}

/// Whether `e` is the error for a record that is above the ceiling of its
/// source: it names the source, the record's size and the ceiling.
pub open spec fn over_for<R: Record>(o: InputOptions, rec: R, e: CliError) -> bool {
    e is Other && e.text() == over_ceiling(
        o.spec_name(),
        shown_size(rec.raw_size()),
        o.max_mem as nat,
    )
}

/// A step relation held to the ceilings of the sources: a record above the
/// ceiling of its source ends the run with the error for it, and is passed
/// to nothing; for every other record and for the start of a source the
/// relation `rel` holds.
pub open spec fn held_rel<R: Record, A>(
    opts: Seq<InputOptions>,
    rel: spec_fn(Item<R>, A, StepResult<A>) -> bool,
) -> spec_fn(Item<R>, A, StepResult<A>) -> bool {
    |item: Item<R>, acc: A, out: StepResult<A>|
        match item {
            Item::Rec(i, rec) => if 0 <= i < opts.len() && rec.raw_size() > opts[i].max_mem {
                out is Err && over_for(opts[i], rec, out->Err_0)
            } else {
                rel(item, acc, out)
            },
            Item::Start(_, _) => rel(item, acc, out),
        }
}

/// A step relation on records as one on the items of a run over several
/// sources: the start of a source changes nothing.
pub open spec fn record_rel<R, A>(rel: spec_fn(R, A, StepResult<A>) -> bool) -> spec_fn(
    Item<R>,
    A,
    StepResult<A>,
) -> bool {
    |item: Item<R>, acc: A, out: StepResult<A>|
        match item {
            Item::Start(_, _) => out == Ok::<(A, bool), CliError>((acc, true)),
            Item::Rec(_, rec) => rel(rec, acc, out),
        }
}

/// Whether `e` is the error of the guard.
pub open spec fn is_repetition(e: CliError) -> bool {
    e is Other && e.text() == "Cannot read twice from STDIN"@
}

/// The sources and the output of a run, and whether a full read was
/// attempted.
#[derive(Debug, Clone)]
pub struct Config {
    input_opts: Vec<InputOptions>,
    output_opts: OutputOptions,
    started: bool,
}

impl Config {
    /// The sources, in the order in which they are read.
    pub closed spec fn spec_input_opts(&self) -> Seq<InputOptions> {
        self.input_opts@
    }

    pub closed spec fn spec_output_opts(&self) -> OutputOptions {
        self.output_opts
    }

    /// Whether a full read was attempted.
    pub closed spec fn started(&self) -> bool {
        self.started
    }

    /// Whether one of the sources is the console.
    pub open spec fn spec_has_stdin(&self) -> bool {
        exists|i: int|
            0 <= i < self.spec_input_opts().len() && (#[trigger] self.spec_input_opts()[i]).kind
                is Stdin
    }

    /// Whether the guard lets a full read begin.
    pub open spec fn admits(&self) -> bool {
        !(self.started() && self.spec_has_stdin())
    }

    /// Whether `after` is `self` with the mark that a full read was
    /// attempted.
    pub open spec fn becomes_started(&self, after: &Config) -> bool {
        &&& after.started()
        &&& after.spec_input_opts() == self.spec_input_opts()
        &&& after.spec_output_opts() == self.spec_output_opts()
    }

    /// A configuration that was not read yet. Where the help on variables
    /// was asked for, there is no configuration: the help is handed back as
    /// the message of an error, after the help of the command if it has its
    /// own.
    pub fn new(
        input_opts: Vec<InputOptions>,
        output_opts: OutputOptions,
        var_opts: VarOpts,
        custom_help: Option<&str>,
    ) -> (r: Result<Config, CliError>)
        ensures
            match r {
                Ok(cfg) => !var_opts.var_help && cfg.spec_input_opts() == input_opts@
                    && cfg.spec_output_opts() == output_opts && !cfg.started(),
                Err(e) => var_opts.var_help && e is Other && e.text() == help_text(
                    match custom_help {
                        Some(h) => Some(h@),
                        None => None,
                    },
                ),
            },
    {
        if var_opts.var_help {
            let h = match custom_help {
                Some(h) => {
                    let mut text = String::from_str(h);
                    text.append("\n\n");
                    text.append(var_help().as_str());
                    text
                },
                None => var_help(),
            };
            return Err(CliError::Other(h));
        }
        Ok(Config { input_opts, output_opts, started: false })
    }

    /// A configuration for a command without help of its own.
    pub fn from_args(
        input_opts: Vec<InputOptions>,
        output_opts: OutputOptions,
        var_opts: VarOpts,
    ) -> (r: Result<Config, CliError>)
        ensures
            match r {
                Ok(cfg) => !var_opts.var_help && cfg.spec_input_opts() == input_opts@
                    && cfg.spec_output_opts() == output_opts && !cfg.started(),
                Err(e) => var_opts.var_help && e is Other && e.text() == help_text(None),
            },
    {
        Self::new(input_opts, output_opts, var_opts, None)
    }

    /// A configuration for a command with help of its own on variables.
    pub fn from_args_with_help(
        input_opts: Vec<InputOptions>,
        output_opts: OutputOptions,
        var_opts: VarOpts,
        custom_help: &str,
    ) -> (r: Result<Config, CliError>)
        ensures
            match r {
                Ok(cfg) => !var_opts.var_help && cfg.spec_input_opts() == input_opts@
                    && cfg.spec_output_opts() == output_opts && !cfg.started(),
                Err(e) => var_opts.var_help && e is Other && e.text() == help_text(
                    Some(custom_help@),
                ),
            },
    {
        Self::new(input_opts, output_opts, var_opts, Some(custom_help))
    }

    /// Whether `w` is the writer that a run with output starts with: the one
    /// for the configured format, with its fields prepared with `compile`
    /// and an empty buffer.
    pub open spec fn begins_with<E, C: Fn(&str) -> Result<E, CliError>>(
        &self,
        compile: C,
        w: &Writer<E>,
    ) -> bool {
        &&& w.has_format(&self.spec_output_opts().format)
        &&& w.registered_by(compile)
        &&& w.bytes().len() == 0
    }

    /// Whether `e` is an error with which `compile` may refuse one of the
    /// fields of the configured output that name no attribute.
    pub open spec fn refused_by<E, C: Fn(&str) -> Result<E, CliError>>(
        &self,
        compile: C,
        e: CliError,
    ) -> bool {
        self.spec_output_opts().format matches OutFormat::CSV(_, fields) && exists|i: int|
            0 <= i < fields.deep_view().len() && attribute_named(
                #[trigger] fields.deep_view()[i],
            ) is None && compiles_to(compile, fields.deep_view()[i], Err::<E, CliError>(e))
    }

    /// The writer for the configured output with an empty buffer and its
    /// fields prepared: a field of delimited text that names no attribute is
    /// handed to `compile` as a variable or expression. It fails with the
    /// error of the first field that `compile` refuses, and never for output
    /// that is filled from the records alone.
    pub fn start_writer<E, C>(&self, compile: &C) -> (r: Result<Writer<E>, CliError>) where
        C: Fn(&str) -> Result<E, CliError>,

        requires
            forall|f: &str| compile.requires((f,)),
        ensures
            self.spec_output_opts().format.is_plain() ==> r is Ok,
            match r {
                Ok(w) => self.begins_with(*compile, &w),
                Err(e) => self.refused_by(*compile, e),
            },
    {
        let mut start = match from_format(Vec::new(), &self.output_opts.format) {
            Ok(w) => w,
            Err(e) => {
                return Err(e);
            },
        };
        match start.register_vars(compile) {
            Ok(_) => Ok(start),
            Err(e) => Err(e),
        }
    }

    /// Runs `func` with the writer for the configured output, its fields
    /// prepared with `compile`, and hands back what `func` returns together
    /// with the bytes in the writer that `func` gives back and the way they
    /// are to be sent. Where `compile` refuses a field, `func` is not
    /// called. An error of `func` is the error of the run.
    pub fn writer<F, O, E, C>(&self, compile: C, func: F) -> (r: Result<Written<O>, CliError>) where
        F: FnOnce(Writer<E>) -> Result<(Writer<E>, O), CliError>,
        C: Fn(&str) -> Result<E, CliError>,

        requires
            forall|f: &str| compile.requires((f,)),
            forall|w: Writer<E>| self.begins_with(compile, &w) ==> func.requires((w,)),
        ensures
            match r {
                Ok(written) => written.sink == Sink::spec_plan(Some(&self.spec_output_opts()))
                    && exists|w: Writer<E>, end: Writer<E>|
                    self.begins_with(compile, &w) && #[trigger] func.ensures(
                        (w,),
                        Ok((end, written.value)),
                    ) && written.bytes@ == end.bytes(),
                Err(e) => self.refused_by(compile, e) || exists|w: Writer<E>|
                    self.begins_with(compile, &w) && #[trigger] func.ensures((w,), Err(e)),
            },
    {
        let start = match self.start_writer(&compile) {
            Ok(w) => w,
            Err(e) => {
                return Err(e);
            },
        };
        let ghost first = start;
        let out = func(start);
        assert(func.ensures((first,), out));
        match out {
            Ok((end, value)) => {
                let ghost last = end;
                let written = Written {
                    value,
                    bytes: end.into_inner(),
                    sink: Sink::plan(Some(&self.output_opts)),
                };
                assert(func.ensures((first,), Ok((last, written.value))));
                Ok(written)
            },
            Err(e) => Err(e),
        }
    }

    /// Runs `func` with the writer for the configured output and with what
    /// `init` makes, which is called before the fields are prepared. Where
    /// `init` fails or `compile` refuses a field, `func` is not called.
    pub fn writer_with<F, O, I, V, E, C>(&self, init: I, compile: C, func: F) -> (r: Result<
        Written<O>,
        CliError,
    >) where
        F: FnOnce(Writer<E>, V) -> Result<(Writer<E>, O), CliError>,
        I: FnOnce() -> Result<V, CliError>,
        C: Fn(&str) -> Result<E, CliError>,

        requires
            init.requires(()),
            forall|f: &str| compile.requires((f,)),
            forall|w: Writer<E>, v: V| self.begins_with(compile, &w) ==> func.requires((w, v)),
        ensures
            match r {
                Ok(written) => written.sink == Sink::spec_plan(Some(&self.spec_output_opts()))
                    && exists|w: Writer<E>, v: V, end: Writer<E>|
                    init.ensures((), Ok(v)) && self.begins_with(compile, &w)
                        && #[trigger] func.ensures((w, v), Ok((end, written.value)))
                        && written.bytes@ == end.bytes(),
                Err(e) => init.ensures((), Err(e)) || self.refused_by(compile, e) || exists|
                    w: Writer<E>,
                    v: V,
                |
                    init.ensures((), Ok(v)) && self.begins_with(compile, &w)
                        && #[trigger] func.ensures((w, v), Err(e)),
            },
    {
        let made = init();
        let provider = match made {
            Ok(v) => v,
            Err(e) => {
                return Err(e);
            },
        };
        let start = match self.start_writer(&compile) {
            Ok(w) => w,
            Err(e) => {
                return Err(e);
            },
        };
        let ghost first = start;
        let ghost given = provider;
        let out = func(start, provider);
        assert(func.ensures((first, given), out));
        match out {
            Ok((end, value)) => {
                let ghost last = end;
                let written = Written {
                    value,
                    bytes: end.into_inner(),
                    sink: Sink::plan(Some(&self.output_opts)),
                };
                assert(func.ensures((first, given), Ok((last, written.value))));
                Ok(written)
            },
            Err(e) => Err(e),
        }
    }

    /// Runs `func` with an empty byte buffer and hands back what `func`
    /// returns together with the buffer that `func` gives back and the way
    /// its bytes are to be sent to the configured destination.
    pub fn io_writer<F, O>(&self, func: F) -> (r: Result<Written<O>, CliError>) where
        F: FnOnce(Vec<u8>) -> Result<(Vec<u8>, O), CliError>,

        requires
            forall|b: Vec<u8>| b@.len() == 0 ==> func.requires((b,)),
        ensures
            match r {
                Ok(written) => written.sink == Sink::spec_plan(Some(&self.spec_output_opts()))
                    && exists|b: Vec<u8>, end: Vec<u8>|
                    b@.len() == 0 && #[trigger] func.ensures((b,), Ok((end, written.value)))
                        && written.bytes@ == end@,
                Err(e) => exists|b: Vec<u8>| b@.len() == 0 && #[trigger] func.ensures((b,), Err(e)),
            },
    {
        crate::io::output::io_writer(Some(&self.output_opts), func)
    }

    /// A second writer in the configured format, for output that goes to the
    /// file `path` with the configured compression. Its fields are prepared
    /// with `compile` if one is given; it fails if `compile` refuses a field.
    pub fn other_writer<E, C>(&self, path: &str, compile: Option<&C>) -> (r: Result<
        (Writer<E>, OutputKind, Option<Compression>),
        CliError,
    >) where C: Fn(&str) -> Result<E, CliError>
        requires
            compile matches Some(c) ==> forall|f: &str| c.requires((f,)),
        ensures
            compile is None || self.spec_output_opts().format.is_plain() ==> r is Ok,
            match r {
                Ok((w, kind, compression)) => w.has_format(&self.spec_output_opts().format)
                    && w.bytes().len() == 0 && (compile matches Some(c) ==> w.registered_by(*c))
                    && (compile is None ==> w.is_for(&self.spec_output_opts().format)) && kind
                    is File && kind->File_0@ == path@ && compression
                    == self.spec_output_opts().compression,
                Err(e) => compile matches Some(c) && self.refused_by(*c, e),
            },
    {
        let mut w = match from_format(Vec::new(), &self.output_opts.format) {
            Ok(w) => w,
            Err(e) => {
                return Err(e);
            },
        };
        match compile {
            Some(c) => match w.register_vars(c) {
                Ok(_) => {},
                Err(e) => {
                    return Err(e);
                },
            },
            None => {},
        }
        Ok((w, OutputKind::File(String::from_str(path)), self.output_opts.compression))
    }

    pub fn input_opts(&self) -> (opts: &[InputOptions])
        ensures
            opts@ == self.spec_input_opts(),
    {
        self.input_opts.as_slice()
    }

    pub fn output_opts(&self) -> (opts: &OutputOptions)
        ensures
            *opts == self.spec_output_opts(),
    {
        &self.output_opts
    }

    /// The number of sources.
    pub fn num_readers(&self) -> (n: usize)
        ensures
            n == self.spec_input_opts().len(),
    {
        self.input_opts.len()
    }

    /// Whether one of the sources is the console. A caller that needs two
    /// passes asks this before it starts.
    pub fn has_stdin(&self) -> (b: bool)
        ensures
            b == self.spec_has_stdin(),
    {
        let mut i: usize = 0;
        while i < self.input_opts.len()
            invariant
                i <= self.input_opts.len(),
                forall|j: int| 0 <= j < i ==> !((#[trigger] self.input_opts@[j]).kind is Stdin),
            decreases self.input_opts.len() - i,
        {
            if let InputType::Stdin = self.input_opts[i].kind {
                return true;
            }
            i = i + 1;
        }
        false
    }

    /// The guard. It refuses if a full read was attempted before and one of
    /// the sources is the console; otherwise it lets the read begin. Either
    /// way the configuration is marked as read from then on.
    pub fn check_repetition(&mut self) -> (r: Result<(), CliError>)
        ensures
            old(self).becomes_started(final(self)),
            match r {
                Ok(_) => old(self).admits(),
                Err(e) => !old(self).admits() && is_repetition(e),
            },
    {
        if self.started && self.has_stdin() {
            return Err(CliError::other("Cannot read twice from STDIN"));
        }
        self.started = true;
        Ok(())
    }

    /// Looks for the first record, in the order in which the records are
    /// read, that is above the ceiling of its source, and makes the error
    /// for it.
    fn find_over<R: Record>(&self, inputs: &Vec<Vec<R>>) -> (found: Option<(usize, usize, CliError)>)
        requires
            inputs@.len() == self.spec_input_opts().len(),
        ensures
            match found {
                None => all_within(self.spec_input_opts(), sources_view(inputs@)),
                Some((src, idx, e)) => first_over(
                    self.spec_input_opts(),
                    sources_view(inputs@),
                    src as int,
                    idx as int,
                ) && is_over_ceiling(self.spec_input_opts(), sources_view(inputs@), src as int, idx as int, e),
            },
    {
        let ghost sources = sources_view(inputs@);
        let mut src: usize = 0;
        while src < inputs.len()
            invariant
                inputs@.len() == self.input_opts@.len(),
                sources == sources_view(inputs@),
                src <= inputs.len(),
                forall|i: int|
                    0 <= i < src ==> fits_all(self.input_opts@[i].max_mem, #[trigger] sources[i]),
            decreases inputs.len() - src,
        {
            let records = &inputs[src];
            let opts = &self.input_opts[src];
            let mut idx: usize = 0;
            assert(records@ == sources[src as int]);
            while idx < records.len()
                invariant
                    inputs@.len() == self.input_opts@.len(),
                    sources == sources_view(inputs@),
                    src < inputs.len(),
                    *opts == self.input_opts@[src as int],
                    forall|i: int|
                        0 <= i < src ==> fits_all(
                            self.input_opts@[i].max_mem,
                            #[trigger] sources[i],
                        ),
                    idx <= records.len(),
                    records@ == sources[src as int],
                    forall|j: int|
                        0 <= j < idx ==> (#[trigger] sources[src as int][j]).raw_size()
                            <= opts.max_mem,
                decreases records.len() - idx,
            {
                match opts.fit(records[idx].raw_len()) {
                    Ok(_) => {},
                    Err(e) => {
                        assert(sources[src as int][idx as int] == records@[idx as int]);
                        return Some((src, idx, e));
                    },
                }
                assert(sources[src as int][idx as int] == records@[idx as int]);
                idx = idx + 1;
            }
            assert(fits_all(opts.max_mem, sources[src as int]));
            src = src + 1;
        }
        None
    }

    /// The sequential scan of all sources that hands the accumulator back
    /// also where reading ends at the ceiling: then with the error for the
    /// record above its ceiling. The guard is asked first. The sources are
    /// taken in their order, each to its end before the next begins, and
    /// `func` gets every record until it asks to stop or fails, or the next
    /// record is above the ceiling of its source. `inputs` holds the records
    /// of each source, one entry for each configured source.
    pub fn read_sequential_kept<R: Record, A, F>(&mut self, inputs: &Vec<Vec<R>>, init: A, func: F) -> (r:
        Result<(A, Option<CliError>), CliError>) where F: Fn(&R, A) -> StepResult<A>
        requires
            forall|r: &R, a: A| func.requires((r, a)),
        ensures
            old(self).becomes_started(final(self)),
            !old(self).admits() ==> (r matches Err(e) && is_repetition(e)),
            old(self).admits() && inputs@.len() != old(self).spec_input_opts().len() ==> (
            r matches Err(e) && is_mismatch(e)),
            old(self).admits() && inputs@.len() == old(self).spec_input_opts().len()
                ==> exists|out: StepResult<A>| #[trigger]
                drives(
                    step_rel(func),
                    held_records(old(self).spec_input_opts(), sources_view(inputs@)),
                    init,
                    out,
                ) && kept_outcome(old(self).spec_input_opts(), sources_view(inputs@), out, r),
    {
        match self.begin_scan(inputs) {
            Err(e) => {
                return Err(e);
            },
            Ok(_) => {},
        }
        let ghost opts = self.spec_input_opts();
        let ghost sources = sources_view(inputs@);
        let ghost rel = step_rel(func);
        match self.find_over(inputs) {
            None => {
                proof {
                    lemma_all_within(opts, sources);
                }
                let out = io_readers(inputs, init, &func);
                let r = match out {
                    Ok((last, _)) => Ok((last, None)),
                    Err(e) => Err(e),
                };
                assert(drives(rel, held_records(opts, sources), init, out) && kept_outcome(
                    opts,
                    sources,
                    out,
                    r,
                ));
                r
            },
            Some((src, idx, e)) => {
                proof {
                    let (s, i) = choose|s: int, i: int| first_over(opts, sources, s, i);
                    lemma_first_over_unique(opts, sources, src as int, idx as int, s, i);
                    assert(sources.take(src as int) == sources_view(inputs@).take(src as int));
                    assert(ceiling_stop(opts, sources) == Some((src as int, idx as int)));
                    assert(sources[src as int] == inputs@[src as int]@);
                }
                let ghost whole = joined(sources.take(src as int));
                let ghost part = sources[src as int].take(idx as int);
                let before = io_readers_upto(inputs, src, init, &func);
                match before {
                    Ok((acc, true)) => {
                        let ghost mid = acc;
                        let out = run_reader_upto(&inputs[src], idx, acc, &func);
                        proof {
                            lemma_drives_on(rel, whole, part, init, mid, out);
                        }
                        let r = match out {
                            Ok((last, true)) => Ok((last, Some(e))),
                            Ok((last, false)) => Ok((last, None)),
                            Err(failed) => Err(failed),
                        };
                        assert(drives(rel, held_records(opts, sources), init, out)
                            && kept_outcome(opts, sources, out, r));
                        r
                    },
                    other => {
                        proof {
                            lemma_drives_halted(rel, whole, part, init, other);
                        }
                        let r = match other {
                            Ok((last, _)) => Ok((last, None)),
                            Err(failed) => Err(failed),
                        };
                        assert(drives(rel, held_records(opts, sources), init, other)
                            && kept_outcome(opts, sources, other, r));
                        r
                    },
                }
            },
        }
    }

    /// The sequential driver over all sources. The guard is asked first.
    /// Then the records of the sources are passed to `func` in the order of
    /// the sources, each source to its end before the next begins, until
    /// `func` asks to stop or fails, or the next record is above the ceiling
    /// of its source: such a record is not passed to `func`, and the run
    /// fails with an error that names the source, the record's size and the
    /// ceiling. `inputs` holds the records of each source, one entry for each
    /// configured source.
    pub fn read_sequential<R: Record, A, F>(&mut self, inputs: &Vec<Vec<R>>, init: A, func: F) -> (r:
        Result<A, CliError>) where F: Fn(&R, A) -> StepResult<A>
        requires
            forall|r: &R, a: A| func.requires((r, a)),
        ensures
            old(self).becomes_started(final(self)),
            !old(self).admits() ==> (r matches Err(e) && is_repetition(e)),
            old(self).admits() && inputs@.len() != old(self).spec_input_opts().len() ==> (
            r matches Err(e) && is_mismatch(e)),
            old(self).admits() && inputs@.len() == old(self).spec_input_opts().len()
                ==> exists|out: StepResult<A>| #[trigger]
                drives(
                    step_rel(func),
                    held_records(old(self).spec_input_opts(), sources_view(inputs@)),
                    init,
                    out,
                ) && held_outcome(old(self).spec_input_opts(), sources_view(inputs@), out, r),
    {
        let r = self.read_sequential_kept(inputs, init, func);
        proof {
            if old(self).admits() && inputs@.len() == old(self).spec_input_opts().len() {
                let opts = old(self).spec_input_opts();
                let out = choose|out: StepResult<A>| #[trigger]
                    drives(step_rel(func), held_records(opts, sources_view(inputs@)), init, out)
                        && kept_outcome(opts, sources_view(inputs@), out, r);
                assert(drives(step_rel(func), held_records(opts, sources_view(inputs@)), init, out)
                    && held_outcome(opts, sources_view(inputs@), out, match r {
                    Ok((last, None)) => Ok(last),
                    Ok((_, Some(e))) => Err(e),
                    Err(e) => Err(e),
                }));
            }
        }
        match r {
            Ok((last, None)) => Ok(last),
            Ok((_, Some(e))) => Err(e),
            Err(e) => Err(e),
        }
    }

    /// Asks the guard, and checks that the records are given source by
    /// source as the configuration has them.
    fn begin_scan<R>(&mut self, inputs: &Vec<Vec<R>>) -> (r: Result<(), CliError>)
        ensures
            old(self).becomes_started(final(self)),
            match r {
                Ok(_) => old(self).admits() && inputs@.len() == old(self).spec_input_opts().len(),
                Err(e) => if old(self).admits() {
                    inputs@.len() != old(self).spec_input_opts().len() && is_mismatch(e)
                } else {
                    is_repetition(e)
                },
            },
    {
        match self.check_repetition() {
            Err(e) => {
                return Err(e);
            },
            Ok(_) => {},
        }
        if inputs.len() != self.input_opts.len() {
            return Err(CliError::other("The number of inputs differs from the number of sources"));
        }
        Ok(())
    }

    /// A scan of all sources that passes each record to `func` together
    /// with the number of its source. The guard is asked first. The sources
    /// are taken in their order, each to its end before the next begins,
    /// until `func` fails or the next record is above the ceiling of its
    /// source, which is an error that names the source, the record's size
    /// and the ceiling. `inputs` holds the records of each source, one entry
    /// for each configured source.
    pub fn all_readers<R: Record, A, F>(&mut self, inputs: &Vec<Vec<R>>, init: A, func: F) -> (r:
        Result<A, CliError>) where F: Fn(usize, &R, A) -> Result<A, CliError>
        requires
            forall|i: usize, rec: &R, acc: A| func.requires((i, rec, acc)),
        ensures
            old(self).becomes_started(final(self)),
            !old(self).admits() ==> (r matches Err(e) && is_repetition(e)),
            old(self).admits() && inputs@.len() != old(self).spec_input_opts().len() ==> (
            r matches Err(e) && is_mismatch(e)),
            old(self).admits() && inputs@.len() == old(self).spec_input_opts().len()
                ==> exists|out: StepResult<A>| #[trigger]
                drives(
                    held_rel(old(self).spec_input_opts(), indexed_rel(func)),
                    items_of(old(self).spec_input_opts(), sources_view(inputs@)),
                    init,
                    out,
                ) && r == finished(out),
    {
        match self.begin_scan(inputs) {
            Err(e) => {
                return Err(e);
            },
            Ok(_) => {},
        }
        let opts = self.input_opts.as_slice();
        let ghost rel = held_rel(opts@, indexed_rel(func));
        let with_index = &func;
        let hook = |i: usize, acc: A| -> (r: Result<A, CliError>)
            ensures
                r == Ok::<A, CliError>(acc),
            { Ok(acc) };
        let run_one = |i: usize, recs: &Vec<R>, acc: A| -> (o: StepResult<A>)
            requires
                i < opts@.len(),
            ensures
                drives(
                    held_rel(opts@, indexed_rel(*with_index)),
                    record_items(i as int, recs@),
                    acc,
                    o,
                ),
            {
                let step = |rec: &R, acc: A| -> (o: StepResult<A>)
                    ensures
                        held_rel(opts@, indexed_rel(*with_index))(Item::Rec(i as int, *rec), acc, o),
                    {
                        match opts[i].fit(rec.raw_len()) {
                            Err(e) => Err(e),
                            Ok(_) => match with_index(i, rec, acc) {
                                Ok(next) => Ok((next, true)),
                                Err(e) => Err(e),
                            },
                        }
                    };
                let o = run_reader(recs, acc, &step);
                proof {
                    lemma_drives_map(
                        step_rel(step),
                        held_rel(opts@, indexed_rel(held(with_index))),
                        recs@,
                        record_items(i as int, recs@),
                        acc,
                        o,
                    );
                }
                o
            };
        let out = over_sources(opts, inputs, init, &hook, &run_one, Ghost(rel));
        match out {
            Ok((last, _)) => Ok(last),
            Err(e) => Err(e),
        }
    }

    /// The sequential driver over all sources, with a variable context that
    /// is told of each source and of each record. The guard is asked first.
    /// At the start of each source `new_input` gets the options of the
    /// source; for each record `set_record` gets the record, then `func`
    /// gets the record and the context. The run ends when `func` asks to
    /// stop, any of the three fails, or the next record is above the ceiling
    /// of its source: such a record is passed to none of them, and the run
    /// fails with the error for it. `inputs` holds the records of each
    /// source, one entry for each configured source.
    pub fn read_sequential_var<R: Record, V, N, S, F>(
        &mut self,
        inputs: &Vec<Vec<R>>,
        vars: V,
        new_input: N,
        set_record: S,
        func: F,
    ) -> (r: Result<V, CliError>) where
        N: Fn(&InputOptions, V) -> Result<V, CliError>,
        S: Fn(&R, V) -> Result<V, CliError>,
        F: Fn(&R, V) -> StepResult<V>,

        requires
            forall|o: &InputOptions, v: V| new_input.requires((o, v)),
            forall|rec: &R, v: V| set_record.requires((rec, v)),
            forall|rec: &R, v: V| func.requires((rec, v)),
        ensures
            old(self).becomes_started(final(self)),
            !old(self).admits() ==> (r matches Err(e) && is_repetition(e)),
            old(self).admits() && inputs@.len() != old(self).spec_input_opts().len() ==> (
            r matches Err(e) && is_mismatch(e)),
            old(self).admits() && inputs@.len() == old(self).spec_input_opts().len()
                ==> exists|out: StepResult<V>| #[trigger]
                drives(
                    held_rel(old(self).spec_input_opts(), var_rel(new_input, set_record, func)),
                    items_of(old(self).spec_input_opts(), sources_view(inputs@)),
                    vars,
                    out,
                ) && r == finished(out),
    {
        match self.begin_scan(inputs) {
            Err(e) => {
                return Err(e);
            },
            Ok(_) => {},
        }
        let opts = self.input_opts.as_slice();
        let ghost rel = held_rel(opts@, var_rel(new_input, set_record, func));
        let prepare = &new_input;
        let set = &set_record;
        let each = &func;
        let hook = |i: usize, acc: V| -> (r: Result<V, CliError>)
            requires
                i < opts@.len(),
            ensures
                prepare.ensures((&opts@[i as int], acc), r),
            { prepare(&opts[i], acc) };
        let run_one = |i: usize, recs: &Vec<R>, acc: V| -> (o: StepResult<V>)
            requires
                i < opts@.len(),
            ensures
                drives(
                    held_rel(opts@, var_rel(*prepare, *set, *each)),
                    record_items(i as int, recs@),
                    acc,
                    o,
                ),
            {
                let step = |rec: &R, acc: V| -> (o: StepResult<V>)
                    ensures
                        held_rel(opts@, var_rel(*prepare, *set, *each))(
                            Item::Rec(i as int, *rec),
                            acc,
                            o,
                        ),
                    {
                        match opts[i].fit(rec.raw_len()) {
                            Err(e) => Err(e),
                            Ok(_) => match set(rec, acc) {
                                Ok(v) => each(rec, v),
                                Err(e) => Err(e),
                            },
                        }
                    };
                let o = run_reader(recs, acc, &step);
                proof {
                    lemma_drives_map(
                        step_rel(step),
                        held_rel(opts@, var_rel(held(prepare), held(set), held(each))),
                        recs@,
                        record_items(i as int, recs@),
                        acc,
                        o,
                    );
                }
                o
            };
        let out = over_sources(opts, inputs, vars, &hook, &run_one, Ghost(rel));
        match out {
            Ok((last, _)) => Ok(last),
            Err(e) => Err(e),
        }
    }

    /// The parallel pipeline over all sources, with an output slot for each
    /// record that `data_init` makes, worker state that `local_init` makes,
    /// and a variable context that is told of each source and of each
    /// record. The guard is asked first, then `local_init` is called. At the
    /// start of each source `new_input` gets the options of the source.
    /// `work` fills the slot of a record from the record and the worker
    /// state. On the calling thread, in the order of the records and
    /// whatever `n_threads` is, `set_record` gets each record and then `func`
    /// the record, its slot and the context. The run ends when `func` asks to
    /// stop, anything fails, or the next record is above the ceiling of its
    /// source: such a record is passed to neither `work` nor `func`, and the
    /// run fails with the error for it. `inputs` holds the records of each
    /// source, one entry for each configured source.
    pub fn var_parallel_init<R: Record, L, D, V, Li, Di, W, N, S, F>(
        &mut self,
        inputs: &Vec<Vec<R>>,
        vars: V,
        n_threads: u32,
        local_init: Li,
        data_init: Di,
        work: W,
        new_input: N,
        set_record: S,
        func: F,
    ) -> (r: Result<V, CliError>) where
        Li: Fn() -> Result<L, CliError>,
        Di: Fn() -> D,
        W: Fn(&R, D, &L) -> Result<D, CliError>,
        N: Fn(&InputOptions, V) -> Result<V, CliError>,
        S: Fn(&R, V) -> Result<V, CliError>,
        F: Fn(&R, D, V) -> StepResult<V>,

        requires
            local_init.requires(()),
            data_init.requires(()),
            forall|rec: &R, d: D, l: &L| work.requires((rec, d, l)),
            forall|o: &InputOptions, v: V| new_input.requires((o, v)),
            forall|rec: &R, v: V| set_record.requires((rec, v)),
            forall|rec: &R, d: D, v: V| func.requires((rec, d, v)),
        ensures
            old(self).becomes_started(final(self)),
            !old(self).admits() ==> (r matches Err(e) && is_repetition(e)),
            old(self).admits() && inputs@.len() != old(self).spec_input_opts().len() ==> (
            r matches Err(e) && is_mismatch(e)),
            old(self).admits() && inputs@.len() == old(self).spec_input_opts().len()
                ==> exists|local: Result<L, CliError>| #[trigger]
                local_init.ensures((), local) && match local {
                    Err(e) => r == Err::<V, CliError>(e),
                    Ok(l) => exists|out: StepResult<V>| #[trigger]
                        drives(
                            held_rel(
                                old(self).spec_input_opts(),
                                var_pipeline_rel(data_init, work, l, new_input, set_record, func),
                            ),
                            items_of(old(self).spec_input_opts(), sources_view(inputs@)),
                            vars,
                            out,
                        ) && r == finished(out),
                },
    {
        match self.begin_scan(inputs) {
            Err(e) => {
                return Err(e);
            },
            Ok(_) => {},
        }
        let local = match local_init() {
            Ok(l) => l,
            Err(e) => {
                return Err(e);
            },
        };
        let opts = self.input_opts.as_slice();
        let ghost rel = held_rel(
            opts@,
            var_pipeline_rel(data_init, work, local, new_input, set_record, func),
        );
        let state = &local;
        let slots = &data_init;
        let fill = &work;
        let prepare = &new_input;
        let set = &set_record;
        let each = &func;
        let hook = |i: usize, acc: V| -> (r: Result<V, CliError>)
            requires
                i < opts@.len(),
            ensures
                prepare.ensures((&opts@[i as int], acc), r),
            { prepare(&opts[i], acc) };
        let finalize = |rec: &R, slot: D, acc: V| -> (o: StepResult<V>)
            ensures
                var_finalized(*set, *each, *rec, slot, acc, o),
            {
                match set(rec, acc) {
                    Ok(v) => each(rec, slot, v),
                    Err(e) => Err(e),
                }
            };
        let run_one = |i: usize, recs: &Vec<R>, acc: V| -> (o: StepResult<V>)
            requires
                i < opts@.len(),
            ensures
                drives(
                    held_rel(
                        opts@,
                        var_pipeline_rel(*slots, *fill, *state, *prepare, *set, *each),
                    ),
                    record_items(i as int, recs@),
                    acc,
                    o,
                ),
            {
                let within = |rec: &R, slot: D, l: &L| -> (res: Result<D, CliError>)
                    ensures
                        if rec.raw_size() > opts@[i as int].max_mem {
                            res is Err && over_for(opts@[i as int], *rec, res->Err_0)
                        } else {
                            fill.ensures((rec, slot, l), res)
                        },
                    {
                        match opts[i].fit(rec.raw_len()) {
                            Err(e) => Err(e),
                            Ok(_) => fill(rec, slot, l),
                        }
                    };
                let o = read_parallel(recs, n_threads, state, slots, &within, &finalize, acc);
                proof {
                    let narrow = pipeline_rel(held(slots), within, finalize, held(state));
                    let wide = held_rel(
                        opts@,
                        var_pipeline_rel(
                            held(slots),
                            held(fill),
                            held(state),
                            held(prepare),
                            held(set),
                            held(each),
                        ),
                    );
                    let items = record_items(i as int, recs@);
                    assert forall|k: int, a: V, out: StepResult<V>|
                        0 <= k < recs@.len() && #[trigger] narrow(recs@[k], a, out) implies wide(
                        items[k],
                        a,
                        out,
                    ) by {
                        let rec = recs@[k];
                        let res = choose|res: Result<D, CliError>| #[trigger]
                            worked(held(slots), within, held(state), rec, res) && finalized_as(
                                finalize,
                                rec,
                                res,
                                a,
                                out,
                            );
                        let slot = choose|slot: D| #[trigger]
                            held(slots).ensures((), slot) && within.ensures(
                                (&rec, slot, &held(state)),
                                res,
                            );
                        if rec.raw_size() <= opts@[i as int].max_mem {
                            assert(held(fill).ensures((&rec, slot, &held(state)), res));
                            assert(worked(held(slots), held(fill), held(state), rec, res));
                        }
                    }
                    lemma_drives_map(
                        narrow,
                        wide,
                        recs@,
                        record_items(i as int, recs@),
                        acc,
                        o,
                    );
                }
                o
            };
        let out = over_sources(opts, inputs, vars, &hook, &run_one, Ghost(rel));
        match out {
            Ok((last, _)) => Ok(last),
            Err(e) => Err(e),
        }
    }
}

impl Config {
    /// The parallel pipeline over all sources, with output slots that start
    /// at their type's default and with a variable context that is told of
    /// each record. The guard is asked first. `work` fills the slot of a
    /// record. On the calling thread, in the order of the records and
    /// whatever `n_threads` is, `set_record` gets each record and then `func`
    /// the record, its slot and the context. The run ends when `func` asks to
    /// stop, anything fails, or the next record is above the ceiling of its
    /// source. `inputs` holds the records of each source, one entry for each
    /// configured source.
    pub fn var_parallel<R: Record, D, V, W, S, F>(
        &mut self,
        inputs: &Vec<Vec<R>>,
        vars: V,
        n_threads: u32,
        work: W,
        set_record: S,
        func: F,
    ) -> (r: Result<V, CliError>) where
        D: Default,
        W: Fn(&R, D) -> Result<D, CliError>,
        S: Fn(&R, V) -> Result<V, CliError>,
        F: Fn(&R, D, V) -> StepResult<V>,

        requires
            call_requires(D::default, ()),
            forall|rec: &R, d: D| work.requires((rec, d)),
            forall|rec: &R, v: V| set_record.requires((rec, v)),
            forall|rec: &R, d: D, v: V| func.requires((rec, d, v)),
        ensures
            old(self).becomes_started(final(self)),
            !old(self).admits() ==> (r matches Err(e) && is_repetition(e)),
            old(self).admits() && inputs@.len() != old(self).spec_input_opts().len() ==> (
            r matches Err(e) && is_mismatch(e)),
            old(self).admits() && inputs@.len() == old(self).spec_input_opts().len()
                ==> exists|out: StepResult<V>| #[trigger]
                drives(
                    held_rel(old(self).spec_input_opts(), default_var_rel(work, set_record, func)),
                    items_of(old(self).spec_input_opts(), sources_view(inputs@)),
                    vars,
                    out,
                ) && r == finished(out),
    {
        let no_state = || -> (l: Result<(), CliError>)
            ensures
                l == Ok::<(), CliError>(()),
            { Ok(()) };
        let data_init = || -> (slot: D)
            requires
                call_requires(D::default, ()),
            ensures
                call_ensures(D::default, (), slot),
            { D::default() };
        let plain = &work;
        let with_state = |rec: &R, slot: D, local: &()| -> (res: Result<D, CliError>)
            requires
                plain.requires((rec, slot)),
            ensures
                plain.ensures((rec, slot), res),
            { plain(rec, slot) };
        let same = |o: &InputOptions, v: V| -> (r: Result<V, CliError>)
            ensures
                r == Ok::<V, CliError>(v),
            { Ok(v) };
        let set = &set_record;
        let set_it = |rec: &R, v: V| -> (r: Result<V, CliError>)
            requires
                set.requires((rec, v)),
            ensures
                set.ensures((rec, v), r),
            { set(rec, v) };
        let each = &func;
        let each_it = |rec: &R, slot: D, v: V| -> (o: StepResult<V>)
            requires
                each.requires((rec, slot, v)),
            ensures
                each.ensures((rec, slot, v), o),
            { each(rec, slot, v) };
        let r = self.var_parallel_init(
            inputs,
            vars,
            n_threads,
            no_state,
            data_init,
            with_state,
            same,
            set_it,
            each_it,
        );
        proof {
            if old(self).admits() && inputs@.len() == old(self).spec_input_opts().len() {
                let opts = old(self).spec_input_opts();
                let rel = var_pipeline_rel(data_init, with_state, (), same, set_it, each_it);
                let wider = default_var_rel(work, set_record, func);
                let items = items_of(old(self).spec_input_opts(), sources_view(inputs@));
                let out = choose|out: StepResult<V>| #[trigger]
                    drives(held_rel(opts, rel), items, vars, out) && r == finished(out);
                assert forall|item: Item<R>, acc: V, o: StepResult<V>| #[trigger]
                    rel(item, acc, o) implies wider(item, acc, o) by {
                    match item {
                        Item::Start(_, _) => {},
                        Item::Rec(_, rec) => {
                            let res = choose|res: Result<D, CliError>| #[trigger]
                                worked(data_init, with_state, (), rec, res) && match res {
                                    Ok(slot) => var_finalized(set_it, each_it, rec, slot, acc, o),
                                    Err(e) => o == Err::<(V, bool), CliError>(e),
                                };
                            let slot = choose|slot: D| #[trigger]
                                data_init.ensures((), slot) && with_state.ensures(
                                    (&rec, slot, &()),
                                    res,
                                );
                            assert(work.ensures((&rec, slot), res));
                            if let Ok(filled) = res {
                                let set_result = choose|sr: Result<V, CliError>| #[trigger]
                                    set_it.ensures((&rec, acc), sr) && match sr {
                                        Ok(v) => each_it.ensures((&rec, filled, v), o),
                                        Err(e) => o == Err::<(V, bool), CliError>(e),
                                    };
                                assert(set_record.ensures((&rec, acc), set_result));
                            }
                        },
                    }
                }
                assert forall|item: Item<R>, acc: V, o: StepResult<V>| #[trigger]
                    held_rel(opts, rel)(item, acc, o) implies held_rel(opts, wider)(item, acc, o) by {
                    if rel(item, acc, o) {
                        assert(wider(item, acc, o));
                    }
                }
                lemma_drives_weaken(held_rel(opts, rel), held_rel(opts, wider), items, vars, out);
            }
        }
        r
    }
}

impl Config {
    /// The parallel pipeline over all sources, with output slots that start
    /// at their type's default. The guard is asked first. `work` fills the
    /// slot of a record; `func` gets the records with their slots in the
    /// order of the sources and of the records within each, whatever
    /// `n_threads` is, until it asks to stop, it or the work on the next
    /// record fails, or the next record is above the ceiling of its source.
    /// `inputs` holds the records of each source, one entry for each
    /// configured source.
    pub fn parallel<R: Record, D, A, W, F>(
        &mut self,
        inputs: &Vec<Vec<R>>,
        n_threads: u32,
        work: W,
        func: F,
        init: A,
    ) -> (r: Result<A, CliError>) where
        D: Default,
        W: Fn(&R, D) -> Result<D, CliError>,
        F: Fn(&R, D, A) -> StepResult<A>,

        requires
            call_requires(D::default, ()),
            forall|r: &R, d: D| work.requires((r, d)),
            forall|r: &R, d: D, a: A| func.requires((r, d, a)),
        ensures
            old(self).becomes_started(final(self)),
            !old(self).admits() ==> (r matches Err(e) && is_repetition(e)),
            old(self).admits() && inputs@.len() != old(self).spec_input_opts().len() ==> (
            r matches Err(e) && is_mismatch(e)),
            old(self).admits() && inputs@.len() == old(self).spec_input_opts().len()
                ==> exists|out: StepResult<A>| #[trigger]
                drives(
                    held_rel(old(self).spec_input_opts(), record_rel(default_rel(work, func))),
                    items_of(old(self).spec_input_opts(), sources_view(inputs@)),
                    init,
                    out,
                ) && r == finished(out),
    {
        let plain = &work;
        let work_it = |rec: &R, slot: D| -> (res: Result<D, CliError>)
            requires
                plain.requires((rec, slot)),
            ensures
                plain.ensures((rec, slot), res),
            { plain(rec, slot) };
        let keep = |rec: &R, acc: A| -> (r: Result<A, CliError>)
            ensures
                r == Ok::<A, CliError>(acc),
            { Ok(acc) };
        let each = &func;
        let each_it = |rec: &R, slot: D, acc: A| -> (o: StepResult<A>)
            requires
                each.requires((rec, slot, acc)),
            ensures
                each.ensures((rec, slot, acc), o),
            { each(rec, slot, acc) };
        let r = self.var_parallel(inputs, init, n_threads, work_it, keep, each_it);
        proof {
            if old(self).admits() && inputs@.len() == old(self).spec_input_opts().len() {
                let opts = old(self).spec_input_opts();
                let rel = default_var_rel(work_it, keep, each_it);
                let wider = record_rel(default_rel(work, func));
                let items = items_of(opts, sources_view(inputs@));
                let out = choose|out: StepResult<A>| #[trigger]
                    drives(held_rel(opts, rel), items, init, out) && r == finished(out);
                assert forall|item: Item<R>, acc: A, o: StepResult<A>| #[trigger]
                    rel(item, acc, o) implies wider(item, acc, o) by {
                    match item {
                        Item::Start(_, _) => {},
                        Item::Rec(_, rec) => {
                            let (slot, res) = choose|slot: D, res: Result<D, CliError>|
                                call_ensures(D::default, (), slot) && #[trigger] work_it.ensures(
                                    (&rec, slot),
                                    res,
                                ) && match res {
                                    Ok(filled) => var_finalized(keep, each_it, rec, filled, acc, o),
                                    Err(e) => o == Err::<(A, bool), CliError>(e),
                                };
                            assert(work.ensures((&rec, slot), res));
                            if let Ok(filled) = res {
                                let kept = choose|kept: Result<A, CliError>| #[trigger]
                                    keep.ensures((&rec, acc), kept) && match kept {
                                        Ok(v) => each_it.ensures((&rec, filled, v), o),
                                        Err(e) => o == Err::<(A, bool), CliError>(e),
                                    };
                                assert(kept == Ok::<A, CliError>(acc));
                                assert(func.ensures((&rec, filled, acc), o));
                            }
                            assert(finalized_as(func, rec, res, acc, o));
                        },
                    }
                }
                assert forall|item: Item<R>, acc: A, o: StepResult<A>| #[trigger]
                    held_rel(opts, rel)(item, acc, o) implies held_rel(opts, wider)(item, acc, o) by {
                    if rel(item, acc, o) {
                        assert(wider(item, acc, o));
                    }
                }
                lemma_drives_weaken(held_rel(opts, rel), held_rel(opts, wider), items, init, out);
            }
        }
        r
    }
}

/// The memory ceiling: where a record is above the ceiling of its source and
/// the step asks to go on for every record, a sequential run fails with the
/// error for the first such record, which names the source, the record's
/// size and the ceiling. The step got the records before it and no other.
pub proof fn law_ceiling_is_fatal<R: Record, A>(
    opts: Seq<InputOptions>,
    sources: Seq<Seq<R>>,
    rel: spec_fn(R, A, StepResult<A>) -> bool,
    init: A,
    out: StepResult<A>,
    r: Result<A, CliError>,
    src: int,
    idx: int,
)
    requires
        first_over(opts, sources, src, idx),
        forall|rec: R, acc: A, o: StepResult<A>| #[trigger] rel(rec, acc, o) ==> o matches Ok((_, true)),
        drives(rel, held_records(opts, sources), init, out),
        held_outcome(opts, sources, out, r),
    ensures
        held_records(opts, sources) == joined(sources.take(src)) + sources[src].take(idx),
        r matches Err(e) && is_over_ceiling(opts, sources, src, idx, e),
{
    let (s, i) = choose|s: int, i: int| first_over(opts, sources, s, i);
    lemma_first_over_unique(opts, sources, src, idx, s, i);
    let held = held_records(opts, sources);
    let t = choose|t: Seq<A>| #[trigger] is_trace(rel, held, init, t) && ends_with(rel, held, t, out);
    if t.len() - 1 < held.len() {
        assert(rel(held[t.len() - 1], t[t.len() - 1], out));
    }
}

/// Whether an item is no record above the ceiling of its source.
spec fn within<R: Record>(opts: Seq<InputOptions>, item: Item<R>) -> bool {
    match item {
        Item::Rec(i, rec) => !(0 <= i < opts.len() && rec.raw_size() > opts[i].max_mem),
        Item::Start(_, _) => true,
    }
}

/// What a run meets in the first `n` sources begins what it meets in all.
proof fn lemma_items_begin<R>(opts: Seq<InputOptions>, sources: Seq<Seq<R>>, n: int)
    requires
        0 <= n <= sources.len(),
    ensures
        items_of(opts, sources.take(n)).is_prefix_of(items_of(opts, sources)),
    decreases sources.len(),
{
    if n == sources.len() {
        assert(sources.take(n) == sources);
    } else {
        lemma_items_begin(opts, sources.drop_last(), n);
        assert(sources.drop_last().take(n) == sources.take(n));
    }
}

/// Where the first `n` sources hold no record above its ceiling, neither
/// does what a run meets in them.
proof fn lemma_items_within<R: Record>(opts: Seq<InputOptions>, sources: Seq<Seq<R>>, n: int, j: int)
    requires
        0 <= n <= sources.len(),
        forall|i: int| 0 <= i < n ==> fits_all(opts[i].max_mem, #[trigger] sources[i]),
        0 <= j < items_of(opts, sources.take(n)).len(),
    ensures
        items_of(opts, sources.take(n))[j] matches Item::Rec(i, rec) ==> 0 <= i < n && rec.raw_size()
            <= opts[i].max_mem,
    decreases n,
{
    let upto = sources.take(n);
    if n > 0 {
        assert(upto.drop_last() == sources.take(n - 1));
        let before = items_of(opts, sources.take(n - 1));
        if j < before.len() {
            lemma_items_within(opts, sources, n - 1, j);
        } else if j > before.len() {
            assert(fits_all(opts[n - 1].max_mem, sources[n - 1]));
            assert(items_of(opts, upto)[j] == Item::Rec(n - 1, sources[n - 1][j - before.len() - 1]));
        }
    }
}

/// The memory ceiling in a run over the sources and their records: where a
/// record is above the ceiling of its source and every step asks to go on,
/// a run that is held to the ceilings fails with the error for the first
/// such record, which names the source, the record's size and the ceiling.
/// Neither that record nor one after it is passed to a step.
pub proof fn law_ceiling_ends_the_run<R: Record, A>(
    opts: Seq<InputOptions>,
    sources: Seq<Seq<R>>,
    rel: spec_fn(Item<R>, A, StepResult<A>) -> bool,
    init: A,
    out: StepResult<A>,
    src: int,
    idx: int,
)
    requires
        opts.len() == sources.len(),
        first_over(opts, sources, src, idx),
        forall|item: Item<R>, acc: A, o: StepResult<A>| #[trigger]
            rel(item, acc, o) ==> o matches Ok((_, true)),
        drives(held_rel(opts, rel), items_of(opts, sources), init, out),
    ensures
        out matches Err(e) && over_for(opts[src], sources[src][idx], e),
{
    let items = items_of(opts, sources);
    let held = held_rel(opts, rel);
    let before = items_of(opts, sources.take(src));
    let upto = items_of(opts, sources.take(src + 1));
    let at = before.len() + 1 + idx;
    lemma_items_begin(opts, sources, src + 1);
    assert(sources.take(src + 1).drop_last() == sources.take(src));
    assert(upto == before + seq![Item::Start(src, opts[src])] + record_items(src, sources[src]));
    assert(sources.take(src + 1).last() == sources[src]);
    assert(upto[at] == record_items(src, sources[src])[idx]);
    assert(items[at] == upto[at]);
    assert forall|j: int| 0 <= j < at implies within(opts, #[trigger] items[j]) by {
        assert(items[j] == upto[j]);
        if j < before.len() {
            lemma_items_within(opts, sources, src, j);
        } else if j > before.len() {
            assert(upto[j] == Item::Rec(src, sources[src][j - before.len() - 1]));
        }
    }
    let t = choose|t: Seq<A>| #[trigger] is_trace(held, items, init, t) && ends_with(held, items, t, out);
    let k = t.len() - 1;
    if k > at {
        assert(linked(held, items, t, at));
    } else if k < at {
        assert(within(opts, items[k]));
        assert(rel(items[k], t[k], out));
    }
}

/// The guard against a second read: after a full read was attempted, a
/// configuration with the console among its sources admits no further full
/// read, and one without it admits every further one.
pub proof fn law_second_read(before: &Config, after: &Config)
    requires
        before.becomes_started(after),
    ensures
        after.admits() <==> !before.spec_has_stdin(),
        after.becomes_started(after),
{
}

} // verus!
