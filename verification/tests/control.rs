use seqtool::control::{Action, Control, Happened, Outcome, Stage};
use seqtool::error::CliError;

/// A run over the numbers below `n` with workers that report in an order of
/// their own: `pick` chooses which of the waiting reports comes next. The
/// work on a record gives ten times the record, or fails where `fail_at`
/// says; `finalize` collects and stops after `stop_after`.
struct Harness {
    n: u32,
    fail_at: Option<u32>,
    source_fails_at: Option<u32>,
    stop_after: Option<u32>,
    finalize_fails_at: Option<u32>,
}

struct Trace {
    finalized: Vec<(u64, u32)>,
    max_in_flight: u64,
    read: u32,
    outcome: Outcome,
    busy_at_end: usize,
}

impl Harness {
    fn new(n: u32) -> Harness {
        Harness { n, fail_at: None, source_fails_at: None, stop_after: None, finalize_fails_at: None }
    }

    fn run(&self, n_threads: u32, pick: impl Fn(usize, usize) -> usize) -> Trace {
        let mut control: Control<u32> = Control::new(n_threads);
        let mut busy: Vec<(u64, u32)> = Vec::new();
        let mut trace =
            Trace { finalized: Vec::new(), max_in_flight: 0, read: 0, outcome: Outcome::Misused, busy_at_end: 0 };
        let mut steps = 0;
        let mut action = control.step(Happened::Started);
        loop {
            steps += 1;
            trace.max_in_flight = trace.max_in_flight.max(control.in_flight());
            action = match action {
                Action::Read(seq) => {
                    if Some(trace.read) == self.source_fails_at {
                        control.step(Happened::SourceFailed(CliError::other("source failed")))
                    } else if trace.read == self.n {
                        control.step(Happened::SourceEnded)
                    } else {
                        assert_eq!(seq, trace.read as u64);
                        busy.push((seq, trace.read));
                        trace.read += 1;
                        control.step(Happened::Dispatched)
                    }
                }
                Action::Await => {
                    assert!(!busy.is_empty(), "waiting for a worker while none is busy");
                    let (seq, rec) = busy.remove(pick(steps, busy.len()));
                    let res = if Some(rec) == self.fail_at {
                        Err(CliError::other("work failed"))
                    } else {
                        Ok(rec * 10)
                    };
                    control.step(Happened::WorkerDone(seq, res))
                }
                Action::Finalize(seq, item) => {
                    trace.finalized.push((seq, item));
                    let verdict = if Some(seq as u32) == self.finalize_fails_at {
                        Err(CliError::other("finalize failed"))
                    } else {
                        Ok(Some(seq as u32) != self.stop_after)
                    };
                    control.step(Happened::Finalized(verdict))
                }
                Action::Finish(outcome) => {
                    trace.outcome = outcome;
                    trace.busy_at_end = busy.len();
                    return trace;
                }
            };
        }
    }
}

fn in_order(n: u64) -> Vec<(u64, u32)> {
    (0..n).map(|i| (i, i as u32 * 10)).collect()
}

fn last(_: usize, waiting: usize) -> usize {
    waiting - 1
}

fn first(_: usize, _: usize) -> usize {
    0
}

fn scattered(step: usize, waiting: usize) -> usize {
    (step * 7 + 3) % waiting
}

#[test]
fn run_completes_in_order_whatever_the_workers_do() {
    for n_threads in [1, 2, 8] {
        for pick in [first as fn(usize, usize) -> usize, last, scattered] {
            let t = Harness::new(100).run(n_threads, pick);
            assert!(matches!(t.outcome, Outcome::Completed));
            assert_eq!(t.finalized, in_order(100));
            assert_eq!(t.max_in_flight, 2 * n_threads as u64);
            assert_eq!(t.busy_at_end, 0);
        }
    }
}

#[test]
fn empty_source_completes_at_once() {
    let t = Harness::new(0).run(4, first);
    assert!(matches!(t.outcome, Outcome::Completed));
    assert!(t.finalized.is_empty());
    assert_eq!(t.read, 0);
}

#[test]
fn stop_waits_for_the_busy_workers() {
    let mut h = Harness::new(100);
    h.stop_after = Some(10);
    for pick in [first as fn(usize, usize) -> usize, last, scattered] {
        let t = h.run(4, pick);
        assert!(matches!(t.outcome, Outcome::Stopped));
        assert_eq!(t.finalized, in_order(11));
        assert_eq!(t.busy_at_end, 0);
        assert!(t.read <= 11 + 8);
    }
}

#[test]
fn work_failure_ends_the_run_in_its_turn() {
    let mut h = Harness::new(50);
    h.fail_at = Some(20);
    for pick in [first as fn(usize, usize) -> usize, last, scattered] {
        let t = h.run(3, pick);
        assert!(matches!(&t.outcome, Outcome::Failed(Stage::Process, e) if e.message() == "work failed"));
        assert_eq!(t.finalized, in_order(20));
        assert_eq!(t.busy_at_end, 0);
    }
}

#[test]
fn finalize_failure_ends_the_run() {
    let mut h = Harness::new(50);
    h.finalize_fails_at = Some(5);
    h.fail_at = Some(7);
    let t = h.run(4, last);
    assert!(matches!(&t.outcome, Outcome::Failed(Stage::Write, e) if e.message() == "finalize failed"));
    assert_eq!(t.finalized, in_order(6));
    assert_eq!(t.busy_at_end, 0);
}

#[test]
fn source_failure_comes_after_the_records_before_it() {
    let mut h = Harness::new(50);
    h.source_fails_at = Some(30);
    for pick in [first as fn(usize, usize) -> usize, last, scattered] {
        let t = h.run(4, pick);
        assert!(matches!(&t.outcome, Outcome::Failed(Stage::Read, e) if e.message() == "source failed"));
        assert_eq!(t.finalized, in_order(30));
        assert_eq!(t.busy_at_end, 0);
    }
}

#[test]
fn earlier_work_failure_wins_over_source_failure() {
    let mut h = Harness::new(50);
    h.fail_at = Some(28);
    h.source_fails_at = Some(30);
    let t = h.run(4, last);
    assert!(matches!(&t.outcome, Outcome::Failed(Stage::Process, e) if e.message() == "work failed"));
    assert_eq!(t.finalized, in_order(28));
}

#[test]
fn telling_the_unexpected_ends_the_run() {
    let mut c: Control<u8> = Control::new(1);
    assert!(matches!(c.step(Happened::Dispatched), Action::Finish(Outcome::Misused)));
    assert!(matches!(c.step(Happened::Started), Action::Finish(Outcome::Misused)));
    let mut c: Control<u8> = Control::new(1);
    assert!(matches!(c.step(Happened::Started), Action::Read(0)));
    assert!(matches!(c.step(Happened::Dispatched), Action::Read(1)));
    assert!(matches!(c.step(Happened::Dispatched), Action::Await));
    assert!(matches!(c.step(Happened::Finalized(Ok(true))), Action::Finish(Outcome::Misused)));
}

#[test]
fn going_on_after_the_end_is_refused() {
    let mut c: Control<u8> = Control::new(1);
    assert!(matches!(c.step(Happened::Started), Action::Read(0)));
    assert!(matches!(c.step(Happened::SourceEnded), Action::Finish(Outcome::Completed)));
    assert!(matches!(c.step(Happened::Started), Action::Finish(Outcome::Misused)));
    assert!(matches!(c.step(Happened::SourceEnded), Action::Finish(Outcome::Misused)));
}

#[test]
fn steps_of_a_small_run() {
    let mut c: Control<&str> = Control::new(1);
    assert!(matches!(c.step(Happened::Started), Action::Read(0)));
    assert!(matches!(c.step(Happened::Dispatched), Action::Read(1)));
    assert!(matches!(c.step(Happened::Dispatched), Action::Await));
    assert_eq!(c.in_flight(), 2);
    assert!(matches!(c.step(Happened::WorkerDone(1, Ok("b"))), Action::Await));
    assert!(matches!(c.step(Happened::WorkerDone(0, Ok("a"))), Action::Finalize(0, "a")));
    assert!(matches!(c.step(Happened::Finalized(Ok(true))), Action::Finalize(1, "b")));
    assert!(matches!(c.step(Happened::Finalized(Ok(true))), Action::Read(2)));
    assert!(matches!(c.step(Happened::SourceEnded), Action::Finish(Outcome::Completed)));
}

#[test]
fn outcome_names_the_stage_of_a_failure() {
    assert_eq!(Outcome::Completed.into_result().unwrap(), true);
    assert_eq!(Outcome::Stopped.into_result().unwrap(), false);
    let read = Outcome::Failed(Stage::Read, CliError::other("truncated record"));
    assert_eq!(read.into_result().unwrap_err().message(), "Reading failed: truncated record");
    let process = Outcome::Failed(Stage::Process, CliError::other("bad base"));
    assert_eq!(process.into_result().unwrap_err().message(), "Processing failed: bad base");
    let write = Outcome::Failed(Stage::Write, CliError::other("disk full"));
    assert_eq!(write.into_result().unwrap_err().message(), "Writing failed: disk full");
    assert_eq!(Outcome::Exhausted.into_result().unwrap_err().message(), "Too many sequences");
    assert_eq!(
        Outcome::Misused.into_result().unwrap_err().message(),
        "The run was not driven as its control asked"
    );
    assert_eq!((Stage::Read.name(), Stage::Process.name(), Stage::Write.name()), (
        "Reading failed",
        "Processing failed",
        "Writing failed"
    ));
}

#[test]
fn error_within_a_context() {
    let e = CliError::other("no such file").within("Reading failed");
    assert_eq!(e.message(), "Reading failed: no such file");
    let io = CliError::from(std::io::Error::new(std::io::ErrorKind::Other, "broken pipe"));
    assert_eq!(io.message(), "broken pipe");
    assert_eq!(io.within("Writing failed").message(), "Writing failed: broken pipe");
    assert_eq!(CliError::from("text").message(), "text");
    assert_eq!(CliError::from("text".to_string()).message(), "text");
    assert_eq!(CliError::other("x").description(), "seqtool commandline error");
}

#[test]
fn source_failure_with_a_full_window_is_a_failure_of_reading() {
    // the failure of the source takes the number of the record that was due
    let mut c: Control<u8> = Control::new(1);
    assert!(matches!(c.step(Happened::Started), Action::Read(0)));
    assert!(matches!(c.step(Happened::Dispatched), Action::Read(1)));
    assert!(matches!(c.step(Happened::SourceFailed(CliError::other("gone"))), Action::Await));
    assert!(matches!(c.step(Happened::WorkerDone(0, Ok(1))), Action::Finalize(0, 1)));
    match c.step(Happened::Finalized(Ok(true))) {
        Action::Finish(Outcome::Failed(Stage::Read, e)) => assert_eq!(e.message(), "gone"),
        _ => panic!("the failure of the source was due"),
    }
}

#[test]
fn other_errors_become_errors_with_their_text() {
    let e = CliError::from("x1".parse::<u32>().unwrap_err());
    assert!(matches!(&e, CliError::Other(m) if m == "invalid digit found in string"));
    let e = CliError::from("1.x".parse::<f64>().unwrap_err());
    assert_eq!(e.message(), "invalid float literal");
    let e = CliError::from(std::str::from_utf8(&[0xff]).unwrap_err());
    assert!(e.message().starts_with("invalid utf-8"));
    let e = CliError::from(String::from_utf8(vec![0xff]).unwrap_err());
    assert!(e.message().starts_with("invalid utf-8"));
    let e = CliError::from(std::fmt::Error);
    assert!(matches!(e, CliError::Other(_)));
    let e = CliError::from(regex::Regex::new("(").unwrap_err());
    assert!(e.message().contains("unclosed group"));
    let e = CliError::from(seq_io::fastq::Error::BufferLimit);
    assert_eq!(e.message(), "FASTQ parse error: Buffer limit reached.");
    let e = CliError::from(seq_io::fasta::Error::BufferLimit);
    assert!(matches!(e, CliError::Other(_)));
    let e = CliError::from(csv::Error::from(std::io::Error::new(std::io::ErrorKind::Other, "csv io")));
    assert!(matches!(&e, CliError::Other(m) if m.contains("csv io")));
    let e = CliError::from(meval::eval_str("1 +").unwrap_err());
    assert!(matches!(e, CliError::Other(_)));
    let e = CliError::from(docopt::Docopt::new("not a usage").unwrap_err());
    assert!(matches!(e, CliError::Other(_)));
    let io = CliError::from(std::io::Error::new(std::io::ErrorKind::NotFound, "gone"));
    assert!(matches!(&io, CliError::Io(e) if e.kind() == std::io::ErrorKind::NotFound));
}
