use std::cell::Cell;

use seqtool::cfg::Config;
use seqtool::error::CliError;
use seqtool::io::fasta::FastaRecord;
use seqtool::io::Record;
use seqtool::io::input::{
    io_readers, read_parallel, read_parallel_all, run_reader, InFormat, InputOptions, InputType,
};
use seqtool::io::output::OutputOptions;
use seqtool::var::VarOpts;

fn file_source(path: &str) -> InputOptions {
    InputOptions {
        kind: InputType::File(path.to_string()),
        format: InFormat::FASTQ,
        compression: None,
        threaded: false,
        cap: 1 << 16,
        max_mem: 1 << 20,
    }
}

fn files(n: usize) -> Config {
    let opts = (0..n).map(|i| file_source(&format!("in{}.fq", i))).collect();
    Config::from_args(opts, OutputOptions::default(), VarOpts { var_help: false }).unwrap()
}

fn numbers(n: u32) -> Vec<u32> {
    (0..n).collect()
}

#[test]
fn sequential_driver_takes_records_in_order() {
    let recs = numbers(50);
    let out = run_reader(&recs, Vec::new(), &|r: &u32, mut seen: Vec<u32>| {
        seen.push(*r);
        Ok((seen, true))
    })
    .unwrap();
    assert_eq!(out, (numbers(50), true));
}

#[test]
fn sequential_driver_stops_on_false() {
    let recs = numbers(10);
    let out = run_reader(&recs, Vec::new(), &|r: &u32, mut seen: Vec<u32>| {
        seen.push(*r);
        Ok((seen, *r != 3))
    })
    .unwrap();
    assert_eq!(out, (vec![0, 1, 2, 3], false));
}

#[test]
fn sequential_driver_hands_on_the_error() {
    let recs = numbers(10);
    let calls = Cell::new(0);
    let out = run_reader(&recs, 0u32, &|r: &u32, n: u32| {
        calls.set(calls.get() + 1);
        if *r == 4 {
            Err(CliError::other("record 4"))
        } else {
            Ok((n + 1, true))
        }
    });
    assert_eq!(out.unwrap_err().message(), "record 4");
    assert_eq!(calls.get(), 5);
}

#[test]
fn sources_are_read_one_after_the_other() {
    let inputs = vec![vec![1u32, 2], vec![], vec![3], vec![4, 5, 6]];
    let out = io_readers(&inputs, Vec::new(), &|r: &u32, mut seen: Vec<u32>| {
        seen.push(*r);
        Ok((seen, true))
    })
    .unwrap();
    assert_eq!(out, (vec![1, 2, 3, 4, 5, 6], true));
}

#[test]
fn stop_in_one_source_skips_the_later_sources() {
    let inputs = vec![vec![1u32, 2], vec![3, 4], vec![5]];
    let out = io_readers(&inputs, Vec::new(), &|r: &u32, mut seen: Vec<u32>| {
        seen.push(*r);
        Ok((seen, *r != 3))
    })
    .unwrap();
    assert_eq!(out, (vec![1, 2, 3], false));
}

fn parallel_squares(recs: &Vec<u32>, n_threads: u32) -> Vec<(u32, u64)> {
    let out = read_parallel(
        recs,
        n_threads,
        &(),
        &|| 0u64,
        &|r: &u32, _slot: u64, _: &()| Ok((*r as u64) * (*r as u64)),
        &|r: &u32, slot: u64, mut seen: Vec<(u32, u64)>| {
            seen.push((*r, slot));
            Ok((seen, true))
        },
        Vec::new(),
    )
    .unwrap();
    assert!(out.1);
    out.0
}

#[test]
fn parallel_pipeline_finalizes_in_source_order() {
    let recs = numbers(100);
    let expected: Vec<(u32, u64)> = recs.iter().map(|r| (*r, (*r as u64) * (*r as u64))).collect();
    for n_threads in [0, 1, 2, 3, 8, 64] {
        assert_eq!(parallel_squares(&recs, n_threads), expected);
    }
}

#[test]
fn one_worker_and_eight_give_the_same_output() {
    let recs: Vec<Vec<u8>> = (0..37u8).map(|i| vec![i + 65; (i % 5) as usize + 1]).collect();
    let run = |n_threads: u32| {
        read_parallel(
            &recs,
            n_threads,
            &(),
            &|| Vec::<u8>::new(),
            &|r: &Vec<u8>, mut slot: Vec<u8>, _: &()| {
                slot.extend_from_slice(r);
                Ok(slot)
            },
            &|_: &Vec<u8>, slot: Vec<u8>, mut out: Vec<u8>| {
                out.extend_from_slice(&slot);
                out.push(b'\n');
                Ok((out, true))
            },
            Vec::new(),
        )
        .unwrap()
    };
    let one = run(1);
    let eight = run(8);
    assert_eq!(one, eight);
    assert_eq!(one.0.iter().filter(|b| **b == b'\n').count(), 37);
}

#[test]
fn parallel_equals_sequential_with_composed_step() {
    let recs = numbers(77);
    let sequential = run_reader(&recs, 0u64, &|r: &u32, acc: u64| {
        let worked = *r as u64 + 1;
        Ok((acc * 31 % 1000003 + worked, true))
    })
    .unwrap();
    let parallel = read_parallel(
        &recs,
        4,
        &(),
        &|| 0u64,
        &|r: &u32, _: u64, _: &()| Ok(*r as u64 + 1),
        &|_: &u32, worked: u64, acc: u64| Ok((acc * 31 % 1000003 + worked, true)),
        0u64,
    )
    .unwrap();
    assert_eq!(sequential, parallel);
}

#[test]
fn early_stop_finalizes_nothing_after_the_stop() {
    let recs = numbers(100);
    let finalized = Cell::new(0);
    let out = read_parallel(
        &recs,
        4,
        &(),
        &|| (),
        &|_: &u32, _: (), _: &()| Ok(()),
        &|r: &u32, _: (), mut seen: Vec<u32>| {
            finalized.set(finalized.get() + 1);
            seen.push(*r);
            Ok((seen, *r != 17))
        },
        Vec::new(),
    )
    .unwrap();
    assert_eq!(out, (numbers(18), false));
    assert_eq!(finalized.get(), 18);
}

#[test]
fn work_error_comes_after_all_earlier_records() {
    let recs = numbers(40);
    let finalized = Cell::new(Vec::new());
    let out = read_parallel(
        &recs,
        8,
        &(),
        &|| (),
        &|r: &u32, _: (), _: &()| {
            if *r == 23 {
                Err(CliError::other("work failed on 23"))
            } else {
                Ok(())
            }
        },
        &|r: &u32, _: (), n: u32| {
            let mut seen = finalized.take();
            seen.push(*r);
            finalized.set(seen);
            Ok((n + 1, true))
        },
        0u32,
    );
    assert_eq!(out.unwrap_err().message(), "work failed on 23");
    assert_eq!(finalized.take(), numbers(23));
}

#[test]
fn earlier_finalize_error_wins_over_later_work_error() {
    let recs = numbers(10);
    let out = read_parallel(
        &recs,
        8,
        &(),
        &|| (),
        &|r: &u32, _: (), _: &()| {
            if *r == 5 {
                Err(CliError::other("work failed on 5"))
            } else {
                Ok(())
            }
        },
        &|r: &u32, _: (), n: u32| {
            if *r == 3 {
                Err(CliError::other("finalize failed on 3"))
            } else {
                Ok((n + 1, true))
            }
        },
        0u32,
    );
    assert_eq!(out.unwrap_err().message(), "finalize failed on 3");
}

#[test]
fn live_output_slots_stay_within_the_window() {
    let recs = numbers(500);
    for n_threads in [1u32, 2, 5] {
        let live = Cell::new(0i64);
        let high = Cell::new(0i64);
        let made = Cell::new(0u32);
        read_parallel(
            &recs,
            n_threads,
            &(),
            &|| {
                live.set(live.get() + 1);
                high.set(high.get().max(live.get()));
                made.set(made.get() + 1);
                0u8
            },
            &|_: &u32, slot: u8, _: &()| Ok(slot),
            &|_: &u32, _: u8, n: u32| {
                live.set(live.get() - 1);
                Ok((n + 1, true))
            },
            0u32,
        )
        .unwrap();
        assert_eq!(made.get(), 500);
        assert_eq!(live.get(), 0);
        assert!(high.get() <= 2 * n_threads as i64);
        assert_eq!(high.get(), 2 * n_threads as i64);
    }
}

#[test]
fn parallel_over_sources_keeps_their_order() {
    let inputs = vec![vec![1u32, 2, 3], vec![4], vec![], vec![5, 6]];
    let out = read_parallel_all(
        &inputs,
        2,
        &10u32,
        &|| 0u32,
        &|r: &u32, _: u32, base: &u32| Ok(*r + *base),
        &|_: &u32, worked: u32, mut seen: Vec<u32>| {
            seen.push(worked);
            Ok((seen, true))
        },
        Vec::new(),
    )
    .unwrap();
    assert_eq!(out, (vec![11, 12, 13, 14, 15, 16], true));
}

fn nums(sources: Vec<Vec<u32>>) -> Vec<Vec<FastaRecord>> {
    sources
        .into_iter()
        .map(|s| s.into_iter().map(|n| FastaRecord::new(n.to_string().into_bytes(), b"AC".to_vec())).collect())
        .collect()
}

fn num(r: &FastaRecord) -> u32 {
    std::str::from_utf8(r.id_bytes()).unwrap().parse().unwrap()
}

#[test]
fn config_parallel_uses_default_slots() {
    let mut cfg = files(2);
    let inputs = nums(vec![vec![1u32, 2], vec![3]]);
    let out = cfg
        .parallel(
            &inputs,
            3,
            |r: &FastaRecord, slot: u32| Ok(slot + num(r) * 2),
            |_: &FastaRecord, slot: u32, mut seen: Vec<u32>| {
                seen.push(slot);
                Ok((seen, true))
            },
            Vec::new(),
        )
        .unwrap();
    assert_eq!(out, vec![2, 4, 6]);
}

#[test]
fn local_init_failure_is_the_error_of_the_run() {
    let mut cfg = files(1);
    let inputs = nums(vec![vec![1u32, 2]]);
    let called = Cell::new(false);
    let out = cfg.var_parallel_init(
        &inputs,
        0u32,
        2,
        || Err::<u32, CliError>(CliError::other("no worker state")),
        || 0u32,
        |_: &FastaRecord, slot: u32, _: &u32| {
            called.set(true);
            Ok(slot)
        },
        |_: &InputOptions, n: u32| Ok(n),
        |_: &FastaRecord, n: u32| Ok(n),
        |_: &FastaRecord, _: u32, n: u32| Ok((n + 1, true)),
    );
    assert_eq!(out.unwrap_err().message(), "no worker state");
    assert!(!called.get());
}

#[test]
fn worker_state_reaches_the_work() {
    let mut cfg = files(1);
    let inputs = nums(vec![vec![1u32, 2, 3]]);
    let out = cfg
        .var_parallel_init(
            &inputs,
            Vec::new(),
            2,
            || Ok(100u32),
            || 0u32,
            |r: &FastaRecord, _: u32, base: &u32| Ok(num(r) + *base),
            |_: &InputOptions, seen: Vec<u32>| Ok(seen),
            |_: &FastaRecord, seen: Vec<u32>| Ok(seen),
            |_: &FastaRecord, slot: u32, mut seen: Vec<u32>| {
                seen.push(slot);
                Ok((seen, true))
            },
        )
        .unwrap();
    assert_eq!(out, vec![101, 102, 103]);
}

/// What a variable context saw, in order.
#[derive(Debug, PartialEq, Clone)]
enum Seen {
    Input(String),
    Record(u32),
    Func(u32, u32),
}

fn told_of_input(o: &InputOptions, mut seen: Vec<Seen>) -> Result<Vec<Seen>, CliError> {
    seen.push(Seen::Input(o.name()));
    Ok(seen)
}

fn told_of_record(r: &FastaRecord, mut seen: Vec<Seen>) -> Result<Vec<Seen>, CliError> {
    seen.push(Seen::Record(num(r)));
    Ok(seen)
}

#[test]
fn variable_context_is_told_of_sources_and_records() {
    let mut cfg = files(3);
    let inputs = nums(vec![vec![1u32, 2], vec![], vec![3]]);
    let out = cfg
        .read_sequential_var(&inputs, Vec::new(), told_of_input, told_of_record, |r: &FastaRecord, mut seen: Vec<Seen>| {
            seen.push(Seen::Func(num(r), 0));
            Ok((seen, true))
        })
        .unwrap();
    assert_eq!(
        out,
        vec![
            Seen::Input("in0.fq".into()),
            Seen::Record(1),
            Seen::Func(1, 0),
            Seen::Record(2),
            Seen::Func(2, 0),
            Seen::Input("in1.fq".into()),
            Seen::Input("in2.fq".into()),
            Seen::Record(3),
            Seen::Func(3, 0),
        ]
    );
}

#[test]
fn parallel_run_tells_the_context_in_order() {
    let inputs = nums(vec![vec![1u32, 2, 3], vec![4, 5]]);
    let expected = vec![
        Seen::Input("in0.fq".into()),
        Seen::Record(1),
        Seen::Func(1, 10),
        Seen::Record(2),
        Seen::Func(2, 20),
        Seen::Record(3),
        Seen::Func(3, 30),
        Seen::Input("in1.fq".into()),
        Seen::Record(4),
        Seen::Func(4, 40),
        Seen::Record(5),
        Seen::Func(5, 50),
    ];
    for n_threads in [1, 8] {
        let mut cfg = files(2);
        let out = cfg
            .var_parallel_init(
                &inputs,
                Vec::new(),
                n_threads,
                || Ok(10u32),
                || 0u32,
                |r: &FastaRecord, _: u32, factor: &u32| Ok(num(r) * *factor),
                told_of_input,
                told_of_record,
                |r: &FastaRecord, slot: u32, mut seen: Vec<Seen>| {
                    seen.push(Seen::Func(num(r), slot));
                    Ok((seen, true))
                },
            )
            .unwrap();
        assert_eq!(out, expected);
    }
}

#[test]
fn var_parallel_uses_default_slots() {
    let mut cfg = files(1);
    let inputs = nums(vec![vec![1u32, 2]]);
    let out = cfg
        .var_parallel(
            &inputs,
            Vec::new(),
            4,
            |r: &FastaRecord, slot: u32| Ok(slot + num(r) + 5),
            told_of_record,
            |r: &FastaRecord, slot: u32, mut seen: Vec<Seen>| {
                seen.push(Seen::Func(num(r), slot));
                Ok((seen, num(r) != 1))
            },
        )
        .unwrap();
    assert_eq!(out, vec![Seen::Record(1), Seen::Func(1, 6)]);
}

#[test]
fn failing_preparation_of_a_source_ends_the_run() {
    let mut cfg = files(2);
    let inputs = nums(vec![vec![1u32], vec![2]]);
    let out = cfg.read_sequential_var(
        &inputs,
        0u32,
        |o: &InputOptions, n: u32| {
            if o.name() == "in1.fq" {
                Err(CliError::other("cannot prepare in1.fq"))
            } else {
                Ok(n)
            }
        },
        |_: &FastaRecord, n: u32| Ok(n),
        |_: &FastaRecord, n: u32| Ok((n + 1, true)),
    );
    assert_eq!(out.unwrap_err().message(), "cannot prepare in1.fq");
}

#[test]
fn failing_set_record_skips_the_function() {
    let mut cfg = files(1);
    let inputs = nums(vec![vec![1u32, 2, 3]]);
    let calls = Cell::new(0);
    let out = cfg.read_sequential_var(
        &inputs,
        (),
        |_: &InputOptions, v: ()| Ok(v),
        |r: &FastaRecord, v: ()| if num(r) == 2 { Err(CliError::other("bad record")) } else { Ok(v) },
        |_: &FastaRecord, v: ()| {
            calls.set(calls.get() + 1);
            Ok((v, true))
        },
    );
    assert_eq!(out.unwrap_err().message(), "bad record");
    assert_eq!(calls.get(), 1);
}

#[test]
fn inputs_must_match_the_sources() {
    let inputs = nums(vec![vec![1u32], vec![2]]);
    let mut cfg = files(3);
    let out = cfg.all_readers(&inputs, 0u32, |_: usize, _: &FastaRecord, n: u32| Ok(n + 1));
    assert_eq!(out.unwrap_err().message(), "The number of inputs differs from the number of sources");
    let records = vec![vec![FastaRecord::new(b"a".to_vec(), b"AC".to_vec())]];
    let out = cfg.read_sequential(&records, 0u32, |_: &FastaRecord, n: u32| Ok((n + 1, true)));
    assert_eq!(out.unwrap_err().message(), "The number of inputs differs from the number of sources");
    let out = cfg.parallel(&inputs, 2, |_: &FastaRecord, d: u8| Ok(d), |_: &FastaRecord, _: u8, n: u32| Ok((n, true)), 0u32);
    assert_eq!(out.unwrap_err().message(), "The number of inputs differs from the number of sources");
    let out = cfg.read_sequential_var(
        &inputs,
        0u32,
        |_: &InputOptions, n: u32| Ok(n),
        |_: &FastaRecord, n: u32| Ok(n),
        |_: &FastaRecord, n: u32| Ok((n, true)),
    );
    assert_eq!(out.unwrap_err().message(), "The number of inputs differs from the number of sources");
}

#[test]
fn all_readers_pass_the_number_of_the_source() {
    let mut cfg = files(3);
    let inputs = nums(vec![vec![10u32, 11], vec![], vec![12]]);
    let out = cfg
        .all_readers(&inputs, Vec::new(), |i: usize, r: &FastaRecord, mut seen: Vec<(usize, u32)>| {
            seen.push((i, num(r)));
            Ok(seen)
        })
        .unwrap();
    assert_eq!(out, vec![(0, 10), (0, 11), (2, 12)]);
    let out = cfg.all_readers(&inputs, 0u32, |i: usize, _: &FastaRecord, n: u32| {
        if i == 2 {
            Err(CliError::other("third source"))
        } else {
            Ok(n + 1)
        }
    });
    assert_eq!(out.unwrap_err().message(), "third source");
}

fn limited(path: &str, max_mem: usize) -> InputOptions {
    InputOptions { max_mem, ..file_source(path) }
}

fn fasta(id: &str, len: usize) -> FastaRecord {
    FastaRecord::new(id.as_bytes().to_vec(), vec![b'A'; len])
}

#[test]
fn record_above_the_ceiling_ends_the_read() {
    // a record takes its header, its sequence and three bytes more
    let opts = vec![limited("small.fa", 20), limited("large.fa", 100)];
    let mut cfg = Config::from_args(opts, OutputOptions::default(), VarOpts { var_help: false }).unwrap();
    let inputs = vec![vec![fasta("a", 10), fasta("b", 16)], vec![fasta("c", 50), fasta("d", 97), fasta("e", 1)]];
    let seen = Cell::new(Vec::new());
    let out = cfg.read_sequential(&inputs, 0u32, |r: &FastaRecord, n: u32| {
        let mut ids = seen.take();
        ids.push((r.id_bytes().to_vec(), r.raw_seq().len()));
        seen.set(ids);
        Ok((n + 1, true))
    });
    let e = out.unwrap_err();
    assert_eq!(e.message(), "Record of 101 bytes in large.fa exceeds the memory limit of 100 bytes");
    assert_eq!(
        seen.take(),
        vec![(b"a".to_vec(), 10), (b"b".to_vec(), 16), (b"c".to_vec(), 50)]
    );
}

#[test]
fn record_just_within_the_ceiling_is_read() {
    let mut cfg =
        Config::from_args(vec![limited("x.fa", 20)], OutputOptions::default(), VarOpts { var_help: false })
            .unwrap();
    let inputs = vec![vec![fasta("ab", 15), fasta("ab", 15)]];
    assert_eq!(cfg.read_sequential(&inputs, 0u32, |_: &FastaRecord, n: u32| Ok((n + 1, true))).unwrap(), 2);
    assert_eq!(fasta("ab", 15).raw_len(), Some(20));
    let inputs = vec![vec![fasta("ab", 15), fasta("ab", 16), fasta("ab", 1)]];
    let e = cfg.read_sequential(&inputs, 0u32, |_: &FastaRecord, n: u32| Ok((n + 1, true))).unwrap_err();
    assert_eq!(e.message(), "Record of 21 bytes in x.fa exceeds the memory limit of 20 bytes");
}

#[test]
fn stop_before_a_record_above_the_ceiling_is_no_error() {
    let mut cfg =
        Config::from_args(vec![limited("x.fa", 20)], OutputOptions::default(), VarOpts { var_help: false })
            .unwrap();
    let inputs = vec![vec![fasta("a", 1), fasta("b", 1), fasta("c", 99)]];
    let out = cfg.read_sequential(&inputs, 0u32, |r: &FastaRecord, n: u32| Ok((n + 1, r.id_bytes() != b"b")));
    assert_eq!(out.unwrap(), 2);
    let out = cfg.read_sequential(&inputs, 0u32, |r: &FastaRecord, _: u32| {
        if r.id_bytes() == b"b" {
            Err(CliError::other("step failed on b"))
        } else {
            Ok((0, true))
        }
    });
    assert_eq!(out.unwrap_err().message(), "step failed on b");
}

fn two_limited() -> (Config, Vec<Vec<FastaRecord>>) {
    let opts = vec![limited("small.fa", 20), limited("large.fa", 100)];
    let cfg = Config::from_args(opts, OutputOptions::default(), VarOpts { var_help: false }).unwrap();
    let inputs = vec![vec![fasta("a", 10), fasta("b", 16)], vec![fasta("c", 50), fasta("d", 97), fasta("e", 1)]];
    (cfg, inputs)
}

const OVER: &str = "Record of 101 bytes in large.fa exceeds the memory limit of 100 bytes";

#[test]
fn indexed_scan_is_held_to_the_ceilings() {
    let (mut cfg, inputs) = two_limited();
    let seen = Cell::new(Vec::new());
    let out = cfg.all_readers(&inputs, 0u32, |i: usize, r: &FastaRecord, n: u32| {
        let mut ids = seen.take();
        ids.push((i, r.id_bytes().to_vec()));
        seen.set(ids);
        Ok(n + 1)
    });
    assert_eq!(out.unwrap_err().message(), OVER);
    assert_eq!(seen.take(), vec![(0, b"a".to_vec()), (0, b"b".to_vec()), (1, b"c".to_vec())]);
}

#[test]
fn run_with_a_context_is_held_to_the_ceilings() {
    let (mut cfg, inputs) = two_limited();
    let told = Cell::new(0u32);
    let out = cfg.read_sequential_var(
        &inputs,
        0u32,
        |_: &InputOptions, n: u32| Ok(n),
        |_: &FastaRecord, n: u32| {
            told.set(told.get() + 1);
            Ok(n)
        },
        |_: &FastaRecord, n: u32| Ok((n + 1, true)),
    );
    assert_eq!(out.unwrap_err().message(), OVER);
    assert_eq!(told.get(), 3);
    // a stop before the record is no error
    let (mut cfg, inputs) = two_limited();
    let out = cfg.read_sequential_var(
        &inputs,
        0u32,
        |_: &InputOptions, n: u32| Ok(n),
        |_: &FastaRecord, n: u32| Ok(n),
        |r: &FastaRecord, n: u32| Ok((n + 1, r.id_bytes() != b"c")),
    );
    assert_eq!(out.unwrap(), 3);
}

#[test]
fn parallel_runs_are_held_to_the_ceilings() {
    for n_threads in [0, 1, 4] {
        let (mut cfg, inputs) = two_limited();
        let seen = Cell::new(Vec::new());
        let finalize = |r: &FastaRecord, len: usize, n: u32| {
            let mut ids = seen.take();
            ids.push((r.id_bytes().to_vec(), len));
            seen.set(ids);
            Ok((n + 1, true))
        };
        let out = cfg.parallel(&inputs, n_threads, |r: &FastaRecord, _: usize| Ok(r.raw_seq().len()), finalize, 0u32);
        assert_eq!(out.unwrap_err().message(), OVER);
        assert_eq!(seen.take(), vec![(b"a".to_vec(), 10), (b"b".to_vec(), 16), (b"c".to_vec(), 50)]);

        let (mut cfg, inputs) = two_limited();
        let out = cfg.var_parallel(
            &inputs,
            0u32,
            n_threads,
            |r: &FastaRecord, _: usize| Ok(r.raw_seq().len()),
            |_: &FastaRecord, n: u32| Ok(n),
            |r: &FastaRecord, len: usize, n: u32| {
                assert!(len <= 50);
                Ok((n + 1, r.id_bytes() != b"c"))
            },
        );
        assert_eq!(out.unwrap(), 3);

        let (mut cfg, inputs) = two_limited();
        let worked = Cell::new(Vec::new());
        let out = cfg.var_parallel_init(
            &inputs,
            0u32,
            n_threads,
            || Ok(7usize),
            || 0usize,
            |r: &FastaRecord, _: usize, base: &usize| {
                let mut lens = worked.take();
                lens.push(r.raw_seq().len());
                worked.set(lens);
                Ok(r.raw_seq().len() + *base)
            },
            |_: &InputOptions, n: u32| Ok(n),
            |_: &FastaRecord, n: u32| Ok(n),
            |_: &FastaRecord, _: usize, n: u32| Ok((n + 1, true)),
        );
        assert_eq!(out.unwrap_err().message(), OVER);
        assert!(!worked.take().contains(&97));
    }
}
