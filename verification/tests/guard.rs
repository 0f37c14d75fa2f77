use seqtool::cfg::Config;
use seqtool::error::CliError;
use seqtool::io::fasta::FastaRecord;
use seqtool::io::input::{InFormat, InputOptions, InputType};
use seqtool::io::output::OutputOptions;
use seqtool::var::VarOpts;

fn recs(n: usize) -> Vec<FastaRecord> {
    (0..n).map(|i| FastaRecord::new(format!("r{}", i).into_bytes(), b"ACGT".to_vec())).collect()
}

fn source(kind: InputType) -> InputOptions {
    InputOptions {
        kind,
        format: InFormat::FASTA,
        compression: None,
        threaded: false,
        cap: 1 << 16,
        max_mem: 1 << 20,
    }
}

fn config(kinds: Vec<InputType>) -> Config {
    let opts = kinds.into_iter().map(source).collect();
    Config::from_args(opts, OutputOptions::default(), VarOpts { var_help: false }).unwrap()
}

fn count(cfg: &mut Config, inputs: &Vec<Vec<FastaRecord>>) -> Result<usize, CliError> {
    cfg.read_sequential(inputs, 0usize, |_: &FastaRecord, n: usize| Ok((n + 1, true)))
}

fn count_parallel(cfg: &mut Config, inputs: &Vec<Vec<FastaRecord>>) -> Result<usize, CliError> {
    cfg.parallel(inputs, 2, |_: &FastaRecord, slot: u8| Ok(slot), |_: &FastaRecord, _: u8, n: usize| Ok((n + 1, true)), 0usize)
}

#[test]
fn console_cannot_be_read_twice() {
    let mut cfg = config(vec![InputType::Stdin]);
    let inputs = vec![recs(3)];
    assert!(cfg.has_stdin());
    assert_eq!(count(&mut cfg, &inputs).unwrap(), 3);
    let second = count(&mut cfg, &inputs).unwrap_err();
    assert_eq!(second.message(), "Cannot read twice from STDIN");
    let third = count(&mut cfg, &inputs).unwrap_err();
    assert_eq!(third.message(), "Cannot read twice from STDIN");
}

#[test]
fn second_read_through_another_entry_point_fails_too() {
    let inputs = vec![recs(3)];
    let mut cfg = config(vec![InputType::Stdin]);
    assert_eq!(count(&mut cfg, &inputs).unwrap(), 3);
    assert_eq!(
        count_parallel(&mut cfg, &inputs).unwrap_err().message(),
        "Cannot read twice from STDIN"
    );
    let mut cfg = config(vec![InputType::Stdin]);
    assert_eq!(count_parallel(&mut cfg, &inputs).unwrap(), 3);
    assert_eq!(count(&mut cfg, &inputs).unwrap_err().message(), "Cannot read twice from STDIN");
}

#[test]
fn every_full_scan_is_guarded() {
    let inputs = vec![recs(3)];
    let mut cfg = config(vec![InputType::Stdin]);
    assert_eq!(cfg.all_readers(&inputs, 0usize, |_: usize, _: &FastaRecord, n: usize| Ok(n + 1)).unwrap(), 3);
    assert_eq!(count(&mut cfg, &inputs).unwrap_err().message(), "Cannot read twice from STDIN");
    let again = cfg.all_readers(&inputs, 0usize, |_: usize, _: &FastaRecord, n: usize| Ok(n + 1));
    assert_eq!(again.unwrap_err().message(), "Cannot read twice from STDIN");
    let var = cfg.read_sequential_var(
        &inputs,
        0usize,
        |_: &InputOptions, n: usize| Ok(n),
        |_: &FastaRecord, n: usize| Ok(n),
        |_: &FastaRecord, n: usize| Ok((n + 1, true)),
    );
    assert_eq!(var.unwrap_err().message(), "Cannot read twice from STDIN");
    let par = cfg.var_parallel(
        &inputs,
        0usize,
        2,
        |_: &FastaRecord, slot: u8| Ok(slot),
        |_: &FastaRecord, n: usize| Ok(n),
        |_: &FastaRecord, _: u8, n: usize| Ok((n + 1, true)),
    );
    assert_eq!(par.unwrap_err().message(), "Cannot read twice from STDIN");
}

#[test]
fn refused_read_touches_no_record() {
    let inputs = vec![recs(1)];
    let mut cfg = config(vec![InputType::Stdin]);
    count(&mut cfg, &inputs).unwrap();
    let touched = std::cell::Cell::new(false);
    let r = cfg.read_sequential(&inputs, (), |_: &FastaRecord, _: ()| {
        touched.set(true);
        Ok(((), true))
    });
    assert!(r.is_err());
    assert!(!touched.get());
}

#[test]
fn files_can_be_read_again_and_again() {
    let mut cfg = config(vec![InputType::File("a.fa".to_string()), InputType::File("b.fa".to_string())]);
    let inputs = vec![recs(2), recs(1)];
    assert!(!cfg.has_stdin());
    assert_eq!(cfg.num_readers(), 2);
    for _ in 0..5 {
        assert_eq!(count(&mut cfg, &inputs).unwrap(), 3);
        assert_eq!(count_parallel(&mut cfg, &inputs).unwrap(), 3);
    }
}

#[test]
fn console_among_files_is_guarded() {
    let mut cfg = config(vec![InputType::File("a.fa".to_string()), InputType::Stdin]);
    let inputs = vec![recs(1), recs(1)];
    assert!(cfg.has_stdin());
    assert!(cfg.check_repetition().is_ok());
    assert!(cfg.check_repetition().is_err());
}

#[test]
fn first_check_always_passes() {
    assert!(config(vec![InputType::Stdin]).check_repetition().is_ok());
    assert!(config(vec![]).check_repetition().is_ok());
    assert!(config(vec![InputType::File("x".to_string())]).check_repetition().is_ok());
}

#[test]
fn help_on_variables_replaces_the_configuration() {
    let r = Config::from_args(vec![], OutputOptions::default(), VarOpts { var_help: true });
    let general = r.unwrap_err().message();
    assert_eq!(general, seqtool::var::var_help());
    let r = Config::from_args_with_help(
        vec![],
        OutputOptions::default(),
        VarOpts { var_help: true },
        "Own variables of the command",
    );
    assert_eq!(r.unwrap_err().message(), format!("Own variables of the command\n\n{}", general));
    let r = Config::new(vec![], OutputOptions::default(), VarOpts { var_help: false }, Some("x"));
    assert!(r.is_ok());
}
