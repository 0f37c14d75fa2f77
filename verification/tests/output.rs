use std::io::Read;

use seqtool::cfg::Config;
use seqtool::error::CliError;
use seqtool::io::fasta::{FastaRecord, FastaWriter};
use seqtool::io::fastq::{FastqRecord, FastqWriter};
use seqtool::io::input::{InFormat, InputOptions, InputType};
use seqtool::io::output::csv::CsvWriter;
use seqtool::io::output::{
    compr_writer, from_format, io_writer, io_writer_compr, writer, OutFormat, OutputKind,
    OutputOptions, Sink, Writer,
};
use seqtool::io::{Attribute, Compression, OwnedRecord, Record, SeqHeader};
use seqtool::var::VarOpts;

fn fq(head: &str, seq: &str, qual: &str) -> FastqRecord {
    FastqRecord::new(head.as_bytes().to_vec(), seq.as_bytes().to_vec(), qual.as_bytes().to_vec())
}

fn fa(head: &str, seq: &str) -> FastaRecord {
    FastaRecord::new(head.as_bytes().to_vec(), seq.as_bytes().to_vec())
}

/// A compiler of fields that knows no variable.
fn no_vars(field: &str) -> Result<(), CliError> {
    Err(CliError::other(&format!("Unknown variable: {}", field)))
}

/// The value of a field that was never compiled.
fn nothing<R>(_: &(), _: &R) -> Vec<u8> {
    Vec::new()
}

fn text(bytes: Vec<u8>) -> String {
    String::from_utf8(bytes).unwrap()
}

fn options(format: OutFormat) -> OutputOptions {
    OutputOptions { kind: OutputKind::Stdout, format, compression: None, threaded: false }
}

#[test]
fn default_extension_goes_with_the_format() {
    assert_eq!(OutFormat::FASTA(vec![], None).default_ext(), "fasta");
    assert_eq!(OutFormat::FASTA(vec![("a".into(), "b".into())], Some(60)).default_ext(), "fasta");
    assert_eq!(OutFormat::FASTQ(vec![]).default_ext(), "fastq");
    assert_eq!(OutFormat::CSV(b'\t', vec![]).default_ext(), "txt");
    assert_eq!(OutFormat::CSV(b',', vec![]).default_ext(), "csv");
    assert_eq!(OutFormat::CSV(b';', vec!["id".into()]).default_ext(), "csv");
}

#[test]
fn default_output_is_plain_fasta_to_stdout() {
    let o = OutputOptions::default();
    assert_eq!(o.kind, OutputKind::Stdout);
    assert_eq!(o.format, OutFormat::FASTA(vec![], None));
    assert_eq!(o.compression, None);
    assert!(!o.threaded);
}

#[test]
fn fastq_writer_writes_four_lines() {
    let mut w = FastqWriter::new(b"x".to_vec());
    w.write(&fq("id1 some text", "ACGT", "IIII")).unwrap();
    w.write(&fq("id2", "", "")).unwrap();
    assert_eq!(text(w.into_inner().unwrap().unwrap()), "x@id1 some text\nACGT\n+\nIIII\n@id2\n\n+\n\n");
}

#[test]
fn fastq_writer_needs_qualities() {
    let mut w = FastqWriter::new(Vec::new());
    let e = w.write(&fa("id1", "ACGT")).unwrap_err();
    assert_eq!(e.message(), "Qualities missing!");
    assert!(matches!(e, CliError::Other(_)));
    assert_eq!(w.into_inner().unwrap().unwrap(), b"");
}

#[test]
fn fasta_writer_wraps_lines() {
    let mut w = FastaWriter::new(Vec::new(), None);
    w.write(&fa("id1 d", "ACGTACGTAC")).unwrap();
    assert_eq!(text(w.into_inner().unwrap().unwrap()), ">id1 d\nACGTACGTAC\n");
    let mut w = FastaWriter::new(Vec::new(), Some(4));
    w.write(&fa("id1 d", "ACGTACGTAC")).unwrap();
    w.write(&fa("id2", "ACGTACGT")).unwrap();
    w.write(&fa("id3", "")).unwrap();
    assert_eq!(
        text(w.into_inner().unwrap().unwrap()),
        ">id1 d\nACGT\nACGT\nAC\n>id2\nACGT\nACGT\n>id3\n"
    );
    let mut w = FastaWriter::new(Vec::new(), Some(0));
    w.write(&fa("id1", "ACGTACGTAC")).unwrap();
    assert_eq!(text(w.into_inner().unwrap().unwrap()), ">id1\nACGTACGTAC\n");
}

fn owned(id: &str, desc: Option<&str>, seq: &str, qual: Option<&str>) -> OwnedRecord {
    OwnedRecord::new(
        id.as_bytes().to_vec(),
        desc.map(|d| d.as_bytes().to_vec()),
        seq.as_bytes().to_vec(),
        qual.map(|q| q.as_bytes().to_vec()),
    )
}

#[test]
fn record_with_identifier_and_description_apart() {
    let rec = owned("id1", Some("two words"), "ACGT", Some("IIII"));
    assert_eq!(rec.id_bytes(), b"id1");
    assert_eq!(rec.desc_bytes(), Some(&b"two words"[..]));
    assert_eq!(rec.id_desc_bytes(), (&b"id1"[..], Some(&b"two words"[..])));
    assert_eq!(rec.raw_seq(), b"ACGT");
    assert_eq!(rec.qual(), Some(&b"IIII"[..]));
    assert!(!rec.has_seq_lines());
    assert!(matches!(rec.get_header(), SeqHeader::IdDesc(b"id1", Some(b"two words"))));
    let bare = owned("id2", None, "", None);
    assert_eq!(bare.desc_bytes(), None);
    assert_eq!(bare.qual(), None);
}

#[test]
fn header_is_written_from_its_parts() {
    let with_desc = owned("id1", Some("two words"), "ACGT", Some("IIII"));
    let bare = owned("id2", None, "GG", Some("JJ"));
    let empty_desc = owned("id3", Some(""), "T", Some("K"));
    let mut w = FastqWriter::new(Vec::new());
    w.write(&with_desc).unwrap();
    w.write(&bare).unwrap();
    w.write(&empty_desc).unwrap();
    assert_eq!(
        text(w.into_inner().unwrap().unwrap()),
        "@id1 two words\nACGT\n+\nIIII\n@id2\nGG\n+\nJJ\n@id3 \nT\n+\nK\n"
    );
    let mut w = FastaWriter::new(Vec::new(), Some(3));
    w.write(&with_desc).unwrap();
    w.write(&bare).unwrap();
    assert_eq!(text(w.into_inner().unwrap().unwrap()), ">id1 two words\nACG\nT\n>id2\nGG\n");
    let props = vec![("n".to_string(), "1".to_string())];
    let mut w: Writer<()> = from_format(Vec::new(), &OutFormat::FASTA(props, None)).unwrap();
    w.write(&with_desc, &nothing).unwrap();
    w.write(&bare, &nothing).unwrap();
    assert_eq!(text(w.into_inner()), ">id1 two words n=1\nACGT\n>id2 n=1\nGG\n");
    let e = FastqWriter::new(Vec::new()).write(&owned("id", None, "AC", None)).unwrap_err();
    assert_eq!(e.message(), "Qualities missing!");
}

#[test]
fn buffer_can_be_taken_between_records() {
    let mut w: Writer<()> = from_format(Vec::new(), &OutFormat::FASTA(vec![], None)).unwrap();
    w.write(&fa("a", "AC"), &nothing).unwrap();
    assert_eq!(text(w.take_bytes()), ">a\nAC\n");
    assert_eq!(w.take_bytes(), b"");
    w.write(&fa("b", "GT"), &nothing).unwrap();
    w.write(&fa("c", "TT"), &nothing).unwrap();
    assert_eq!(text(w.take_bytes()), ">b\nGT\n>c\nTT\n");
    assert_eq!(w.into_inner(), b"");
}

#[test]
fn from_format_makes_the_writer_of_the_format() {
    let rec = fq("id1 desc", "ACGT", "IIII");
    let mut w: Writer<()> = from_format(Vec::new(), &OutFormat::FASTA(vec![], Some(2))).unwrap();
    assert!(matches!(w, Writer::Fasta(..)));
    assert!(!w.has_vars());
    w.write(&rec, &nothing).unwrap();
    assert_eq!(text(w.into_inner()), ">id1 desc\nAC\nGT\n");

    let mut w: Writer<()> = from_format(b"#".to_vec(), &OutFormat::FASTQ(vec![])).unwrap();
    assert!(matches!(w, Writer::Fastq(..)));
    w.write(&rec, &nothing).unwrap();
    assert_eq!(text(w.into_inner()), "#@id1 desc\nACGT\n+\nIIII\n");

    let fields = vec!["id".to_string(), "seq".to_string(), "desc".to_string()];
    let mut w: Writer<()> = from_format(Vec::new(), &OutFormat::CSV(b'\t', fields)).unwrap();
    assert!(matches!(w, Writer::Csv(..)));
    assert!(w.has_vars());
    w.register_vars(&no_vars).unwrap();
    w.write(&rec, &nothing).unwrap();
    w.write(&fa("id2", "GG"), &nothing).unwrap();
    assert_eq!(text(w.into_inner()), "id1\tACGT\tdesc\nid2\tGG\t\n");
}

#[test]
fn attributes_are_added_to_the_header() {
    let props = vec![("a".to_string(), "1".to_string()), ("long".to_string(), "x y".to_string())];
    let mut w: Writer<()> = from_format(Vec::new(), &OutFormat::FASTA(props.clone(), None)).unwrap();
    assert!(w.has_vars());
    w.write(&fa("id1 desc", "AC"), &nothing).unwrap();
    w.write(&fa("id2", "GT"), &nothing).unwrap();
    assert_eq!(text(w.into_inner()), ">id1 desc a=1 long=x y\nAC\n>id2 a=1 long=x y\nGT\n");
    let mut w: Writer<()> = from_format(Vec::new(), &OutFormat::FASTQ(props)).unwrap();
    w.write(&fq("id1", "AC", "II"), &nothing).unwrap();
    assert_eq!(text(w.into_inner()), "@id1 a=1 long=x y\nAC\n+\nII\n");
}

#[test]
fn csv_quotes_fields_that_need_it() {
    let mut w: CsvWriter<()> = CsvWriter::new(Vec::new(), vec!["id".into(), "desc".into()], b',');
    assert!(w.has_vars());
    w.register_vars(&no_vars).unwrap();
    w.write_simple(&fa("id1 a,b", "AC")).unwrap();
    w.write(&fa("id2 say \"hi\"", "AC"), &nothing).unwrap();
    assert_eq!(text(w.into_inner().unwrap().unwrap()), "id1,\"a,b\"\nid2,\"say \"\"hi\"\"\"\n");
}

#[test]
fn csv_with_unknown_field_is_refused() {
    let mut w: CsvWriter<()> = CsvWriter::new(Vec::new(), vec!["id".into(), "length".into(), "nope".into()], b',');
    let e = w.register_vars(&no_vars).unwrap_err();
    assert_eq!(e.message(), "Unknown variable: length");
    let mut w: Writer<()> = Writer::Csv(CsvWriter::new(Vec::new(), vec!["x".into()], b','));
    assert!(w.register_vars(&no_vars).is_err());
}

#[test]
fn csv_without_fields_writes_empty_lines() {
    let mut w: CsvWriter<()> = CsvWriter::new(Vec::new(), vec![], b',');
    assert!(!w.has_vars());
    w.register_vars(&no_vars).unwrap();
    w.write(&fa("id1", "AC"), &nothing).unwrap();
    assert_eq!(text(w.into_inner().unwrap().unwrap()), "\"\"\n");
}

#[test]
fn attribute_names() {
    assert_eq!(Attribute::from_str("id"), Some(Attribute::Id));
    assert_eq!(Attribute::from_str("desc"), Some(Attribute::Desc));
    assert_eq!(Attribute::from_str("seq"), Some(Attribute::Sequence));
    assert_eq!(Attribute::from_str("ID"), None);
    assert_eq!(Attribute::from_str(""), None);
}

#[test]
fn no_output_writes_nothing() {
    let mut w: Writer<()> = Writer::NoOutput;
    w.register_vars(&no_vars).unwrap();
    w.write(&fa("id1", "AC"), &nothing).unwrap();
    assert!(!w.has_vars());
    assert_eq!(w.into_inner(), b"");
}

#[test]
fn writer_hands_back_bytes_and_sink() {
    let opts = options(OutFormat::FASTQ(vec![]));
    let written = writer(Some(&opts), |mut w: Writer<()>| {
        w.write(&fq("a", "AC", "II"), &nothing)?;
        w.write(&fq("b", "GT", "JJ"), &nothing)?;
        Ok((w, 2usize))
    })
    .unwrap();
    assert_eq!(written.value, 2);
    assert_eq!(text(written.bytes), "@a\nAC\n+\nII\n@b\nGT\n+\nJJ\n");
    assert!(matches!(written.sink, Sink::Direct(OutputKind::Stdout)));
}

#[test]
fn writer_without_options_discards() {
    let written = writer(None, |mut w: Writer<()>| {
        w.write(&fq("a", "AC", "II"), &nothing)?;
        Ok((w, ()))
    })
    .unwrap();
    assert!(written.bytes.is_empty());
    assert!(matches!(written.sink, Sink::Discard));
    let written = io_writer(None, |mut b: Vec<u8>| {
        b.extend_from_slice(b"dropped");
        Ok((b, 7u8))
    })
    .unwrap();
    assert_eq!(written.value, 7);
    assert!(written.bytes.is_empty());
    assert!(matches!(written.sink, Sink::Discard));
}

#[test]
fn writer_hands_on_the_error_of_the_function() {
    let opts = options(OutFormat::FASTQ(vec![]));
    let r = writer(Some(&opts), |mut w: Writer<()>| {
        w.write(&fa("a", "AC"), &nothing)?;
        Ok((w, ()))
    });
    assert_eq!(r.err().unwrap().message(), "Qualities missing!");
    let r = io_writer(Some(&opts), |_: Vec<u8>| Err::<(Vec<u8>, ()), _>(CliError::other("no")));
    assert_eq!(r.err().unwrap().message(), "no");
}

#[test]
fn compressed_or_threaded_output_goes_through_a_thread() {
    let file = OutputKind::File("out.fq.gz".to_string());
    let written = io_writer_compr(&file, Some(Compression::GZIP), false, |mut b: Vec<u8>| {
        b.push(1);
        Ok((b, ()))
    })
    .unwrap();
    assert_eq!(written.bytes, vec![1]);
    match written.sink {
        Sink::Threaded { kind, compression, bufsize, queue_len } => {
            assert_eq!(kind, file);
            assert_eq!(compression, Some(Compression::GZIP));
            assert_eq!(bufsize, 1 << 22);
            assert_eq!(queue_len, 4);
        }
        _ => panic!("compressed output is written by a thread"),
    }
    assert!(matches!(
        Sink::plan(Some(&OutputOptions { threaded: true, ..OutputOptions::default() })),
        Sink::Threaded { compression: None, .. }
    ));
    assert!(matches!(
        Sink::plan(Some(&OutputOptions { kind: file.clone(), ..OutputOptions::default() })),
        Sink::Direct(OutputKind::File(_))
    ));
    assert!(matches!(Sink::plan(None), Sink::Discard));
}

#[test]
fn compressed_bytes_can_be_read_back() {
    let data: Vec<u8> = b"@id\nACGTACGTACGTACGTACGTACGT\n+\nIIIIIIIIIIIIIIIIIIIIIIII\n".repeat(50);
    let gz = compr_writer(&data, Compression::GZIP).unwrap();
    assert_ne!(gz, data);
    assert_eq!(&gz[..2], &[0x1f, 0x8b]);
    let mut back = Vec::new();
    flate2::read::GzDecoder::new(&gz[..]).read_to_end(&mut back).unwrap();
    assert_eq!(back, data);

    let bz = compr_writer(&data, Compression::BZIP2).unwrap();
    assert_eq!(&bz[..3], b"BZh");
    let mut back = Vec::new();
    bzip2::read::BzDecoder::new(&bz[..]).read_to_end(&mut back).unwrap();
    assert_eq!(back, data);

    let lz = compr_writer(&data, Compression::LZ4).unwrap();
    assert_eq!(&lz[..4], &[0x04, 0x22, 0x4d, 0x18]);
    let mut back = Vec::new();
    lz4::Decoder::new(&lz[..]).unwrap().read_to_end(&mut back).unwrap();
    assert_eq!(back, data);

    assert_eq!(compr_writer(&data, Compression::GZIP).unwrap(), gz);
}

fn config(format: OutFormat) -> Config {
    let input = InputOptions {
        kind: InputType::File("in.fq".to_string()),
        format: InFormat::FASTQ,
        compression: None,
        threaded: false,
        cap: 1 << 16,
        max_mem: 1 << 20,
    };
    let output = OutputOptions {
        kind: OutputKind::File("out".to_string()),
        format,
        compression: Some(Compression::LZ4),
        threaded: false,
    };
    Config::from_args(vec![input], output, VarOpts { var_help: false }).unwrap()
}

#[test]
fn config_writer_prepares_the_fields() {
    let cfg = config(OutFormat::CSV(b',', vec!["seq".into(), "id".into()]));
    let written = cfg
        .writer(no_vars, |mut w: Writer<()>| {
            w.write(&fq("a b", "AC", "II"), &nothing)?;
            Ok((w, ()))
        })
        .unwrap();
    assert_eq!(text(written.bytes), "AC,a\n");
    assert!(matches!(written.sink, Sink::Threaded { compression: Some(Compression::LZ4), .. }));
}

#[test]
fn config_writer_refuses_unknown_fields_before_the_run() {
    let cfg = config(OutFormat::CSV(b',', vec!["seq".into(), "gc".into()]));
    let called = std::cell::Cell::new(false);
    let r = cfg.writer(no_vars, |w: Writer<()>| {
        called.set(true);
        Ok((w, ()))
    });
    assert_eq!(r.err().unwrap().message(), "Unknown variable: gc");
    assert!(!called.get());
}

#[test]
fn config_writer_with_calls_init_first() {
    let cfg = config(OutFormat::FASTA(vec![], None));
    let written = cfg
        .writer_with(
            || Ok(3usize),
            no_vars,
            |mut w: Writer<()>, n: usize| {
                for _ in 0..n {
                    w.write(&fa("a", "AC"), &nothing)?;
                }
                Ok((w, n))
            },
        )
        .unwrap();
    assert_eq!(written.value, 3);
    assert_eq!(text(written.bytes), ">a\nAC\n>a\nAC\n>a\nAC\n");
    let r = cfg.writer_with(
        || Err::<u8, _>(CliError::other("init failed")),
        no_vars,
        |w: Writer<()>, _: u8| Ok((w, ())),
    );
    assert_eq!(r.err().unwrap().message(), "init failed");
}

#[test]
fn config_io_writer_gives_a_plain_buffer() {
    let cfg = config(OutFormat::FASTA(vec![], None));
    let written = cfg
        .io_writer(|mut b: Vec<u8>| {
            b.extend_from_slice(b"raw");
            Ok((b, ()))
        })
        .unwrap();
    assert_eq!(written.bytes, b"raw");
    assert!(matches!(written.sink, Sink::Threaded { .. }));
}

#[test]
fn other_writer_goes_to_a_file_in_the_same_format() {
    let cfg = config(OutFormat::CSV(b';', vec!["id".into()]));
    let (mut w, kind, compression) = cfg.other_writer("second.csv", Some(&no_vars)).unwrap();
    assert_eq!(kind, OutputKind::File("second.csv".to_string()));
    assert_eq!(compression, Some(Compression::LZ4));
    w.write(&fa("a b", "AC"), &nothing).unwrap();
    assert_eq!(text(w.into_inner()), "a\n");
    let cfg = config(OutFormat::CSV(b';', vec!["what".into()]));
    assert!(cfg.other_writer("second.csv", Some(&no_vars)).is_err());
    assert!(cfg.other_writer::<(), fn(&str) -> Result<(), CliError>>("second.csv", None).is_ok());
}

/// What a field that names no attribute is compiled to in these tests.
#[derive(Debug, PartialEq)]
enum Expr {
    SeqLen,
    Text(String),
}

fn compile(field: &str) -> Result<Expr, CliError> {
    match field {
        "seqlen" => Ok(Expr::SeqLen),
        f if f.starts_with('\'') => Ok(Expr::Text(f.trim_matches('\'').to_string())),
        f => Err(CliError::other(&format!("Unknown variable: {}", f))),
    }
}

fn fill<R: Record>(e: &Expr, rec: &R) -> Vec<u8> {
    match e {
        Expr::SeqLen => format!("{}", rec.raw_seq().len()).into_bytes(),
        Expr::Text(t) => t.clone().into_bytes(),
    }
}

#[test]
fn csv_fields_that_name_no_attribute_are_compiled_and_filled() {
    let fields = vec!["id".to_string(), "seqlen".to_string(), "'x,y'".to_string(), "seq".to_string()];
    let mut w: CsvWriter<Expr> = CsvWriter::new(Vec::new(), fields, b',');
    w.register_vars(&compile).unwrap();
    assert!(!w.is_simple());
    w.write(&fa("id1 d", "ACGT"), &fill).unwrap();
    w.write(&fa("id2", ""), &fill).unwrap();
    assert_eq!(text(w.into_inner().unwrap().unwrap()), "id1,4,\"x,y\",ACGT\nid2,0,\"x,y\",\n");
}

#[test]
fn csv_registration_stops_at_the_first_refused_field() {
    let called = std::cell::RefCell::new(Vec::new());
    let fields = vec!["seqlen".to_string(), "id".to_string(), "gc".to_string(), "at".to_string()];
    let mut w: CsvWriter<Expr> = CsvWriter::new(Vec::new(), fields, b',');
    let e = w
        .register_vars(&|f: &str| {
            called.borrow_mut().push(f.to_string());
            compile(f)
        })
        .unwrap_err();
    assert_eq!(e.message(), "Unknown variable: gc");
    assert_eq!(*called.borrow(), vec!["seqlen".to_string(), "gc".to_string()]);
    assert!(w.is_simple());
}

#[test]
fn csv_of_attributes_is_simple() {
    let mut w: CsvWriter<Expr> = CsvWriter::new(Vec::new(), vec!["seq".into(), "id".into()], b';');
    w.register_vars(&compile).unwrap();
    assert!(w.is_simple());
    w.write_simple(&fa("a b", "AC")).unwrap();
    w.write(&fa("c", "GT"), &fill).unwrap();
    assert_eq!(text(w.into_inner().unwrap().unwrap()), "AC;a\nGT;c\n");
}

#[test]
fn writer_fills_compiled_fields() {
    let format = OutFormat::CSV(b'\t', vec!["id".to_string(), "seqlen".to_string()]);
    let mut w: Writer<Expr> = from_format(Vec::new(), &format).unwrap();
    w.register_vars(&compile).unwrap();
    w.write(&fq("r1", "ACG", "III"), &fill).unwrap();
    assert_eq!(text(w.take_bytes()), "r1\t3\n");
    let cfg = config(format);
    let written = cfg
        .writer(compile, |mut w: Writer<Expr>| {
            w.write(&fa("r2", "ACGTT"), &fill)?;
            Ok((w, ()))
        })
        .unwrap();
    assert_eq!(text(written.bytes), "r2\t5\n");
}
