use seqtool::io::fasta::FastaRecord;
use seqtool::io::fastq::{FastqReader, FastqRecord, Parsed, ReadFailure};
use seqtool::io::input::{InFormat, InputOptions, InputType};
use seqtool::io::{read_attr, Attribute, Record, SeqHeader};

fn fq(head: &str, seq: &str, qual: &str) -> FastqRecord {
    FastqRecord::new(head.as_bytes().to_vec(), seq.as_bytes().to_vec(), qual.as_bytes().to_vec())
}

fn source(kind: InputType, cap: usize, max_mem: usize) -> InputOptions {
    InputOptions { kind, format: InFormat::FASTQ, compression: None, threaded: false, cap, max_mem }
}

/// What the parser of `seq_io` yields for FASTQ text under the limits of a
/// source.
fn parse(text: &[u8], opts: &InputOptions) -> Vec<Parsed> {
    let mut reader = seq_io::fastq::Reader::with_capacity(text, opts.cap.max(3))
        .set_policy(seq_io::policy::DoubleUntilLimited::new(opts.max_mem, opts.max_mem));
    let mut items = Vec::new();
    while let Some(item) = reader.next() {
        let failed = item.is_err();
        items.push(item.map(|r| {
            let r = r.to_owned_record();
            (r.head, r.seq, r.qual)
        }));
        if failed {
            break;
        }
    }
    items
}

#[test]
fn header_is_split_at_the_first_space() {
    let rec = fq("id1 a description with spaces", "ACGT", "IIII");
    assert_eq!(rec.delim(), None);
    assert_eq!(rec.id_bytes(), b"id1");
    assert_eq!(rec.desc_bytes(), Some(&b"a description with spaces"[..]));
    assert_eq!(rec.id_desc_bytes(), (&b"id1"[..], Some(&b"a description with spaces"[..])));
    assert_eq!(rec.raw_seq(), b"ACGT");
    assert_eq!(rec.qual(), Some(&b"IIII"[..]));
    assert!(!rec.has_seq_lines());
    assert!(matches!(rec.get_header(), SeqHeader::FullHeader(h) if h == b"id1 a description with spaces"));
}

#[test]
fn header_without_space_has_no_description() {
    let rec = fq("id1", "ACGT", "IIII");
    assert_eq!(rec.id_bytes(), b"id1");
    assert_eq!(rec.desc_bytes(), None);
    let rec = fq("", "", "");
    assert_eq!(rec.id_bytes(), b"");
    assert_eq!(rec.desc_bytes(), None);
}

#[test]
fn header_with_space_at_either_end() {
    let rec = fq(" lead", "A", "I");
    assert_eq!(rec.id_desc_bytes(), (&b""[..], Some(&b"lead"[..])));
    let rec = fq("trail ", "A", "I");
    assert_eq!(rec.id_desc_bytes(), (&b"trail"[..], Some(&b""[..])));
}

#[test]
fn delimiter_can_be_set() {
    let mut rec = fq("id1;desc one", "A", "I");
    rec.set_delim(Some(3));
    assert_eq!(rec.delim(), Some(Some(3)));
    assert_eq!(rec.id_desc_bytes(), (&b"id1"[..], Some(&b"desc one"[..])));
    rec.set_delim(None);
    assert_eq!(rec.delim(), Some(None));
    assert_eq!(rec.id_desc_bytes(), (&b"id1;desc one"[..], None));
}

#[test]
fn fasta_record_has_no_qualities() {
    let rec = FastaRecord::new(b"id1 d".to_vec(), b"ACGT".to_vec());
    assert_eq!(rec.id_bytes(), b"id1");
    assert_eq!(rec.desc_bytes(), Some(&b"d"[..]));
    assert_eq!(rec.qual(), None);
    assert_eq!(rec.raw_seq(), b"ACGT");
}

#[test]
fn attributes_of_a_record() {
    let rec = fq("id1 d e", "ACGT", "IIII");
    assert_eq!(read_attr(&rec, Attribute::Id), b"id1");
    assert_eq!(read_attr(&rec, Attribute::Desc), b"d e");
    assert_eq!(read_attr(&rec, Attribute::Sequence), b"ACGT");
    assert_eq!(read_attr(&fq("id1", "A", "I"), Attribute::Desc), b"");
}

#[test]
fn reader_passes_records_on() {
    let opts = source(InputType::File("reads.fq".to_string()), 64, 1 << 20);
    let reader = FastqReader::new(&opts);
    let items = parse(b"@id1 d\nACGT\n+\nIIII\n@id2\nGG\n+\nJJ\n", &opts);
    assert_eq!(items.len(), 2);
    let mut ids = Vec::new();
    for item in items {
        let id = reader.read_next(Some(item), &|r: &FastqRecord| r.id_bytes().to_vec());
        ids.push(id.unwrap().unwrap());
    }
    assert_eq!(ids, vec![b"id1".to_vec(), b"id2".to_vec()]);
    assert!(reader.read_next(None, &|_: &FastqRecord| ()).is_none());
}

#[test]
fn record_above_the_ceiling_is_an_error() {
    let opts = source(InputType::File("reads.fq".to_string()), 16, 40);
    let reader = FastqReader::new(&opts);
    // 2 + 20 + 20 + 6 = 48 bytes
    let big = (b"id".to_vec(), vec![b'A'; 20], vec![b'I'; 20]);
    let e = reader.check(Ok(big.clone())).err().unwrap();
    assert_eq!(e.message(), "Record of 48 bytes in reads.fq exceeds the memory limit of 40 bytes");
    let called = std::cell::Cell::new(false);
    let r = reader.read_next(Some(Ok(big)), &|_: &FastqRecord| called.set(true));
    assert!(r.unwrap().is_err());
    assert!(!called.get());
    // 2 + 16 + 16 + 6 = 40 bytes: just within
    let fits = (b"id".to_vec(), vec![b'A'; 16], vec![b'I'; 16]);
    let rec = reader.check(Ok(fits)).unwrap();
    assert_eq!(rec.raw_seq().len(), 16);
}

#[test]
fn parser_at_its_buffer_limit_names_the_ceiling() {
    let opts = source(InputType::Stdin, 16, 32);
    let reader = FastqReader::new(&opts);
    let mut text = b"@id1\nAC\n+\nII\n@big\n".to_vec();
    text.extend(vec![b'A'; 100]);
    text.extend(b"\n+\n");
    text.extend(vec![b'I'; 100]);
    text.push(b'\n');
    let mut items = parse(&text, &opts).into_iter();
    assert!(reader.check(items.next().unwrap()).is_ok());
    let e = reader.check(items.next().unwrap()).err().unwrap();
    assert_eq!(e.message(), "A record in STDIN exceeds the memory limit of 32 bytes");
    assert!(items.next().is_none());
}

#[test]
fn failure_of_the_parser_becomes_an_error() {
    let opts = source(InputType::File("reads.fq".to_string()), 64, 1000);
    let reader = FastqReader::new(&opts);
    let e = reader.accept(Err(ReadFailure::BufferLimit)).err().unwrap();
    assert_eq!(e.message(), "A record in reads.fq exceeds the memory limit of 1000 bytes");
    let e = reader.accept(Err(ReadFailure::Other("truncated".to_string()))).err().unwrap();
    assert_eq!(e.message(), "truncated");
    let rec = reader.accept(Ok((b"id d".to_vec(), b"AC".to_vec(), b"II".to_vec()))).unwrap();
    assert_eq!(rec.id_bytes(), b"id");
}

#[test]
fn parser_error_is_handed_on_with_its_text() {
    let opts = source(InputType::File("reads.fq".to_string()), 64, 1 << 20);
    let reader = FastqReader::new(&opts);
    let mut items = parse(b"@id1\nACGT\n+\nII\n", &opts).into_iter();
    let e = reader.check(items.next().unwrap()).err().unwrap();
    assert!(e.message().contains("sequence length is 4, but quality length is 2"));
}

#[test]
fn buffer_grows_up_to_the_ceiling() {
    let opts = source(InputType::File("reads.fq".to_string()), 8, 100);
    assert_eq!(opts.grow_to(8), Some(16));
    assert_eq!(opts.grow_to(50), Some(100));
    assert_eq!(opts.grow_to(51), Some(100));
    assert_eq!(opts.grow_to(0), Some(1));
    assert_eq!(opts.grow_to(100), None);
    assert_eq!(opts.grow_to(1000), None);
    assert_eq!(opts.buffer_for(0).unwrap(), 8);
    assert_eq!(opts.buffer_for(8).unwrap(), 8);
    assert_eq!(opts.buffer_for(9).unwrap(), 16);
    assert_eq!(opts.buffer_for(65).unwrap(), 100);
    assert_eq!(opts.buffer_for(100).unwrap(), 100);
    let e = opts.buffer_for(101).unwrap_err();
    assert_eq!(e.message(), "Record of 101 bytes in reads.fq exceeds the memory limit of 100 bytes");
    assert_eq!(opts.name(), "reads.fq");
    let console = source(InputType::Stdin, 1000, 10);
    assert_eq!(console.name(), "STDIN");
    assert_eq!(console.buffer_for(10).unwrap(), 10);
    assert_eq!(
        console.buffer_for(1234567890).unwrap_err().message(),
        "Record of 1234567890 bytes in STDIN exceeds the memory limit of 10 bytes"
    );
}

#[test]
fn first_lookup_remembers_the_split() {
    let mut rec = fq("id a b", "ACGT", "IIII");
    assert_eq!(rec.delim(), None);
    assert_eq!(rec.split_header(), (&b"id"[..], Some(&b"a b"[..])));
    assert_eq!(rec.delim(), Some(Some(2)));
    assert_eq!(rec.split_header(), (&b"id"[..], Some(&b"a b"[..])));
    assert_eq!(rec.id_bytes(), b"id");
    assert_eq!(rec.desc_bytes(), Some(&b"a b"[..]));

    let mut rec = fq("id", "ACGT", "IIII");
    assert_eq!(rec.delim(), None);
    assert_eq!(rec.split_header(), (&b"id"[..], None));
    assert_eq!(rec.delim(), Some(None));
    assert_eq!(rec.split_header(), (&b"id"[..], None));
}

#[test]
fn split_that_was_set_is_kept() {
    let mut rec = fq("id;a b", "A", "I");
    rec.set_delim(Some(2));
    rec.find_split();
    assert_eq!(rec.delim(), Some(Some(2)));
    assert_eq!(rec.split_header(), (&b"id"[..], Some(&b"a b"[..])));
    let mut rec = fq("id a", "A", "I");
    rec.find_split();
    assert_eq!(rec.delim(), Some(Some(2)));
    // reading through a shared reference stores nothing
    let rec = fq("id a", "A", "I");
    assert_eq!(rec.id_bytes(), b"id");
    assert_eq!(rec.delim(), None);
}

#[test]
fn fasta_records_and_rows_are_held_to_the_ceiling() {
    let opts = source(InputType::File("seqs.fa".to_string()), 16, 20);
    // 2 + 15 + 3 = 20 bytes
    let rec = FastaRecord::read(&opts, b"id".to_vec(), vec![b'A'; 15]).unwrap();
    assert_eq!(rec.raw_seq().len(), 15);
    let e = FastaRecord::read(&opts, b"id".to_vec(), vec![b'A'; 16]).err().unwrap();
    assert_eq!(e.message(), "Record of 21 bytes in seqs.fa exceeds the memory limit of 20 bytes");
    // 2 + 1 + 4 + 1 + 11 + 1 = 20 bytes
    let row = seqtool::io::OwnedRecord::read(&opts, b"id".to_vec(), Some(b"desc".to_vec()), vec![b'A'; 11], None);
    assert_eq!(row.unwrap().raw_seq().len(), 11);
    let e = seqtool::io::OwnedRecord::read(&opts, b"id".to_vec(), Some(b"desc".to_vec()), vec![b'A'; 11], Some(vec![]))
        .err()
        .unwrap();
    assert_eq!(e.message(), "Record of 21 bytes in seqs.fa exceeds the memory limit of 20 bytes");
    assert!(opts.fit(Some(20)).is_ok());
    assert!(opts.fit(Some(21)).is_err());
    assert_eq!(
        opts.fit(None).unwrap_err().message(),
        format!("Record of {} bytes in seqs.fa exceeds the memory limit of 20 bytes", usize::MAX)
    );
}
