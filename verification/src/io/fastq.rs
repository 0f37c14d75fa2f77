//! FASTQ records and their writer.

use crate::error::CliError;
use crate::io::input::add_sizes;
use crate::io::input::ceiling_error;
use crate::io::input::InputOptions;
use crate::io::input::over_ceiling;
use crate::io::NEWLINE;
use crate::io::Record;
use crate::io::SeqHeader;
use crate::io::SPACE;
use crate::text::decimal;
use crate::text::push_decimal;
use vstd::prelude::*;
use vstd::slice::slice_subrange;
use vstd::string::StringExecFns;

verus! {

/// Whether `i` is the place of the first `needle` in `haystack`, or `None`
/// and there is none.
pub open spec fn first_at(needle: u8, haystack: Seq<u8>, i: Option<usize>) -> bool {
    match i {
        Some(i) => i < haystack.len() && haystack[i as int] == needle && forall|j: int|
            0 <= j < i ==> haystack[j] != needle,
        None => forall|j: int| 0 <= j < haystack.len() ==> haystack[j] != needle,
    }
}

/// `memchr::memchr`: the index of the first occurrence of `needle` in
/// `haystack`, or `None` if it does not occur.
pub assume_specification[ memchr::memchr ](needle: u8, haystack: &[u8]) -> (i: Option<usize>)
    ensures
        first_at(needle, haystack@, i),
;

/// The place of the first space in a header.
pub open spec fn first_space(head: Seq<u8>) -> Option<usize> {
    choose|i: Option<usize>| first_at(SPACE, head, i)
}

/// There is one answer only to where the first `needle` is.
pub proof fn lemma_first_at_unique(needle: u8, haystack: Seq<u8>, i: Option<usize>, j: Option<usize>)
    requires
        first_at(needle, haystack, i),
        first_at(needle, haystack, j),
    ensures
        i == j,
{
}

/// A FASTQ record: the header line, the sequence and the qualities, and
/// where the header is split into identifier and description once that is
/// known.
pub struct FastqRecord {
    head: Vec<u8>,
    seq: Vec<u8>,
    qual: Vec<u8>,
    delim: Option<Option<usize>>,
}

impl FastqRecord {
    #[verifier::type_invariant]
    spec fn inv(self) -> bool {
        self.delim matches Some(Some(d)) ==> d < self.head.len()
    }

    /// Where the header is split, as far as it was set or found.
    pub closed spec fn spec_delim(&self) -> Option<Option<usize>> {
        self.delim
    }

    /// Where the header is split: where it was set to be, and else at its
    /// first space.
    pub open spec fn split_point(&self) -> Option<usize> {
        match self.spec_delim() {
            Some(d) => d,
            None => first_space(self.head_bytes()),
        }
    }

    /// A record of the three lines of data that a FASTQ entry holds.
    pub fn new(head: Vec<u8>, seq: Vec<u8>, qual: Vec<u8>) -> (rec: FastqRecord)
        ensures
            rec.head_bytes() == head@,
            rec.seq_bytes() == seq@,
            rec.qual_bytes() == Some(qual@),
            rec.spec_delim() is None,
    {
        FastqRecord { head, seq, qual, delim: None }
    }

    /// The identifier and the description of the header, at the split that
    /// is remembered, or else at the first space, which is looked for.
    fn header_parts(&self) -> (parts: (&[u8], Option<&[u8]>))
        ensures
            parts.0@ == self.id_part(),
            parts.1 is Some == self.desc_part() is Some,
            parts.1 matches Some(d) ==> d@ == self.desc_part()->Some_0,
    {
        proof {
            use_type_invariant(self);
        }
        let head: &[u8] = self.head.as_slice();
        let delim = match self.delim {
            Some(d) => d,
            None => {
                let found = memchr::memchr(SPACE, head);
                proof {
                    lemma_first_at_unique(SPACE, head@, found, first_space(head@));
                }
                found
            },
        };
        match delim {
            Some(d) => {
                let end = head.len();
                assert(d < end);
                let id = slice_subrange(head, 0, d);
                let desc = slice_subrange(head, d + 1, end);
                (id, Some(desc))
            },
            None => (head, None),
        }
    }

    /// Finds where the header is split, unless that is known already, and
    /// remembers it: later lookups do not search the header again.
    pub fn find_split(&mut self)
        ensures
            final(self).spec_delim() == Some(old(self).split_point()),
            final(self).head_bytes() == old(self).head_bytes(),
            final(self).seq_bytes() == old(self).seq_bytes(),
            final(self).qual_bytes() == old(self).qual_bytes(),
    {
        if self.delim.is_none() {
            let found = memchr::memchr(SPACE, self.head.as_slice());
            proof {
                lemma_first_at_unique(SPACE, self.head@, found, first_space(self.head@));
            }
            self.delim = Some(found);
        }
    }

    /// The identifier and the description of the header. The first lookup
    /// finds the split and the record remembers it.
    fn _get_header(&mut self) -> (parts: (&[u8], Option<&[u8]>))
        ensures
            parts.0@ == old(self).id_part(),
            parts.1 is Some == old(self).desc_part() is Some,
            parts.1 matches Some(d) ==> d@ == old(self).desc_part()->Some_0,
            final(self).spec_delim() == Some(old(self).split_point()),
            final(self).head_bytes() == old(self).head_bytes(),
            final(self).seq_bytes() == old(self).seq_bytes(),
            final(self).qual_bytes() == old(self).qual_bytes(),
    {
        self.find_split();
        self.header_parts()
    }

    /// The identifier and the description of the header, for a caller that
    /// holds the record itself: the split is remembered from the first call
    /// on. Through a shared reference the record is read as it is, with
    /// the split that it remembers or else the first space.
    pub fn split_header(&mut self) -> (parts: (&[u8], Option<&[u8]>))
        ensures
            parts.0@ == old(self).id_part(),
            parts.1 is Some == old(self).desc_part() is Some,
            parts.1 matches Some(d) ==> d@ == old(self).desc_part()->Some_0,
            final(self).spec_delim() == Some(old(self).split_point()),
            final(self).head_bytes() == old(self).head_bytes(),
            final(self).seq_bytes() == old(self).seq_bytes(),
            final(self).qual_bytes() == old(self).qual_bytes(),
    {
        self._get_header()
    }

    /// Sets where the header is split: at the byte with this index, which is
    /// left out, or nowhere.
    pub fn set_delim(&mut self, delim: Option<usize>)
        requires
            delim matches Some(d) ==> d < old(self).head_bytes().len(),
        ensures
            final(self).spec_delim() == Some(delim),
            final(self).head_bytes() == old(self).head_bytes(),
            final(self).seq_bytes() == old(self).seq_bytes(),
            final(self).qual_bytes() == old(self).qual_bytes(),
    {
        self.delim = Some(delim);
    }

    /// Where the header is split, if that was set.
    pub fn delim(&self) -> (d: Option<Option<usize>>)
        ensures
            d == self.spec_delim(),
    {
        self.delim
    }
}

impl Record for FastqRecord {
    closed spec fn head_bytes(&self) -> Seq<u8> {
        self.head@
    }

    open spec fn id_part(&self) -> Seq<u8> {
        match self.split_point() {
            Some(d) => self.head_bytes().subrange(0, d as int),
            None => self.head_bytes(),
        }
    }

    open spec fn desc_part(&self) -> Option<Seq<u8>> {
        match self.split_point() {
            Some(d) => Some(self.head_bytes().subrange(d + 1, self.head_bytes().len() as int)),
            None => None,
        }
    }

    closed spec fn seq_bytes(&self) -> Seq<u8> {
        self.seq@
    }

    closed spec fn qual_bytes(&self) -> Option<Seq<u8>> {
        Some(self.qual@)
    }

    /// The three lines of data, the separator line, and the character that
    /// starts the record.
    open spec fn raw_size(&self) -> nat {
        self.head_bytes().len() + self.seq_bytes().len() + self.qual_bytes()->Some_0.len() + 6
    }

    fn raw_len(&self) -> (n: Option<usize>) {
        add_sizes(add_sizes(add_sizes(Some(self.head.len()), self.seq.len()), self.qual.len()), 6)
    }

    fn id_bytes(&self) -> (id: &[u8]) {
        self.header_parts().0
    }

    fn desc_bytes(&self) -> (desc: Option<&[u8]>) {
        self.header_parts().1
    }

    fn id_desc_bytes(&self) -> (parts: (&[u8], Option<&[u8]>)) {
        self.header_parts()
    }

    fn get_header(&self) -> (header: SeqHeader<'_>) {
        SeqHeader::FullHeader(self.head.as_slice())
    }

    fn raw_seq(&self) -> (seq: &[u8]) {
        self.seq.as_slice()
    }

    fn has_seq_lines(&self) -> (lines: bool)
        ensures
            !lines,
    {
        false
    }

    fn qual(&self) -> (qual: Option<&[u8]>) {
        Some(self.qual.as_slice())
    }
}

/// The byte that starts a FASTQ record.
pub const RECORD_START: u8 = 64;

/// The byte of the line that parts the sequence from the qualities.
pub const SEPARATOR: u8 = 43;

/// A record in the FASTQ format: the header after the start character, the
/// sequence, the separator line and the qualities, each ended by a newline.
pub open spec fn fastq_text(head: Seq<u8>, seq: Seq<u8>, qual: Seq<u8>) -> Seq<u8> {
    seq![RECORD_START] + head + seq![NEWLINE] + seq + seq![NEWLINE, SEPARATOR, NEWLINE] + qual
        + seq![NEWLINE]
}

/// `seq_io::fastq::write_to` with a byte vector as the writer: appends the
/// start character, the header, a newline, the sequence, the separator line,
/// the qualities and a newline. Writing to a vector does not fail.
#[verifier::external_body]
fn fastq_write_to(out: &mut Vec<u8>, head: &[u8], seq: &[u8], qual: &[u8]) -> (r: Result<
    (),
    std::io::Error,
>)
    ensures
        r is Ok,
        final(out)@ == old(out)@ + fastq_text(head@, seq@, qual@),
{
    seq_io::fastq::write_to(out, head, seq, qual)
}

/// `seq_io::fastq::write_parts` with a byte vector as the writer: as
/// `write_to`, with the header made of the identifier and, after a space, the
/// description if there is one.
#[verifier::external_body]
fn fastq_write_parts(
    out: &mut Vec<u8>,
    id: &[u8],
    desc: Option<&[u8]>,
    seq: &[u8],
    qual: &[u8],
) -> (r: Result<(), std::io::Error>)
    ensures
        r is Ok,
        final(out)@ == old(out)@ + fastq_text(
            SeqHeader::IdDesc(id, desc).line(),
            seq@,
            qual@,
        ),
{
    seq_io::fastq::write_parts(out, id, desc, seq, qual)
}

/// Writes records in the FASTQ format to a byte buffer.
pub struct FastqWriter(Vec<u8>);

impl View for FastqWriter {
    type V = Seq<u8>;

    /// The bytes written so far.
    closed spec fn view(&self) -> Seq<u8> {
        self.0@
    }
}

impl FastqWriter {
    /// A writer that appends to `io_writer`.
    pub fn new(io_writer: Vec<u8>) -> (w: FastqWriter)
        ensures
            w@ == io_writer@,
    {
        FastqWriter(io_writer)
    }

    /// Appends the record, with `head` as its header line. A record without
    /// qualities cannot be written: nothing is appended then.
    pub fn write_with_head<R: Record>(&mut self, head: &[u8], record: &R) -> (r: Result<(), CliError>)
        ensures
            match r {
                Ok(_) => record.qual_bytes() is Some && final(self)@ == old(self)@ + fastq_text(
                    head@,
                    record.seq_bytes(),
                    record.qual_bytes()->Some_0,
                ),
                Err(e) => record.qual_bytes() is None && e is Other && e.text()
                    == "Qualities missing!"@ && final(self)@ == old(self)@,
            },
    {
        match record.qual() {
            None => Err(CliError::other("Qualities missing!")),
            Some(qual) => {
                match fastq_write_to(&mut self.0, head, record.raw_seq(), qual) {
                    Ok(_) => Ok(()),
                    Err(e) => Err(CliError::Io(e)),
                }
            },
        }
    }

    /// Appends the record. A record without qualities cannot be written:
    /// nothing is appended then.
    pub fn write<R: Record>(&mut self, record: &R) -> (r: Result<(), CliError>)
        ensures
            match r {
                Ok(_) => record.qual_bytes() is Some && final(self)@ == old(self)@ + fastq_text(
                    record.head_bytes(),
                    record.seq_bytes(),
                    record.qual_bytes()->Some_0,
                ),
                Err(e) => record.qual_bytes() is None && e is Other && e.text()
                    == "Qualities missing!"@ && final(self)@ == old(self)@,
            },
    {
        match record.qual() {
            None => Err(CliError::other("Qualities missing!")),
            Some(qual) => {
                let seq = record.raw_seq();
                let written = match record.get_header() {
                    SeqHeader::IdDesc(id, desc) => fastq_write_parts(&mut self.0, id, desc, seq, qual),
                    SeqHeader::FullHeader(h) => fastq_write_to(&mut self.0, h, seq, qual),
                };
                match written {
                    Ok(_) => Ok(()),
                    Err(e) => Err(CliError::Io(e)),
                }
            },
        }
    }

    /// Takes the bytes written so far out of the buffer, which is empty
    /// afterwards.
    pub fn take(&mut self) -> (bytes: Vec<u8>)
        ensures
            bytes@ == old(self)@,
            final(self)@.len() == 0,
    {
        let mut bytes: Vec<u8> = Vec::new();
        core::mem::swap(&mut self.0, &mut bytes);
        bytes
    }

    /// Gives the buffer back.
    pub fn into_inner(self) -> (inner: Option<Result<Vec<u8>, CliError>>)
        ensures
            inner matches Some(Ok(bytes)) && bytes@ == self@,
    {
        Some(Ok(self.0))
    }
}

#[verifier::external_type_specification]
#[verifier::external_body]
pub struct ExFastqError(seq_io::fastq::Error);

/// Why the parser yielded no record.
pub enum ReadFailure {
    /// The parser's buffer would have had to grow above its limit.
    BufferLimit,
    /// Anything else, with the parser's text for it.
    Other(String),
}

/// Tells `seq_io::fastq::Error::BufferLimit` from the other errors of the
/// parser, which are kept as the text that the crate prints for them
/// (`std::fmt::Display`). Nothing is claimed of which it is, nor of the text.
#[verifier::external_body]
fn fastq_failure(e: &seq_io::fastq::Error) -> (failure: ReadFailure) {
    match e {
        seq_io::fastq::Error::BufferLimit => ReadFailure::BufferLimit,
        other => ReadFailure::Other(format!("{}", other)),
    }
}

/// What the FASTQ parser yields for one record: the header line, the
/// sequence and the qualities, or the parser's error.
pub type Parsed = Result<(Vec<u8>, Vec<u8>, Vec<u8>), seq_io::fastq::Error>;

/// The message for a record that the parser could not hold under the
/// ceiling of its source.
pub open spec fn at_ceiling(source: Seq<char>, max_mem: nat) -> Seq<char> {
    "A record in "@ + source + " exceeds the memory limit of "@ + decimal(max_mem) + " bytes"@
}

/// Whether `rec` is the record of the lines that the parser yielded.
pub open spec fn is_record_of(rec: &FastqRecord, item: Parsed) -> bool {
    item matches Ok((head, seq, qual)) && rec.head_bytes() == head@ && rec.seq_bytes() == seq@
        && rec.qual_bytes() == Some(qual@) && rec.spec_delim() is None
}

/// Whether `o` is what `func` may return for the record of the lines that
/// the parser yielded.
pub open spec fn called_with<O, F: Fn(&FastqRecord) -> O>(func: &F, item: Parsed, o: O) -> bool {
    exists|rec: FastqRecord| is_record_of(&rec, item) && #[trigger] func.ensures((&rec,), o)
}

/// The reader's side of a FASTQ source: it turns what the parser yields into
/// records, under the ceiling of the source.
pub struct FastqReader {
    source: String,
    max_mem: usize,
}

impl FastqReader {
    /// The name of the source, for messages.
    pub closed spec fn source(&self) -> Seq<char> {
        self.source@
    }

    /// The most bytes that a record may take.
    pub closed spec fn max_mem(&self) -> usize {
        self.max_mem
    }

    /// A reader for a source.
    pub fn new(opts: &InputOptions) -> (reader: FastqReader)
        ensures
            reader.source() == opts.spec_name(),
            reader.max_mem() == opts.max_mem,
    {
        FastqReader { source: opts.name(), max_mem: opts.max_mem }
    }

    /// Whether these lines make a record within the ceiling.
    pub open spec fn fits(&self, head: Seq<u8>, seq: Seq<u8>, qual: Seq<u8>) -> bool {
        head.len() + seq.len() + qual.len() + 6 <= self.max_mem()
    }

    /// Whether the parser yielded a record, and one within the ceiling.
    pub open spec fn admits(&self, item: Parsed) -> bool {
        item matches Ok((head, seq, qual)) && self.fits(head@, seq@, qual@)
    }

    /// What becomes of the lines that the parser yielded, or of the reason
    /// why it yielded none. A record within the ceiling is passed on. A
    /// record above the ceiling is an error that names the source, the
    /// record's size and the ceiling. The parser's report that its buffer
    /// would have to grow above its limit is an error that names the source
    /// and the ceiling. Any other failure is an error with the parser's text.
    pub fn accept(&self, item: Result<(Vec<u8>, Vec<u8>, Vec<u8>), ReadFailure>) -> (r: Result<
        FastqRecord,
        CliError,
    >)
        ensures
            match item {
                Ok((head, seq, qual)) => if self.fits(head@, seq@, qual@) {
                    r matches Ok(rec) && rec.head_bytes() == head@ && rec.seq_bytes() == seq@
                        && rec.qual_bytes() == Some(qual@) && rec.spec_delim() is None
                } else {
                    r matches Err(e) && e is Other && e.text() == over_ceiling(
                        self.source(),
                        if head@.len() + seq@.len() + qual@.len() + 6 <= usize::MAX {
                            head@.len() + seq@.len() + qual@.len() + 6
                        } else {
                            usize::MAX as nat
                        },
                        self.max_mem() as nat,
                    )
                },
                Err(ReadFailure::BufferLimit) => r matches Err(e) && e is Other && e.text()
                    == at_ceiling(self.source(), self.max_mem() as nat),
                Err(ReadFailure::Other(text)) => r matches Err(e) && e is Other && e.text()
                    == text@,
            },
    {
        match item {
            Ok((head, seq, qual)) => {
                let size = add_sizes(
                    add_sizes(add_sizes(Some(head.len()), seq.len()), qual.len()),
                    6,
                );
                match size {
                    Some(n) => if n <= self.max_mem {
                        Ok(FastqRecord::new(head, seq, qual))
                    } else {
                        Err(ceiling_error(self.source.as_str(), n, self.max_mem))
                    },
                    None => Err(ceiling_error(self.source.as_str(), usize::MAX, self.max_mem)),
                }
            },
            Err(ReadFailure::BufferLimit) => {
                let mut msg = String::from_str("A record in ");
                msg.append(self.source.as_str());
                msg.append(" exceeds the memory limit of ");
                push_decimal(&mut msg, self.max_mem);
                msg.append(" bytes");
                Err(CliError::Other(msg))
            },
            Err(ReadFailure::Other(text)) => Err(CliError::Other(text)),
        }
    }

    /// What becomes of an item that the parser hands out: a record within
    /// the ceiling is passed on, and everything else is an error, as `accept`
    /// says.
    pub fn check(&self, item: Parsed) -> (r: Result<FastqRecord, CliError>)
        ensures
            match r {
                Ok(rec) => self.admits(item) && is_record_of(&rec, item),
                Err(e) => !self.admits(item) && e is Other && (item matches Ok((head, seq, qual))
                    ==> e.text() == over_ceiling(
                    self.source(),
                    if head@.len() + seq@.len() + qual@.len() + 6 <= usize::MAX {
                        head@.len() + seq@.len() + qual@.len() + 6
                    } else {
                        usize::MAX as nat
                    },
                    self.max_mem() as nat,
                )),
            },
    {
        match item {
            Ok(lines) => self.accept(Ok(lines)),
            Err(e) => self.accept(Err(fastq_failure(&e))),
        }
    }

    /// Passes the next record to `func`, given what the parser yields next:
    /// `None` at the end of the input. No record above the ceiling reaches
    /// `func`: it is an error, and so is every error of the parser.
    pub fn read_next<O, F>(&self, next: Option<Parsed>, func: &F) -> (r: Option<Result<O, CliError>>) where
        F: Fn(&FastqRecord) -> O,

        requires
            forall|rec: &FastqRecord| func.requires((rec,)),
        ensures
            match r {
                None => next is None,
                Some(Ok(o)) => next matches Some(item) && self.admits(item) && called_with(
                    func,
                    item,
                    o,
                ),
                Some(Err(e)) => e is Other && (next matches Some(item) && !self.admits(item)),
            },
    {
        match next {
            None => None,
            Some(item) => match self.check(item) {
                Ok(rec) => {
                    let o = func(&rec);
                    assert(is_record_of(&rec, item) && func.ensures((&rec,), o));
                    Some(Ok(o))
                },
                Err(e) => Some(Err(e)),
            },
        }
    }
}

} // verus!
