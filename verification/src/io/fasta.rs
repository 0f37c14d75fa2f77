//! The FASTA writer.

use crate::error::CliError;
use crate::io::fastq::first_space;
use crate::io::fastq::lemma_first_at_unique;
use crate::io::input::add_sizes;
use crate::io::input::InputOptions;
use crate::io::input::over_ceiling;
use crate::io::input::shown_size;
use crate::io::NEWLINE;
use crate::io::Record;
use crate::io::SeqHeader;
use crate::io::SPACE;
use vstd::prelude::*;
use vstd::slice::slice_subrange;

verus! {

/// The byte that starts a FASTA record.
pub const RECORD_START: u8 = 62;

/// A FASTA record: the header line and the sequence. The header is split
/// into identifier and description at its first space.
pub struct FastaRecord {
    head: Vec<u8>,
    seq: Vec<u8>,
}

impl FastaRecord {
    /// The record of the header line and the sequence that a parser
    /// yielded for a source, if it is within the ceiling of the source. A
    /// record above the ceiling is an error that names the source, the
    /// record's size and the ceiling.
    pub fn read(opts: &InputOptions, head: Vec<u8>, seq: Vec<u8>) -> (r: Result<
        FastaRecord,
        CliError,
    >)
        ensures
            r is Ok <==> head@.len() + seq@.len() + 3 <= opts.max_mem,
            match r {
                Ok(rec) => rec.head_bytes() == head@ && rec.seq_bytes() == seq@ && rec.raw_size()
                    <= opts.max_mem,
                Err(e) => e is Other && e.text() == over_ceiling(
                    opts.spec_name(),
                    shown_size(head@.len() + seq@.len() + 3),
                    opts.max_mem as nat,
                ),
            },
    {
        let size = add_sizes(add_sizes(Some(head.len()), seq.len()), 3);
        match opts.fit(size) {
            Ok(_) => Ok(FastaRecord::new(head, seq)),
            Err(e) => Err(e),
        }
    }

    /// A record of the header line and the sequence of a FASTA entry.
    pub fn new(head: Vec<u8>, seq: Vec<u8>) -> (rec: FastaRecord)
        ensures
            rec.head_bytes() == head@,
            rec.seq_bytes() == seq@,
    {
        FastaRecord { head, seq }
    }
}

impl Record for FastaRecord {
    closed spec fn head_bytes(&self) -> Seq<u8> {
        self.head@
    }

    open spec fn id_part(&self) -> Seq<u8> {
        match first_space(self.head_bytes()) {
            Some(d) => self.head_bytes().subrange(0, d as int),
            None => self.head_bytes(),
        }
    }

    open spec fn desc_part(&self) -> Option<Seq<u8>> {
        match first_space(self.head_bytes()) {
            Some(d) => Some(self.head_bytes().subrange(d + 1, self.head_bytes().len() as int)),
            None => None,
        }
    }

    closed spec fn seq_bytes(&self) -> Seq<u8> {
        self.seq@
    }

    open spec fn qual_bytes(&self) -> Option<Seq<u8>> {
        None
    }

    /// The header and the sequence, each on one line, and the character
    /// that starts the record.
    open spec fn raw_size(&self) -> nat {
        self.head_bytes().len() + self.seq_bytes().len() + 3
    }

    fn raw_len(&self) -> (n: Option<usize>) {
        add_sizes(add_sizes(Some(self.head.len()), self.seq.len()), 3)
    }

    fn id_bytes(&self) -> (id: &[u8]) {
        self.id_desc_bytes().0
    }

    fn desc_bytes(&self) -> (desc: Option<&[u8]>) {
        self.id_desc_bytes().1
    }

    fn id_desc_bytes(&self) -> (parts: (&[u8], Option<&[u8]>)) {
        let head: &[u8] = self.head.as_slice();
        let found = memchr::memchr(SPACE, head);
        proof {
            lemma_first_at_unique(SPACE, head@, found, first_space(head@));
        }
        match found {
            Some(d) => {
                let end = head.len();
                assert(d < end);
                (slice_subrange(head, 0, d), Some(slice_subrange(head, d + 1, end)))
            },
            None => (head, None),
        }
    }

    fn get_header(&self) -> (header: SeqHeader<'_>) {
        SeqHeader::FullHeader(self.head.as_slice())
    }

    fn raw_seq(&self) -> (seq: &[u8]) {
        self.seq.as_slice()
    }

    fn has_seq_lines(&self) -> (lines: bool)
        ensures
            !lines,
    {
        false
    }

    fn qual(&self) -> (qual: Option<&[u8]>) {
        None
    }
}

/// A sequence broken into lines of `width` bytes, the last one perhaps
/// shorter, each ended by a newline. An empty sequence gives no line.
pub open spec fn wrapped(seq: Seq<u8>, width: int) -> Seq<u8>
    decreases seq.len(),
{
    if seq.len() == 0 || width <= 0 {
        Seq::empty()
    } else if seq.len() <= width {
        seq + seq![NEWLINE]
    } else {
        seq.take(width) + seq![NEWLINE] + wrapped(seq.skip(width), width)
    }
}

/// The header line of a FASTA record.
pub open spec fn fasta_head(head: Seq<u8>) -> Seq<u8> {
    seq![RECORD_START] + head + seq![NEWLINE]
}

/// The sequence of a FASTA record: wrapped where a width above zero is
/// given, and else on one line.
pub open spec fn fasta_seq(seq: Seq<u8>, wrap: Option<usize>) -> Seq<u8> {
    match wrap {
        Some(width) if width > 0 => wrapped(seq, width as int),
        _ => seq + seq![NEWLINE],
    }
}

/// A record in the FASTA format.
pub open spec fn fasta_text(head: Seq<u8>, seq: Seq<u8>, wrap: Option<usize>) -> Seq<u8> {
    fasta_head(head) + fasta_seq(seq, wrap)
}

/// `seq_io::fasta::write_head` with a byte vector as the writer: appends the
/// start character, the header and a newline. Writing to a vector does not
/// fail.
#[verifier::external_body]
fn fasta_write_head(out: &mut Vec<u8>, head: &[u8]) -> (r: Result<(), std::io::Error>)
    ensures
        r is Ok,
        final(out)@ == old(out)@ + fasta_head(head@),
{
    seq_io::fasta::write_head(out, head)
}

/// `seq_io::fasta::write_id_desc` with a byte vector as the writer: as
/// `write_head`, with the header made of the identifier and, after a space,
/// the description if there is one.
#[verifier::external_body]
fn fasta_write_id_desc(out: &mut Vec<u8>, id: &[u8], desc: Option<&[u8]>) -> (r: Result<
    (),
    std::io::Error,
>)
    ensures
        r is Ok,
        final(out)@ == old(out)@ + fasta_head(SeqHeader::IdDesc(id, desc).line()),
{
    seq_io::fasta::write_id_desc(out, id, desc)
}

/// `seq_io::fasta::write_seq` with a byte vector as the writer: appends the
/// sequence and a newline.
#[verifier::external_body]
fn fasta_write_seq(out: &mut Vec<u8>, seq: &[u8]) -> (r: Result<(), std::io::Error>)
    ensures
        r is Ok,
        final(out)@ == old(out)@ + seq@ + seq![NEWLINE],
{
    seq_io::fasta::write_seq(out, seq)
}

/// `seq_io::fasta::write_wrap_seq` with a byte vector as the writer: appends
/// the sequence in pieces of `wrap` bytes, the last one perhaps shorter, each
/// followed by a newline. It panics on a width of zero.
#[verifier::external_body]
fn fasta_write_wrap_seq(out: &mut Vec<u8>, seq: &[u8], wrap: usize) -> (r: Result<
    (),
    std::io::Error,
>)
    requires
        wrap > 0,
    ensures
        r is Ok,
        final(out)@ == old(out)@ + wrapped(seq@, wrap as int),
{
    seq_io::fasta::write_wrap_seq(out, seq, wrap)
}

/// Writes records in the FASTA format to a byte buffer.
pub struct FastaWriter {
    out: Vec<u8>,
    wrap: Option<usize>,
}

impl View for FastaWriter {
    type V = Seq<u8>;

    /// The bytes written so far.
    closed spec fn view(&self) -> Seq<u8> {
        self.out@
    }
}

impl FastaWriter {
    /// The width at which sequence lines are wrapped.
    pub closed spec fn wrap(&self) -> Option<usize> {
        self.wrap
    }

    /// A writer that appends to `io_writer` and wraps sequence lines at
    /// `wrap` bytes, if a width above zero is given.
    pub fn new(io_writer: Vec<u8>, wrap: Option<usize>) -> (w: FastaWriter)
        ensures
            w@ == io_writer@,
            w.wrap() == wrap,
    {
        FastaWriter { out: io_writer, wrap }
    }

    /// Appends the sequence lines of a record.
    fn write_seq(&mut self, seq: &[u8]) -> (r: Result<(), std::io::Error>)
        ensures
            r is Ok,
            final(self)@ == old(self)@ + fasta_seq(seq@, old(self).wrap()),
            final(self).wrap() == old(self).wrap(),
    {
        match self.wrap {
            Some(width) if width > 0 => fasta_write_wrap_seq(&mut self.out, seq, width),
            _ => {
                let r = fasta_write_seq(&mut self.out, seq);
                assert(old(self)@ + seq@ + seq![NEWLINE] == old(self)@ + (seq@ + seq![NEWLINE]));
                r
            },
        }
    }

    /// Appends the record, with `head` as its header line.
    pub fn write_with_head<R: Record>(&mut self, head: &[u8], record: &R) -> (r: Result<(), CliError>)
        ensures
            r is Ok,
            final(self)@ == old(self)@ + fasta_text(head@, record.seq_bytes(), old(self).wrap()),
            final(self).wrap() == old(self).wrap(),
    {
        let ghost start = self@;
        let h = fasta_write_head(&mut self.out, head);
        let ghost mid = self@;
        let s = self.write_seq(record.raw_seq());
        assert(mid + fasta_seq(record.seq_bytes(), old(self).wrap()) == start + fasta_text(
            head@,
            record.seq_bytes(),
            old(self).wrap(),
        ));
        match (h, s) {
            (Err(e), _) => Err(CliError::Io(e)),
            (_, Err(e)) => Err(CliError::Io(e)),
            _ => Ok(()),
        }
    }

    /// Appends the record.
    pub fn write<R: Record>(&mut self, record: &R) -> (r: Result<(), CliError>)
        ensures
            r is Ok,
            final(self)@ == old(self)@ + fasta_text(
                record.head_bytes(),
                record.seq_bytes(),
                old(self).wrap(),
            ),
            final(self).wrap() == old(self).wrap(),
    {
        let ghost start = self@;
        let h = match record.get_header() {
            SeqHeader::IdDesc(id, desc) => fasta_write_id_desc(&mut self.out, id, desc),
            SeqHeader::FullHeader(head) => fasta_write_head(&mut self.out, head),
        };
        let ghost mid = self@;
        let s = self.write_seq(record.raw_seq());
        assert(mid + fasta_seq(record.seq_bytes(), old(self).wrap()) == start + fasta_text(
            record.head_bytes(),
            record.seq_bytes(),
            old(self).wrap(),
        ));
        match (h, s) {
            (Err(e), _) => Err(CliError::Io(e)),
            (_, Err(e)) => Err(CliError::Io(e)),
            _ => Ok(()),
        }
    }

    /// Takes the bytes written so far out of the buffer, which is empty
    /// afterwards.
    pub fn take(&mut self) -> (bytes: Vec<u8>)
        ensures
            bytes@ == old(self)@,
            final(self)@.len() == 0,
            final(self).wrap() == old(self).wrap(),
    {
        let mut bytes: Vec<u8> = Vec::new();
        core::mem::swap(&mut self.out, &mut bytes);
        bytes
    }

    /// Gives the buffer back.
    pub fn into_inner(self) -> (inner: Option<Result<Vec<u8>, CliError>>)
        ensures
            inner matches Some(Ok(bytes)) && bytes@ == self@,
    {
        Some(Ok(self.out))
    }
}

} // verus!
