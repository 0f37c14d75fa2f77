//! Reading and writing of records.

pub mod fasta;
pub mod fastq;
pub mod input;
pub mod output;

use crate::error::CliError;
use crate::io::input::add_sizes;
use crate::io::input::InputOptions;
use crate::io::input::over_ceiling;
use crate::io::input::shown_size;
use vstd::prelude::*;
use vstd::string::StringExecFns;

verus! {

/// The codec that compresses an output or decompresses an input.
#[derive(Clone, Copy, Debug, PartialEq, Eq, Structural)]
pub enum Compression {
    GZIP,
    BZIP2,
    LZ4,
}

/// A part of a record that can be written as a field.
#[derive(Clone, Copy, Debug, PartialEq, Eq, Structural)]
pub enum Attribute {
    Id,
    Desc,
    Sequence,
}

/// The attribute that a field name stands for.
pub open spec fn attribute_named(name: Seq<char>) -> Option<Attribute> {
    if name == "id"@ {
        Some(Attribute::Id)
    } else if name == "desc"@ {
        Some(Attribute::Desc)
    } else if name == "seq"@ {
        Some(Attribute::Sequence)
    } else {
        None
    }
}

impl Attribute {
    /// The attribute with this name: `id`, `desc` or `seq`.
    pub fn from_str(name: &str) -> (attr: Option<Attribute>)
        ensures
            attr == attribute_named(name@),
    {
        let name = name.to_owned();
        if name == String::from_str("id") {
            Some(Attribute::Id)
        } else if name == String::from_str("desc") {
            Some(Attribute::Desc)
        } else if name == String::from_str("seq") {
            Some(Attribute::Sequence)
        } else {
            None
        }
    }
}

/// What a record holds for an attribute. A record without a description has
/// an empty one.
pub open spec fn attr_value<R: Record>(record: &R, attr: Attribute) -> Seq<u8> {
    match attr {
        Attribute::Id => record.id_part(),
        Attribute::Desc => match record.desc_part() {
            Some(d) => d,
            None => Seq::empty(),
        },
        Attribute::Sequence => record.seq_bytes(),
    }
}

/// Copies what a record holds for an attribute.
pub fn read_attr<R: Record>(record: &R, attr: Attribute) -> (value: Vec<u8>)
    ensures
        value@ == attr_value(record, attr),
{
    match attr {
        Attribute::Id => vstd::slice::slice_to_vec(record.id_bytes()),
        Attribute::Desc => match record.desc_bytes() {
            Some(d) => vstd::slice::slice_to_vec(d),
            None => Vec::new(),
        },
        Attribute::Sequence => vstd::slice::slice_to_vec(record.raw_seq()),
    }
}

/// The header of a record as the record holds it: whole, or split into the
/// identifier and the description.
pub enum SeqHeader<'a> {
    IdDesc(&'a [u8], Option<&'a [u8]>),
    FullHeader(&'a [u8]),
}

/// The byte that parts the identifier of a header from its description.
pub const SPACE: u8 = 32;

/// The byte that ends a line.
pub const NEWLINE: u8 = 10;

/// The header line that is made of an identifier and a description: the
/// two joined by a space, or the identifier alone.
pub open spec fn header_line(id: Seq<u8>, desc: Option<Seq<u8>>) -> Seq<u8> {
    match desc {
        Some(d) => id + seq![SPACE] + d,
        None => id,
    }
}

impl<'a> SeqHeader<'a> {
    /// The header as one line.
    pub open spec fn line(&self) -> Seq<u8> {
        match self {
            SeqHeader::IdDesc(id, desc) => header_line(
                id@,
                match desc {
                    Some(d) => Some(d@),
                    None => None,
                },
            ),
            SeqHeader::FullHeader(h) => h@,
        }
    }
}

/// A size as the machine holds it, or `None` for a size beyond its
/// numbers.
pub open spec fn machine_size(size: nat) -> Option<usize> {
    if size <= usize::MAX {
        Some(size as usize)
    } else {
        None
    }
}

/// One decoded entry of a sequence file. The data is valid for the step that
/// receives the record; a step that keeps any of it copies it.
pub trait Record {
    /// The header line, without the character that starts a record.
    spec fn head_bytes(&self) -> Seq<u8>;

    /// The identifier: the header up to its delimiter.
    spec fn id_part(&self) -> Seq<u8>;

    /// The description: the header after its delimiter, if it has one.
    spec fn desc_part(&self) -> Option<Seq<u8>>;

    /// The sequence, as it stands in the source.
    spec fn seq_bytes(&self) -> Seq<u8>;

    /// The qualities, if the format has them.
    spec fn qual_bytes(&self) -> Option<Seq<u8>>;

    /// The number of bytes that the record takes in its source.
    spec fn raw_size(&self) -> nat;

    /// The number of bytes that the record takes in its source, or `None`
    /// if that is beyond the machine's numbers.
    fn raw_len(&self) -> (n: Option<usize>)
        ensures
            n == machine_size(self.raw_size()),
    ;

    fn id_bytes(&self) -> (id: &[u8])
        ensures
            id@ == self.id_part(),
    ;

    fn desc_bytes(&self) -> (desc: Option<&[u8]>)
        ensures
            desc is Some == self.desc_part() is Some,
            desc matches Some(d) ==> d@ == self.desc_part()->Some_0,
    ;

    fn id_desc_bytes(&self) -> (parts: (&[u8], Option<&[u8]>))
        ensures
            parts.0@ == self.id_part(),
            parts.1 is Some == self.desc_part() is Some,
            parts.1 matches Some(d) ==> d@ == self.desc_part()->Some_0,
    ;

    fn get_header(&self) -> (header: SeqHeader<'_>)
        ensures
            header.line() == self.head_bytes(),
    ;

    fn raw_seq(&self) -> (seq: &[u8])
        ensures
            seq@ == self.seq_bytes(),
    ;

    /// Whether the sequence in the source is broken into lines.
    fn has_seq_lines(&self) -> bool;

    fn qual(&self) -> (qual: Option<&[u8]>)
        ensures
            qual is Some == self.qual_bytes() is Some,
            qual matches Some(q) ==> q@ == self.qual_bytes()->Some_0,
    ;
}

/// The bytes of a part that a record may lack.
pub open spec fn bytes_of(part: Option<Vec<u8>>) -> Option<Seq<u8>> {
    match part {
        Some(bytes) => Some(bytes@),
        None => None,
    }
}

/// The number of bytes that the parts of a record take in a file: each part
/// with the one byte that ends it.
pub open spec fn row_size(
    id: Seq<u8>,
    desc: Option<Seq<u8>>,
    seq: Seq<u8>,
    qual: Option<Seq<u8>>,
) -> nat {
    id.len() + 1 + match desc {
        Some(d) => d.len() + 1,
        None => 0,
    } + seq.len() + 1 + match qual {
        Some(q) => q.len() + 1,
        None => 0,
    }
}

/// A record that holds its data itself, with the identifier and the
/// description apart, as delimited text has them.
pub struct OwnedRecord {
    id: Vec<u8>,
    desc: Option<Vec<u8>>,
    seq: Vec<u8>,
    qual: Option<Vec<u8>>,
}

impl OwnedRecord {
    /// The record of the parts that a parser yielded for a source, if it is
    /// within the ceiling of the source. A record above the ceiling is an
    /// error that names the source, the record's size and the ceiling.
    pub fn read(
        opts: &InputOptions,
        id: Vec<u8>,
        desc: Option<Vec<u8>>,
        seq: Vec<u8>,
        qual: Option<Vec<u8>>,
    ) -> (r: Result<OwnedRecord, CliError>)
        ensures
            r is Ok <==> row_size(id@, bytes_of(desc), seq@, bytes_of(qual)) <= opts.max_mem,
            match r {
                Ok(rec) => rec.raw_size() <= opts.max_mem && rec.id_part() == id@
                    && rec.desc_part() == bytes_of(desc) && rec.seq_bytes() == seq@
                    && rec.qual_bytes() == bytes_of(qual),
                Err(e) => e is Other && e.text() == over_ceiling(
                    opts.spec_name(),
                    shown_size(row_size(id@, bytes_of(desc), seq@, bytes_of(qual))),
                    opts.max_mem as nat,
                ),
            },
    {
        let with_id = add_sizes(Some(id.len()), 1);
        let with_desc = match &desc {
            Some(d) => add_sizes(add_sizes(with_id, d.len()), 1),
            None => with_id,
        };
        let with_seq = add_sizes(add_sizes(with_desc, seq.len()), 1);
        let size = match &qual {
            Some(q) => add_sizes(add_sizes(with_seq, q.len()), 1),
            None => with_seq,
        };
        match opts.fit(size) {
            Ok(_) => Ok(OwnedRecord::new(id, desc, seq, qual)),
            Err(e) => Err(e),
        }
    }

    /// A record of its parts.
    pub fn new(id: Vec<u8>, desc: Option<Vec<u8>>, seq: Vec<u8>, qual: Option<Vec<u8>>) -> (rec:
        OwnedRecord)
        ensures
            rec.id_part() == id@,
            rec.desc_part() == match desc {
                Some(d) => Some(d@),
                None => None,
            },
            rec.seq_bytes() == seq@,
            rec.qual_bytes() == match qual {
                Some(q) => Some(q@),
                None => None,
            },
    {
        OwnedRecord { id, desc, seq, qual }
    }
}

impl Record for OwnedRecord {
    open spec fn head_bytes(&self) -> Seq<u8> {
        header_line(self.id_part(), self.desc_part())
    }

    /// The parts of the record, each with the one byte that ends it.
    open spec fn raw_size(&self) -> nat {
        row_size(self.id_part(), self.desc_part(), self.seq_bytes(), self.qual_bytes())
    }

    fn raw_len(&self) -> (n: Option<usize>) {
        let with_id = add_sizes(Some(self.id.len()), 1);
        let with_desc = match &self.desc {
            Some(d) => add_sizes(add_sizes(with_id, d.len()), 1),
            None => with_id,
        };
        let with_seq = add_sizes(add_sizes(with_desc, self.seq.len()), 1);
        match &self.qual {
            Some(q) => add_sizes(add_sizes(with_seq, q.len()), 1),
            None => with_seq,
        }
    }

    closed spec fn id_part(&self) -> Seq<u8> {
        self.id@
    }

    closed spec fn desc_part(&self) -> Option<Seq<u8>> {
        match self.desc {
            Some(d) => Some(d@),
            None => None,
        }
    }

    closed spec fn seq_bytes(&self) -> Seq<u8> {
        self.seq@
    }

    closed spec fn qual_bytes(&self) -> Option<Seq<u8>> {
        match self.qual {
            Some(q) => Some(q@),
            None => None,
        }
    }

    fn id_bytes(&self) -> (id: &[u8]) {
        self.id.as_slice()
    }

    fn desc_bytes(&self) -> (desc: Option<&[u8]>) {
        match &self.desc {
            Some(d) => Some(d.as_slice()),
            None => None,
        }
    }

    fn id_desc_bytes(&self) -> (parts: (&[u8], Option<&[u8]>)) {
        (self.id_bytes(), self.desc_bytes())
    }

    fn get_header(&self) -> (header: SeqHeader<'_>) {
        SeqHeader::IdDesc(self.id_bytes(), self.desc_bytes())
    }

    fn raw_seq(&self) -> (seq: &[u8]) {
        self.seq.as_slice()
    }

    fn has_seq_lines(&self) -> (lines: bool)
        ensures
            !lines,
    {
        false
    }

    fn qual(&self) -> (qual: Option<&[u8]>) {
        match &self.qual {
            Some(q) => Some(q.as_slice()),
            None => None,
        }
    }
}

} // verus!
