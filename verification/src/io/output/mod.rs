//! Output: what is written, in which format, and how the bytes reach their
//! destination.

pub mod csv;

use crate::error::CliError;
use crate::io::Attribute;
use crate::io::attribute_named;
use crate::io::Compression;
use crate::io::fasta::fasta_text;
use crate::io::fasta::FastaWriter;
use crate::io::fastq::fastq_text;
use crate::io::fastq::FastqWriter;
use crate::io::output::csv::all_attributes;
use crate::io::output::csv::attributes;
use crate::io::output::csv::compiles_to;
use crate::io::output::csv::csv_record;
use crate::io::output::csv::CsvWriter;
use crate::io::output::csv::Field;
use crate::io::output::csv::field_of;
use crate::io::output::csv::fields_of;
use crate::io::output::csv::is_row;
use crate::io::output::csv::lemma_row_of_attributes;
use crate::io::output::csv::row_of;
use crate::io::Record;
use crate::io::SPACE;
use vstd::prelude::*;
use vstd::slice::slice_to_vec;
use vstd::utf8::encode_utf8;

verus! {

/// Where the output goes, in which format, and how it is sent there.
#[derive(Clone, Debug)]
pub struct OutputOptions {
    pub kind: OutputKind,
    pub format: OutFormat,
    pub compression: Option<Compression>,
    /// Whether a background thread does the writing.
    pub threaded: bool,
}

impl Default for OutputOptions {
    /// Uncompressed FASTA without attributes and without line wrapping, to
    /// the standard output, written by the calling thread.
    fn default() -> (o: OutputOptions)
        ensures
            o.kind is Stdout,
            o.format matches OutFormat::FASTA(props, wrap) && props@.len() == 0 && wrap is None,
            o.compression is None,
            !o.threaded,
    {
        OutputOptions {
            kind: OutputKind::Stdout,
            format: OutFormat::FASTA(Vec::new(), None),
            compression: None,
            threaded: false,
        }
    }
}

/// The destination of the output: the standard output, or the file with
/// this path.
#[derive(Eq, PartialEq, Debug, Clone)]
pub enum OutputKind {
    Stdout,
    File(String),
}

/// The format of the output.
#[derive(Eq, PartialEq, Debug, Clone)]
pub enum OutFormat {
    /// FASTA with the attributes (name and value) that are added to each
    /// header, and the width at which sequence lines are wrapped.
    FASTA(Vec<(String, String)>, Option<usize>),
    /// FASTQ with the attributes that are added to each header.
    FASTQ(Vec<(String, String)>),
    /// Delimited text with this delimiter and these fields.
    CSV(u8, Vec<String>),
}

/// The delimiter of tab-separated text.
pub const TAB: u8 = 9;

/// The attributes that a list of field names stands for; a name that
/// stands for none counts as the identifier.
pub open spec fn attributes_of(fields: Seq<Seq<char>>) -> Seq<Attribute> {
    Seq::new(
        fields.len(),
        |i: int|
            match attribute_named(fields[i]) {
                Some(a) => a,
                None => Attribute::Id,
            },
    )
}

impl OutFormat {
    /// The bytes that a record takes in output of this format: the record
    /// as FASTA or FASTQ with the attributes added to its header, or the
    /// line of its fields.
    pub open spec fn text_of<R: Record>(&self, record: &R) -> Seq<u8> {
        match self {
            OutFormat::FASTA(props, wrap) => fasta_text(
                record.head_bytes() + props_text(props@),
                record.seq_bytes(),
                *wrap,
            ),
            OutFormat::FASTQ(props) => fastq_text(
                record.head_bytes() + props_text(props@),
                record.seq_bytes(),
                record.qual_bytes()->Some_0,
            ),
            OutFormat::CSV(delim, fields) => csv_record(
                *delim,
                row_of(record, attributes_of(fields.deep_view())),
            ),
        }
    }

    /// The bytes that a sequence of records takes in output of this format.
    pub open spec fn texts_of<R: Record>(&self, records: Seq<R>) -> Seq<u8>
        decreases records.len(),
    {
        if records.len() == 0 {
            Seq::empty()
        } else {
            self.texts_of(records.drop_last()) + self.text_of(&records.last())
        }
    }

    /// Whether the output is filled from the records alone: for delimited
    /// text, whether every field names an attribute, so that no variable or
    /// expression needs to be compiled.
    pub open spec fn is_plain(&self) -> bool {
        match self {
            OutFormat::CSV(_, fields) => forall|i: int|
                0 <= i < fields.deep_view().len() ==> attribute_named(
                    #[trigger] fields.deep_view()[i],
                ) is Some,
            _ => true,
        }
    }

    /// The file extension that goes with the format.
    pub open spec fn spec_default_ext(&self) -> Seq<char> {
        match self {
            OutFormat::FASTA(..) => "fasta"@,
            OutFormat::FASTQ(..) => "fastq"@,
            OutFormat::CSV(delim, _) => if *delim == TAB {
                "txt"@
            } else {
                "csv"@
            },
        }
    }

    /// The file extension that goes with the format: `txt` for delimited
    /// text with a tab as delimiter, `csv` with any other.
    pub fn default_ext(&self) -> (ext: &'static str)
        ensures
            ext@ == self.spec_default_ext(),
    {
        match *self {
            OutFormat::FASTA(..) => "fasta",
            OutFormat::FASTQ(..) => "fastq",
            OutFormat::CSV(delim, _) => if delim == TAB {
                "txt"
            } else {
                "csv"
            },
        }
    }
}

/// The size of the buffer that is handed to a background writer.
pub const THREAD_BUFSIZE: usize = 4194304;

/// The number of buffers that may wait for a background writer.
pub const THREAD_QUEUE_LEN: usize = 4;

/// How the bytes of the output reach their destination.
pub enum Sink {
    /// Nothing is written anywhere.
    Discard,
    /// The calling thread writes to the destination.
    Direct(OutputKind),
    /// A background thread owns the destination and compresses, if asked
    /// to. The caller hands it buffers of `bufsize` bytes, and waits while
    /// `queue_len` of them are not yet written.
    Threaded { kind: OutputKind, compression: Option<Compression>, bufsize: usize, queue_len: usize },
}

/// A copy of a destination.
fn clone_kind(kind: &OutputKind) -> (copy: OutputKind)
    ensures
        copy == *kind,
{
    match kind {
        OutputKind::Stdout => OutputKind::Stdout,
        OutputKind::File(path) => OutputKind::File(path.clone()),
    }
}

impl Sink {
    /// How output reaches the destination `kind`: through a background
    /// thread if it is compressed or a thread was asked for, and else
    /// directly.
    pub open spec fn spec_for_output(
        kind: OutputKind,
        compr: Option<Compression>,
        threaded: bool,
    ) -> Sink {
        if compr is Some || threaded {
            Sink::Threaded {
                kind,
                compression: compr,
                bufsize: THREAD_BUFSIZE,
                queue_len: THREAD_QUEUE_LEN,
            }
        } else {
            Sink::Direct(kind)
        }
    }

    /// How output with these options reaches its destination. Without
    /// options there is no output.
    pub open spec fn spec_plan(opts: Option<&OutputOptions>) -> Sink {
        match opts {
            None => Sink::Discard,
            Some(o) => Sink::spec_for_output(o.kind, o.compression, o.threaded),
        }
    }

    /// How output with these options reaches its destination.
    pub fn plan(opts: Option<&OutputOptions>) -> (sink: Sink)
        ensures
            sink == Sink::spec_plan(opts),
    {
        match opts {
            None => Sink::Discard,
            Some(o) => sink_for(&o.kind, o.compression, o.threaded),
        }
    }
}

/// How output reaches the destination `kind`.
fn sink_for(kind: &OutputKind, compr: Option<Compression>, threaded: bool) -> (sink: Sink)
    ensures
        sink == Sink::spec_for_output(*kind, compr, threaded),
{
    if compr.is_some() || threaded {
        Sink::Threaded {
            kind: clone_kind(kind),
            compression: compr,
            bufsize: THREAD_BUFSIZE,
            queue_len: THREAD_QUEUE_LEN,
        }
    } else {
        Sink::Direct(clone_kind(kind))
    }
}

/// The gzip stream that `flate2` makes of some bytes at its default level.
pub uninterp spec fn gzip_stream(data: Seq<u8>) -> Seq<u8>;

/// The bzip2 stream that `bzip2` makes of some bytes at its default level.
pub uninterp spec fn bzip2_stream(data: Seq<u8>) -> Seq<u8>;

/// The LZ4 frame that `lz4` makes of some bytes with its default settings.
pub uninterp spec fn lz4_frame(data: Seq<u8>) -> Seq<u8>;

/// `flate2::write::GzEncoder` at the default level, over a byte vector: all
/// of `data` is written to it and it is finished, which gives the compressed
/// stream.
#[verifier::external_body]
fn gzip_bytes(data: &[u8]) -> (r: Result<Vec<u8>, std::io::Error>)
    ensures
        r matches Ok(out) ==> out@ == gzip_stream(data@),
{
    let mut encoder = flate2::write::GzEncoder::new(Vec::new(), flate2::Compression::default());
    std::io::Write::write_all(&mut encoder, data)?;
    encoder.finish()
}

/// `bzip2::write::BzEncoder` at the default level, over a byte vector: all of
/// `data` is written to it and it is finished, which gives the compressed
/// stream.
#[verifier::external_body]
fn bzip2_bytes(data: &[u8]) -> (r: Result<Vec<u8>, std::io::Error>)
    ensures
        r matches Ok(out) ==> out@ == bzip2_stream(data@),
{
    let mut encoder = bzip2::write::BzEncoder::new(Vec::new(), bzip2::Compression::default());
    std::io::Write::write_all(&mut encoder, data)?;
    encoder.finish()
}

/// `lz4::EncoderBuilder::build` with the builder's defaults, over a byte
/// vector: all of `data` is written to the encoder and it is finished, which
/// gives the compressed frame.
#[verifier::external_body]
fn lz4_bytes(data: &[u8]) -> (r: Result<Vec<u8>, std::io::Error>)
    ensures
        r matches Ok(out) ==> out@ == lz4_frame(data@),
{
    let mut encoder = lz4::EncoderBuilder::new().build(Vec::new())?;
    std::io::Write::write_all(&mut encoder, data)?;
    let (out, finished) = encoder.finish();
    finished.map(|_| out)
}

/// What a codec makes of some bytes.
pub open spec fn compressed(data: Seq<u8>, compression: Compression) -> Seq<u8> {
    match compression {
        Compression::GZIP => gzip_stream(data),
        Compression::BZIP2 => bzip2_stream(data),
        Compression::LZ4 => lz4_frame(data),
    }
}

/// Compresses a buffer of output with the codec: the buffer becomes one
/// complete stream. If the codec fails, its error is handed on.
pub fn compr_writer(data: &[u8], compression: Compression) -> (r: Result<Vec<u8>, std::io::Error>)
    ensures
        r matches Ok(out) ==> out@ == compressed(data@, compression),
{
    match compression {
        Compression::GZIP => gzip_bytes(data),
        Compression::BZIP2 => bzip2_bytes(data),
        Compression::LZ4 => lz4_bytes(data),
    }
}

/// The byte between the name of an attribute and its value.
pub const EQUALS: u8 = 61;

/// An attribute as it is added to a header: a space, the name, an equals
/// sign and the value.
pub open spec fn prop_text(name: Seq<char>, value: Seq<char>) -> Seq<u8> {
    seq![SPACE] + encode_utf8(name) + seq![EQUALS] + encode_utf8(value)
}

/// The attributes as they are added to a header, in their order.
pub open spec fn props_text(props: Seq<(String, String)>) -> Seq<u8>
    decreases props.len(),
{
    if props.len() == 0 {
        Seq::empty()
    } else {
        props_text(props.drop_last()) + prop_text(props.last().0@, props.last().1@)
    }
}

/// The header line of a record with the attributes added.
pub fn add_props<R: Record>(record: &R, props: &Vec<(String, String)>) -> (line: Vec<u8>)
    ensures
        line@ == record.head_bytes() + props_text(props@),
{
    let header = record.get_header();
    let mut line: Vec<u8> = match header {
        crate::io::SeqHeader::FullHeader(h) => slice_to_vec(h),
        crate::io::SeqHeader::IdDesc(id, desc) => {
            let mut joined = slice_to_vec(id);
            match desc {
                Some(d) => {
                    joined.push(SPACE);
                    joined.extend_from_slice(d);
                    assert(joined@ =~= id@ + seq![SPACE] + d@);
                },
                None => {},
            }
            joined
        },
    };
    let mut i: usize = 0;
    while i < props.len()
        invariant
            i <= props.len(),
            line@ == record.head_bytes() + props_text(props@.take(i as int)),
        decreases props.len() - i,
    {
        let ghost before = line@;
        let name = props[i].0.as_str().as_bytes();
        let value = props[i].1.as_str().as_bytes();
        line.push(SPACE);
        line.extend_from_slice(name);
        line.push(EQUALS);
        line.extend_from_slice(value);
        proof {
            assert(line@ =~= before + prop_text(props@[i as int].0@, props@[i as int].1@));
            assert(props@.take(i + 1).drop_last() == props@.take(i as int));
            assert(before + prop_text(props@[i as int].0@, props@[i as int].1@)
                == record.head_bytes() + props_text(props@.take(i + 1)));
        }
        i = i + 1;
    }
    assert(props@.take(props.len() as int) == props@);
    line
}

/// A copy of a list of attributes.
fn clone_props(props: &Vec<(String, String)>) -> (copy: Vec<(String, String)>)
    ensures
        copy@ == props@,
{
    let mut copy: Vec<(String, String)> = Vec::new();
    let mut i: usize = 0;
    while i < props.len()
        invariant
            i <= props.len(),
            copy@ == props@.take(i as int),
        decreases props.len() - i,
    {
        copy.push((props[i].0.clone(), props[i].1.clone()));
        assert(copy@ =~= props@.take(i + 1));
        i = i + 1;
    }
    assert(props@.take(props.len() as int) == props@);
    copy
}

/// A copy of a list of field names.
fn clone_fields(fields: &Vec<String>) -> (copy: Vec<String>)
    ensures
        copy@ == fields@,
{
    let mut copy: Vec<String> = Vec::new();
    let mut i: usize = 0;
    while i < fields.len()
        invariant
            i <= fields.len(),
            copy@ == fields@.take(i as int),
        decreases fields.len() - i,
    {
        copy.push(fields[i].clone());
        assert(copy@ =~= fields@.take(i + 1));
        i = i + 1;
    }
    assert(fields@.take(fields.len() as int) == fields@);
    copy
}

/// Formats records as bytes in a buffer, in one of the output formats or
/// not at all. `E` is what the caller compiles a variable or expression of
/// delimited text to.
pub enum Writer<E> {
    /// FASTA, with the attributes that are added to each header.
    Fasta(FastaWriter, Vec<(String, String)>),
    /// FASTQ, with the attributes that are added to each header.
    Fastq(FastqWriter, Vec<(String, String)>),
    /// Delimited text.
    Csv(CsvWriter<E>),
    /// Nothing is written.
    NoOutput,
}

impl<E> Writer<E> {
    /// The bytes in the buffer.
    pub open spec fn bytes(&self) -> Seq<u8> {
        match self {
            Writer::Fasta(w, _) => w@,
            Writer::Fastq(w, _) => w@,
            Writer::Csv(w) => w@,
            Writer::NoOutput => Seq::empty(),
        }
    }

    /// Whether two writers are set up alike, whatever their buffers hold.
    pub open spec fn same_setup(&self, other: &Writer<E>) -> bool {
        match (self, other) {
            (Writer::Fasta(a, p), Writer::Fasta(b, q)) => a.wrap() == b.wrap() && p@ == q@,
            (Writer::Fastq(_, p), Writer::Fastq(_, q)) => p@ == q@,
            (Writer::Csv(a), Writer::Csv(b)) => a.delim() == b.delim() && a.fields() == b.fields()
                && a.compiled() == b.compiled(),
            (Writer::NoOutput, Writer::NoOutput) => true,
            _ => false,
        }
    }

    /// Whether the writer is for a format and its settings.
    pub open spec fn has_format(&self, format: &OutFormat) -> bool {
        match (self, format) {
            (Writer::Fasta(w, p), OutFormat::FASTA(props, wrap)) => w.wrap() == *wrap && p@
                == props@,
            (Writer::Fastq(_, p), OutFormat::FASTQ(props)) => p@ == props@,
            (Writer::Csv(w), OutFormat::CSV(delim, fields)) => w.delim() == *delim && w.fields()
                == fields.deep_view(),
            _ => false,
        }
    }

    /// Whether the writer is the one that `from_format` makes for a format:
    /// for the format, with nothing prepared yet.
    pub open spec fn is_for(&self, format: &OutFormat) -> bool {
        self.has_format(format) && (self matches Writer::Csv(w) ==> w.compiled().len() == 0)
    }

    /// Whether a record can be written without anything that fills an
    /// expression: for delimited text, whether every field is an attribute.
    pub open spec fn simple(&self) -> bool {
        match self {
            Writer::Csv(w) => all_attributes(w.compiled()),
            _ => true,
        }
    }

    /// The bytes that a record takes in the output of a writer that writes
    /// from the record alone.
    pub open spec fn text_of<R: Record>(&self, record: &R) -> Seq<u8> {
        match self {
            Writer::Fasta(w, props) => fasta_text(
                record.head_bytes() + props_text(props@),
                record.seq_bytes(),
                w.wrap(),
            ),
            Writer::Fastq(_, props) => fastq_text(
                record.head_bytes() + props_text(props@),
                record.seq_bytes(),
                record.qual_bytes()->Some_0,
            ),
            Writer::Csv(w) => csv_record(w.delim(), row_of(record, attributes(w.compiled()))),
            Writer::NoOutput => Seq::empty(),
        }
    }

    /// The bytes that a sequence of records takes in the output of a writer
    /// that writes from the records alone.
    pub open spec fn texts<R: Record>(&self, records: Seq<R>) -> Seq<u8>
        decreases records.len(),
    {
        if records.len() == 0 {
            Seq::empty()
        } else {
            self.texts(records.drop_last()) + self.text_of(&records.last())
        }
    }

    /// Writers that are set up alike write the same for the same records.
    pub proof fn lemma_same_texts<R: Record>(&self, other: &Writer<E>, records: Seq<R>)
        requires
            self.same_setup(other),
        ensures
            self.texts(records) == other.texts(records),
            self.simple() == other.simple(),
        decreases records.len(),
    {
        if records.len() > 0 {
            self.lemma_same_texts(other, records.drop_last());
        }
    }

    /// A prepared writer for a plain format writes records as the format
    /// says.
    pub proof fn lemma_texts_of<R: Record>(&self, format: &OutFormat, records: Seq<R>)
        requires
            self.has_format(format),
            self.registered(),
        ensures
            self.texts(records) == format.texts_of(records),
        decreases records.len(),
    {
        if records.len() > 0 {
            self.lemma_texts_of(format, records.drop_last());
            self.lemma_text_of(format, &records.last());
        }
    }

    /// Whether `added` is what a record takes in the output: for delimited
    /// text the line of a row in which each field holds the value of its
    /// attribute or what `fill` makes of its expression, and else the record
    /// in the writer's format.
    pub open spec fn wrote<R: Record, F: Fn(&E, &R) -> Vec<u8>>(
        &self,
        fill: F,
        record: &R,
        added: Seq<u8>,
    ) -> bool {
        match self {
            Writer::Csv(w) => exists|row: Seq<Seq<u8>>|
                is_row(fill, w.compiled(), record, row) && added == #[trigger] csv_record(
                    w.delim(),
                    row,
                ),
            _ => added == self.text_of(record),
        }
    }

    /// Whether the fields of the writer were prepared with `compile`: for
    /// delimited text, whether each field is the attribute that it names or
    /// else what `compile` made of it.
    pub open spec fn registered_by<C: Fn(&str) -> Result<E, CliError>>(&self, compile: C) -> bool {
        match self {
            Writer::Csv(w) => fields_of(compile, w.fields(), w.compiled()),
            _ => true,
        }
    }

    /// Whether the fields of the writer were prepared and all name
    /// attributes.
    pub open spec fn registered(&self) -> bool {
        match self {
            Writer::Csv(w) => w.compiled().len() == w.fields().len() && forall|i: int|
                0 <= i < w.fields().len() ==> attribute_named(w.fields()[i]) is Some
                    && #[trigger] w.compiled()[i] == Field::<E>::Attribute(
                    attribute_named(w.fields()[i])->Some_0,
                ),
            _ => true,
        }
    }

    /// Whether two writers are for the same format and settings, whatever
    /// was prepared and whatever their buffers hold.
    pub open spec fn same_format(&self, other: &Writer<E>) -> bool {
        match (self, other) {
            (Writer::Fasta(a, p), Writer::Fasta(b, q)) => a.wrap() == b.wrap() && p@ == q@,
            (Writer::Fastq(_, p), Writer::Fastq(_, q)) => p@ == q@,
            (Writer::Csv(a), Writer::Csv(b)) => a.delim() == b.delim() && a.fields() == b.fields(),
            (Writer::NoOutput, Writer::NoOutput) => true,
            _ => false,
        }
    }

    /// Whether the fields of the writer all name attributes, so that
    /// nothing needs to be compiled.
    pub open spec fn plain(&self) -> bool {
        match self {
            Writer::Csv(w) => w.plain(),
            _ => true,
        }
    }

    /// A writer for a plain format whose fields were prepared, with
    /// whatever, has every field as the attribute that its name stands for.
    pub proof fn lemma_plain_registered<C: Fn(&str) -> Result<E, CliError>>(
        &self,
        compile: C,
        format: &OutFormat,
    )
        requires
            self.has_format(format),
            format.is_plain(),
            self.registered_by(compile),
        ensures
            self.registered(),
            self.simple(),
    {
        match (self, format) {
            (Writer::Csv(w), OutFormat::CSV(_, fields)) => {
                assert forall|i: int| 0 <= i < w.fields().len() implies attribute_named(
                    w.fields()[i],
                ) is Some && #[trigger] w.compiled()[i] == Field::<E>::Attribute(
                    attribute_named(w.fields()[i])->Some_0,
                ) by {
                    assert(attribute_named(fields.deep_view()[i]) is Some);
                    assert(field_of(compile, w.fields()[i], w.compiled()[i]));
                }
            },
            _ => {},
        }
    }

    /// A prepared writer for a plain format writes each record as the
    /// format says.
    pub proof fn lemma_text_of<R: Record>(&self, format: &OutFormat, record: &R)
        requires
            self.has_format(format),
            self.registered(),
        ensures
            self.simple(),
            self.text_of(record) == format.text_of(record),
    {
        match (self, format) {
            (Writer::Csv(w), OutFormat::CSV(_, fields)) => {
                assert(attributes(w.compiled()) =~= attributes_of(fields.deep_view()));
            },
            _ => {},
        }
    }

    /// Whether `e` is an error with which `compile` may refuse one of the
    /// fields of the writer that name no attribute.
    pub open spec fn refused_by<C: Fn(&str) -> Result<E, CliError>>(
        &self,
        compile: C,
        e: CliError,
    ) -> bool {
        match self {
            Writer::Csv(w) => exists|i: int|
                0 <= i < w.fields().len() && attribute_named(#[trigger] w.fields()[i]) is None
                    && compiles_to(compile, w.fields()[i], Err::<E, CliError>(e)),
            _ => false,
        }
    }

    /// Prepares the fields of delimited text: a field that names an
    /// attribute becomes that attribute, and any other field is handed to
    /// `compile` as a variable or expression. It fails with the error of the
    /// first field that `compile` refuses. The other formats need no
    /// preparation.
    pub fn register_vars<C>(&mut self, compile: &C) -> (r: Result<(), CliError>) where
        C: Fn(&str) -> Result<E, CliError>,

        requires
            forall|f: &str| compile.requires((f,)),
        ensures
            final(self).bytes() == old(self).bytes(),
            final(self).same_format(old(self)),
            old(self).plain() ==> r is Ok,
            match r {
                Ok(_) => final(self).registered_by(*compile),
                Err(e) => old(self).refused_by(*compile, e),
            },
    {
        match self {
            Writer::Csv(w) => w.register_vars(compile),
            _ => Ok(()),
        }
    }

    /// Whether the output has fields that are filled from each record.
    pub fn has_vars(&self) -> (b: bool)
        ensures
            b == match self {
                Writer::Fasta(_, props) => props@.len() > 0,
                Writer::Fastq(_, props) => props@.len() > 0,
                Writer::Csv(w) => w.fields().len() > 0,
                Writer::NoOutput => false,
            },
    {
        match self {
            Writer::Fasta(_, props) => !(props.len() == 0),
            Writer::Fastq(_, props) => !(props.len() == 0),
            Writer::Csv(w) => w.has_vars(),
            Writer::NoOutput => false,
        }
    }

    /// Appends a record in the writer's format; `fill` gives the value of a
    /// compiled variable or expression for the record. FASTA, delimited
    /// text and no output always succeed; FASTQ fails for a record without
    /// qualities, and only then. Where it fails, nothing is appended.
    pub fn write<R: Record, F>(&mut self, record: &R, fill: &F) -> (r: Result<(), CliError>) where
        F: Fn(&E, &R) -> Vec<u8>,

        requires
            forall|e: &E, rec: &R| fill.requires((e, rec)),
        ensures
            final(self).same_setup(old(self)),
            match r {
                Ok(_) => exists|added: Seq<u8>|
                    #[trigger] old(self).wrote(*fill, record, added) && final(self).bytes() == old(
                        self,
                    ).bytes() + added,
                Err(_) => final(self).bytes() == old(self).bytes(),
            },
            old(self).simple() && r is Ok ==> final(self).bytes() == old(self).bytes() + old(
                self,
            ).text_of(record),
            *old(self) is Fastq ==> (r is Ok <==> record.qual_bytes() is Some),
            !(*old(self) is Fastq) ==> r is Ok,
    {
        let ghost before = *self;
        let r = match self {
            Writer::Fasta(w, props) => {
                if props.len() == 0 {
                    assert(record.head_bytes() + props_text(props@) == record.head_bytes());
                    w.write(record)
                } else {
                    let head = add_props(record, props);
                    w.write_with_head(head.as_slice(), record)
                }
            },
            Writer::Fastq(w, props) => {
                if props.len() == 0 {
                    assert(record.head_bytes() + props_text(props@) == record.head_bytes());
                    w.write(record)
                } else {
                    let head = add_props(record, props);
                    w.write_with_head(head.as_slice(), record)
                }
            },
            Writer::Csv(w) => {
                let ghost start = w@;
                let r = w.write(record, fill);
                proof {
                    let row = choose|row: Seq<Seq<u8>>|
                        is_row(*fill, w.compiled(), record, row) && w@ == start
                            + #[trigger] csv_record(w.delim(), row);
                    if all_attributes(w.compiled()) {
                        lemma_row_of_attributes(*fill, w.compiled(), record, row);
                    }
                    assert(before.wrote(*fill, record, csv_record(w.delim(), row)));
                }
                r
            },
            Writer::NoOutput => {
                assert(old(self).bytes() + old(self).text_of(record) == old(self).bytes());
                Ok(())
            },
        };
        proof {
            if r is Ok && !(before is Csv) {
                assert(before.wrote(*fill, record, before.text_of(record)));
            }
        }
        r
    }

    /// Takes the bytes written so far out of the buffer, which is empty
    /// afterwards. A caller that sends the output on in pieces does this
    /// between records.
    pub fn take_bytes(&mut self) -> (bytes: Vec<u8>)
        ensures
            bytes@ == old(self).bytes(),
            final(self).bytes().len() == 0,
            final(self).same_setup(old(self)),
    {
        match self {
            Writer::Fasta(w, _) => w.take(),
            Writer::Fastq(w, _) => w.take(),
            Writer::Csv(w) => w.take(),
            Writer::NoOutput => Vec::new(),
        }
    }

    /// Gives the buffer back.
    pub fn into_inner(self) -> (inner: Vec<u8>)
        ensures
            inner@ == self.bytes(),
    {
        let inner = match self {
            Writer::Fasta(w, _) => w.into_inner(),
            Writer::Fastq(w, _) => w.into_inner(),
            Writer::Csv(w) => w.into_inner(),
            Writer::NoOutput => None,
        };
        match inner {
            Some(Ok(bytes)) => bytes,
            _ => Vec::new(),
        }
    }
}

/// The step relation of writing records one after the other: each record
/// is appended as `Writer::wrote` says, the writer stays set up as it was,
/// and the only failure is a record without qualities for FASTQ output.
pub open spec fn write_rel<R: Record, E, F: Fn(&E, &R) -> Vec<u8>>(fill: F) -> spec_fn(
    R,
    Writer<E>,
    Result<(Writer<E>, bool), CliError>,
) -> bool {
    |rec: R, w: Writer<E>, out: Result<(Writer<E>, bool), CliError>|
        match out {
            Ok((next, go)) => go && next.same_setup(&w) && exists|added: Seq<u8>|
                #[trigger] w.wrote(fill, &rec, added) && next.bytes() == w.bytes() + added,
            Err(_) => w is Fastq && rec.qual_bytes() is None,
        }
}

/// The writer for a format, appending to `io_writer`.
pub fn from_format<E>(io_writer: Vec<u8>, format: &OutFormat) -> (r: Result<Writer<E>, CliError>)
    ensures
        r matches Ok(w) && w.is_for(format) && w.bytes() == io_writer@,
{
    Ok(
        match format {
            OutFormat::FASTA(props, wrap) => {
                Writer::Fasta(FastaWriter::new(io_writer, *wrap), clone_props(props))
            },
            OutFormat::FASTQ(props) => { Writer::Fastq(FastqWriter::new(io_writer), clone_props(props)) },
            OutFormat::CSV(delim, fields) => {
                let copy = clone_fields(fields);
                assert(copy.deep_view() == fields.deep_view());
                Writer::Csv(CsvWriter::new(io_writer, copy, *delim))
            },
        },
    )
}

/// What a run with output hands back: the value of the caller's function, the
/// bytes that were written, and how they are to reach their destination.
pub struct Written<O> {
    pub value: O,
    pub bytes: Vec<u8>,
    pub sink: Sink,
}

/// Whether `w` is the writer that a run with these options starts with: the
/// one for the format with an empty buffer, or no output without options.
pub open spec fn starts_with<E>(w: &Writer<E>, opts: Option<&OutputOptions>) -> bool {
    &&& w.bytes().len() == 0
    &&& match opts {
        Some(o) => w.is_for(&o.format),
        None => w is NoOutput,
    }
}

/// Runs `func` with the writer for the output options, or with a writer that
/// writes nothing if there are none, and hands back what `func` returns
/// together with the bytes in the writer that `func` gives back and the way
/// they are to be sent. An error of `func` is the error of the run.
pub fn writer<F, O, E>(opts: Option<&OutputOptions>, func: F) -> (r: Result<Written<O>, CliError>) where
    F: FnOnce(Writer<E>) -> Result<(Writer<E>, O), CliError>,

    requires
        forall|w: Writer<E>| starts_with(&w, opts) ==> func.requires((w,)),
    ensures
        match r {
            Ok(written) => written.sink == Sink::spec_plan(opts) && exists|w: Writer<E>, end: Writer<E>|
                starts_with(&w, opts) && #[trigger] func.ensures((w,), Ok((end, written.value)))
                    && written.bytes@ == end.bytes(),
            Err(e) => exists|w: Writer<E>|
                starts_with(&w, opts) && #[trigger] func.ensures((w,), Err(e)),
        },
{
    let start = match opts {
        Some(o) => match from_format(Vec::new(), &o.format) {
            Ok(w) => w,
            Err(e) => {
                return Err(e);
            },
        },
        None => Writer::NoOutput,
    };
    let ghost first = start;
    assert(starts_with(&first, opts));
    let out = func(start);
    assert(func.ensures((first,), out));
    match out {
        Ok((end, value)) => {
            let ghost last = end;
            let written = Written { value, bytes: end.into_inner(), sink: Sink::plan(opts) };
            assert(func.ensures((first,), Ok((last, written.value))));
            assert(written.bytes@ == last.bytes());
            assert(written.sink == Sink::spec_plan(opts));
            Ok(written)
        },
        Err(e) => Err(e),
    }
}

/// Runs `func` with an empty byte buffer for the destination `kind` and
/// hands back what `func` returns together with the buffer that `func` gives
/// back and the way its bytes are to be sent: through a background thread
/// if the output is compressed or a thread was asked for, and else directly.
pub fn io_writer_compr<F, O>(
    kind: &OutputKind,
    compr: Option<Compression>,
    threaded: bool,
    func: F,
) -> (r: Result<Written<O>, CliError>) where F: FnOnce(Vec<u8>) -> Result<(Vec<u8>, O), CliError>
    requires
        forall|b: Vec<u8>| b@.len() == 0 ==> func.requires((b,)),
    ensures
        match r {
            Ok(written) => written.sink == Sink::spec_for_output(*kind, compr, threaded)
                && exists|b: Vec<u8>|
                b@.len() == 0 && #[trigger] func.ensures((b,), Ok((written.bytes, written.value))),
            Err(e) => exists|b: Vec<u8>| b@.len() == 0 && #[trigger] func.ensures((b,), Err(e)),
        },
{
    let start: Vec<u8> = Vec::new();
    let ghost first = start;
    let out = func(start);
    assert(func.ensures((first,), out));
    match out {
        Ok((bytes, value)) => {
            let written = Written { value, bytes, sink: sink_for(kind, compr, threaded) };
            assert(func.ensures((first,), Ok((written.bytes, written.value))));
            Ok(written)
        },
        Err(e) => Err(e),
    }
}

/// Runs `func` with an empty byte buffer and hands back what `func` returns
/// together with the buffer that `func` gives back and the way its bytes are
/// to be sent. Without options the bytes are dropped.
pub fn io_writer<F, O>(opts: Option<&OutputOptions>, func: F) -> (r: Result<Written<O>, CliError>) where
    F: FnOnce(Vec<u8>) -> Result<(Vec<u8>, O), CliError>,

    requires
        forall|b: Vec<u8>| b@.len() == 0 ==> func.requires((b,)),
    ensures
        match r {
            Ok(written) => written.sink == Sink::spec_plan(opts) && exists|b: Vec<u8>, end: Vec<u8>|
                b@.len() == 0 && #[trigger] func.ensures((b,), Ok((end, written.value)))
                    && written.bytes@ == if opts is Some {
                    end@
                } else {
                    Seq::empty()
                },
            Err(e) => exists|b: Vec<u8>| b@.len() == 0 && #[trigger] func.ensures((b,), Err(e)),
        },
{
    match opts {
        Some(o) => {
            let r = io_writer_compr(&o.kind, o.compression, o.threaded, func);
            proof {
                if r is Ok {
                    let written = r->Ok_0;
                    let b = choose|b: Vec<u8>|
                        b@.len() == 0 && #[trigger] func.ensures(
                            (b,),
                            Ok((written.bytes, written.value)),
                        );
                    assert(func.ensures((b,), Ok((written.bytes, written.value))));
                }
            }
            r
        },
        None => {
            let start: Vec<u8> = Vec::new();
            let ghost first = start;
            let out = func(start);
            assert(func.ensures((first,), out));
            match out {
                Ok((end, value)) => {
                    let ghost last = end;
                    let written = Written { value, bytes: Vec::new(), sink: Sink::Discard };
                    assert(func.ensures((first,), Ok((last, written.value))));
                    Ok(written)
                },
                Err(e) => Err(e),
            }
        },
    }
}

} // verus!
