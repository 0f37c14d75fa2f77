//! The writer of delimited text.

use crate::error::CliError;
use crate::io::attr_value;
use crate::io::Attribute;
use crate::io::attribute_named;
use crate::io::read_attr;
use crate::io::Record;
use vstd::prelude::*;

verus! {

#[verifier::external_type_specification]
#[verifier::external_body]
pub struct ExCsvError(csv::Error);

/// The line that the `csv` crate writes for one record with the given
/// delimiter and its other settings at their defaults: the fields, quoted
/// where they need it, and the line's end.
pub uninterp spec fn csv_record(delim: u8, fields: Seq<Seq<u8>>) -> Seq<u8>;

/// The byte strings that a row holds.
pub open spec fn row_view(row: Seq<Vec<u8>>) -> Seq<Seq<u8>> {
    Seq::new(row.len(), |i: int| row[i]@)
}

/// `csv::Writer::write_record` on a writer of its own, made by
/// `csv::WriterBuilder` with the delimiter set, and `into_inner`, which
/// flushes: the bytes of the one record. The first record of a writer sets
/// the number of fields, so it cannot be refused for its number of fields,
/// and writing to a vector does not fail.
#[verifier::external_body]
fn csv_write_record(delim: u8, row: &Vec<Vec<u8>>) -> (r: Result<Vec<u8>, csv::Error>)
    ensures
        r is Ok,
        r matches Ok(bytes) ==> bytes@ == csv_record(delim, row_view(row@)),
{
    let mut writer = csv::WriterBuilder::new().delimiter(delim).from_writer(Vec::new());
    writer.write_record(row)?;
    writer.into_inner().map_err(|e| csv::Error::from(e.into_error()))
}

/// What a field of the output is filled from: an attribute of the record,
/// or a variable or expression that the caller has compiled.
pub enum Field<E> {
    Attribute(Attribute),
    Expr(E),
}

/// The values of a record for a list of attributes.
pub open spec fn row_of<R: Record>(record: &R, fields: Seq<Attribute>) -> Seq<Seq<u8>> {
    Seq::new(fields.len(), |i: int| attr_value(record, fields[i]))
}

/// The attributes of a list of fields; a field that is none counts as the
/// identifier.
pub open spec fn attributes<E>(fields: Seq<Field<E>>) -> Seq<Attribute> {
    Seq::new(
        fields.len(),
        |i: int|
            match fields[i] {
                Field::Attribute(a) => a,
                Field::Expr(_) => Attribute::Id,
            },
    )
}

/// Whether every field of a list is an attribute.
pub open spec fn all_attributes<E>(fields: Seq<Field<E>>) -> bool {
    forall|i: int| 0 <= i < fields.len() ==> (#[trigger] fields[i]) is Attribute
}

/// Whether `r` is what `compile` may return for the field with this name.
pub open spec fn compiles_to<E, C: Fn(&str) -> Result<E, CliError>>(
    compile: C,
    name: Seq<char>,
    r: Result<E, CliError>,
) -> bool {
    exists|text: &str| text@ == name && #[trigger] compile.ensures((text,), r)
}

/// Whether `field` is what the field with this name is compiled to: the
/// attribute that it names, or else what `compile` makes of it.
pub open spec fn field_of<E, C: Fn(&str) -> Result<E, CliError>>(
    compile: C,
    name: Seq<char>,
    field: Field<E>,
) -> bool {
    match attribute_named(name) {
        Some(a) => field == Field::<E>::Attribute(a),
        None => field matches Field::Expr(e) && compiles_to(compile, name, Ok(e)),
    }
}

/// Whether `fields` is what the fields with these names are compiled to.
pub open spec fn fields_of<E, C: Fn(&str) -> Result<E, CliError>>(
    compile: C,
    names: Seq<Seq<char>>,
    fields: Seq<Field<E>>,
) -> bool {
    &&& fields.len() == names.len()
    &&& forall|i: int| 0 <= i < names.len() ==> field_of(compile, names[i], #[trigger] fields[i])
}

/// Whether `value` is what a field holds for a record: the record's value
/// of the attribute, or what `fill` makes of the compiled expression and the
/// record.
pub open spec fn filled<E, R: Record, F: Fn(&E, &R) -> Vec<u8>>(
    fill: F,
    field: Field<E>,
    record: &R,
    value: Seq<u8>,
) -> bool {
    match field {
        Field::Attribute(a) => value == attr_value(record, a),
        Field::Expr(e) => exists|v: Vec<u8>| v@ == value && #[trigger] fill.ensures((&e, record), v),
    }
}

/// Whether `row` holds what the fields hold for a record.
pub open spec fn is_row<E, R: Record, F: Fn(&E, &R) -> Vec<u8>>(
    fill: F,
    fields: Seq<Field<E>>,
    record: &R,
    row: Seq<Seq<u8>>,
) -> bool {
    &&& row.len() == fields.len()
    &&& forall|i: int| 0 <= i < fields.len() ==> filled(fill, fields[i], record, #[trigger] row[i])
}

/// Where every field is an attribute, the row of a record is that of its
/// attributes, whatever would fill an expression.
pub proof fn lemma_row_of_attributes<E, R: Record, F: Fn(&E, &R) -> Vec<u8>>(
    fill: F,
    fields: Seq<Field<E>>,
    record: &R,
    row: Seq<Seq<u8>>,
)
    requires
        all_attributes(fields),
        is_row(fill, fields, record, row),
    ensures
        row == row_of(record, attributes(fields)),
{
    assert forall|i: int| 0 <= i < row.len() implies row[i] == row_of(
        record,
        attributes(fields),
    )[i] by {
        assert(fields[i] is Attribute);
        assert(filled(fill, fields[i], record, row[i]));
    }
    assert(row =~= row_of(record, attributes(fields)));
}

/// Writes records as delimited text to a byte buffer: one line for each
/// record, with one field for each attribute, variable or expression that
/// was asked for. `E` is what the caller compiles a variable or expression
/// to.
pub struct CsvWriter<E> {
    out: Vec<u8>,
    delim: u8,
    fields: Vec<String>,
    compiled_fields: Vec<Field<E>>,
}

impl<E> View for CsvWriter<E> {
    type V = Seq<u8>;

    /// The bytes written so far.
    closed spec fn view(&self) -> Seq<u8> {
        self.out@
    }
}

impl<E> CsvWriter<E> {
    pub closed spec fn delim(&self) -> u8 {
        self.delim
    }

    /// The names of the fields.
    pub closed spec fn fields(&self) -> Seq<Seq<char>> {
        self.fields.deep_view()
    }

    /// What the fields were compiled to, once they were registered.
    pub closed spec fn compiled(&self) -> Seq<Field<E>> {
        self.compiled_fields@
    }

    /// Whether every field names an attribute, so that nothing needs to be
    /// compiled.
    pub open spec fn plain(&self) -> bool {
        forall|i: int|
            0 <= i < self.fields().len() ==> attribute_named(#[trigger] self.fields()[i]) is Some
    }

    /// A writer that appends to `writer`. The fields are registered before
    /// the first record is written.
    pub fn new(writer: Vec<u8>, fields: Vec<String>, delim: u8) -> (w: CsvWriter<E>)
        ensures
            w@ == writer@,
            w.delim() == delim,
            w.fields() == fields.deep_view(),
            w.compiled().len() == 0,
    {
        CsvWriter { out: writer, delim, fields, compiled_fields: Vec::new() }
    }

    /// Compiles the fields: a field that names an attribute becomes that
    /// attribute, and any other field is handed to `compile` as a variable
    /// or expression. The error of the first field that `compile` refuses is
    /// the error of the call, and no field is registered then. Fields that
    /// all name attributes are always registered.
    pub fn register_vars<C>(&mut self, compile: &C) -> (r: Result<(), CliError>) where
        C: Fn(&str) -> Result<E, CliError>,

        requires
            forall|f: &str| compile.requires((f,)),
        ensures
            final(self)@ == old(self)@,
            final(self).delim() == old(self).delim(),
            final(self).fields() == old(self).fields(),
            old(self).plain() ==> r is Ok,
            match r {
                Ok(_) => fields_of(*compile, old(self).fields(), final(self).compiled()),
                Err(e) => final(self).compiled().len() == 0 && exists|i: int|
                    0 <= i < old(self).fields().len() && attribute_named(
                        #[trigger] old(self).fields()[i],
                    ) is None && compiles_to(*compile, old(self).fields()[i], Err::<E, CliError>(e))
                        && exists|before: Seq<Field<E>>|
                        #[trigger] fields_of(*compile, old(self).fields().take(i), before),
            },
    {
        let mut compiled: Vec<Field<E>> = Vec::new();
        self.compiled_fields = Vec::new();
        let mut i: usize = 0;
        while i < self.fields.len()
            invariant
                forall|f: &str| compile.requires((f,)),
                i <= self.fields.len(),
                self.fields == old(self).fields,
                self.out == old(self).out,
                self.delim == old(self).delim,
                self.compiled_fields@.len() == 0,
                fields_of(*compile, self.fields.deep_view().take(i as int), compiled@),
            decreases self.fields.len() - i,
        {
            let name = self.fields[i].as_str();
            assert(name@ == self.fields.deep_view()[i as int]);
            let ghost before = compiled@;
            let field = match Attribute::from_str(name) {
                Some(attr) => Field::Attribute(attr),
                None => {
                    let made = compile(name);
                    assert(compiles_to(*compile, name@, made));
                    match made {
                        Ok(e) => Field::Expr(e),
                        Err(e) => {
                            assert(fields_of(*compile, old(self).fields().take(i as int), before));
                            return Err(e);
                        },
                    }
                },
            };
            compiled.push(field);
            proof {
                let names = self.fields.deep_view();
                assert forall|j: int| 0 <= j < i + 1 implies field_of(
                    *compile,
                    names.take(i + 1)[j],
                    #[trigger] compiled@[j],
                ) by {
                    if j < i {
                        assert(names.take(i as int)[j] == names[j]);
                        assert(field_of(*compile, names.take(i as int)[j], before[j]));
                    }
                }
            }
            i = i + 1;
        }
        assert(self.fields.deep_view().take(i as int) == self.fields.deep_view());
        self.compiled_fields = compiled;
        Ok(())
    }

    /// Whether any field is written.
    pub fn has_vars(&self) -> (b: bool)
        ensures
            b == (self.fields().len() > 0),
    {
        !(self.fields.len() == 0)
    }

    /// Whether every registered field is an attribute, so that a record can
    /// be written without anything that fills an expression.
    pub fn is_simple(&self) -> (b: bool)
        ensures
            b == all_attributes(self.compiled()),
    {
        let mut i: usize = 0;
        while i < self.compiled_fields.len()
            invariant
                i <= self.compiled_fields.len(),
                forall|j: int| 0 <= j < i ==> (#[trigger] self.compiled_fields@[j]) is Attribute,
            decreases self.compiled_fields.len() - i,
        {
            match &self.compiled_fields[i] {
                Field::Attribute(_) => {},
                Field::Expr(_) => {
                    return false;
                },
            }
            i = i + 1;
        }
        true
    }

    /// Takes the encoded line of a record: appends it, or turns the
    /// encoder's error into the writer's and appends nothing.
    pub fn push_encoded(&mut self, encoded: Result<Vec<u8>, csv::Error>) -> (r: Result<(), CliError>)
        ensures
            final(self).delim() == old(self).delim(),
            final(self).fields() == old(self).fields(),
            final(self).compiled() == old(self).compiled(),
            match encoded {
                Ok(line) => r is Ok && final(self)@ == old(self)@ + line@,
                Err(_) => r matches Err(e) && e is Other && final(self)@ == old(self)@,
            },
    {
        match encoded {
            Ok(line) => {
                self.out.extend_from_slice(line.as_slice());
                assert(self.out@ =~= old(self).out@ + line@);
                Ok(())
            },
            Err(e) => Err(CliError::Other(e.to_string())),
        }
    }

    /// Appends the line of a record whose fields are all attributes: the
    /// values of the attributes, encoded by the `csv` crate.
    pub fn write_simple<R: Record>(&mut self, record: &R) -> (r: Result<(), CliError>)
        requires
            all_attributes(old(self).compiled()),
        ensures
            final(self).delim() == old(self).delim(),
            final(self).fields() == old(self).fields(),
            final(self).compiled() == old(self).compiled(),
            r is Ok,
            final(self)@ == old(self)@ + csv_record(
                old(self).delim(),
                row_of(record, attributes(old(self).compiled())),
            ),
    {
        let mut row: Vec<Vec<u8>> = Vec::new();
        let mut i: usize = 0;
        while i < self.compiled_fields.len()
            invariant
                all_attributes(self.compiled_fields@),
                i <= self.compiled_fields.len(),
                row@.len() == i,
                forall|j: int|
                    0 <= j < i ==> (#[trigger] row@[j])@ == attr_value(
                        record,
                        attributes(self.compiled_fields@)[j],
                    ),
            decreases self.compiled_fields.len() - i,
        {
            assert(self.compiled_fields@[i as int] is Attribute);
            let value = match &self.compiled_fields[i] {
                Field::Attribute(attr) => read_attr(record, *attr),
                Field::Expr(_) => Vec::new(),
            };
            row.push(value);
            i = i + 1;
        }
        assert(row_view(row@) =~= row_of(record, attributes(self.compiled_fields@)));
        let encoded = csv_write_record(self.delim, &row);
        self.push_encoded(encoded)
    }

    /// Appends the line of a record: for each field the value of its
    /// attribute, or what `fill` makes of its compiled expression and the
    /// record, encoded by the `csv` crate.
    pub fn write<R: Record, F>(&mut self, record: &R, fill: &F) -> (r: Result<(), CliError>) where
        F: Fn(&E, &R) -> Vec<u8>,

        requires
            forall|e: &E, rec: &R| fill.requires((e, rec)),
        ensures
            final(self).delim() == old(self).delim(),
            final(self).fields() == old(self).fields(),
            final(self).compiled() == old(self).compiled(),
            r is Ok,
            exists|row: Seq<Seq<u8>>|
                is_row(*fill, old(self).compiled(), record, row) && final(self)@ == old(self)@
                    + #[trigger] csv_record(old(self).delim(), row),
    {
        let mut row: Vec<Vec<u8>> = Vec::new();
        let mut i: usize = 0;
        while i < self.compiled_fields.len()
            invariant
                forall|e: &E, rec: &R| fill.requires((e, rec)),
                i <= self.compiled_fields.len(),
                row@.len() == i,
                forall|j: int|
                    0 <= j < i ==> filled(
                        *fill,
                        self.compiled_fields@[j],
                        record,
                        (#[trigger] row@[j])@,
                    ),
            decreases self.compiled_fields.len() - i,
        {
            let value = match &self.compiled_fields[i] {
                Field::Attribute(attr) => read_attr(record, *attr),
                Field::Expr(e) => {
                    let v = fill(e, record);
                    assert(fill.ensures((e, record), v));
                    v
                },
            };
            assert(filled(*fill, self.compiled_fields@[i as int], record, value@));
            row.push(value);
            i = i + 1;
        }
        let ghost cells = row_view(row@);
        assert(is_row(*fill, self.compiled_fields@, record, cells)) by {
            assert forall|j: int| 0 <= j < self.compiled_fields@.len() implies filled(
                *fill,
                self.compiled_fields@[j],
                record,
                #[trigger] cells[j],
            ) by {
                assert(cells[j] == row@[j]@);
            }
        }
        let encoded = csv_write_record(self.delim, &row);
        self.push_encoded(encoded)
    }

    /// Takes the bytes written so far out of the buffer, which is empty
    /// afterwards.
    pub fn take(&mut self) -> (bytes: Vec<u8>)
        ensures
            bytes@ == old(self)@,
            final(self)@.len() == 0,
            final(self).delim() == old(self).delim(),
            final(self).fields() == old(self).fields(),
            final(self).compiled() == old(self).compiled(),
    {
        let mut bytes: Vec<u8> = Vec::new();
        core::mem::swap(&mut self.out, &mut bytes);
        bytes
    }

    /// Gives the buffer back.
    pub fn into_inner(self) -> (inner: Option<Result<Vec<u8>, CliError>>)
        ensures
            inner matches Some(Ok(bytes)) && bytes@ == self@,
    {
        Some(Ok(self.out))
    }
}

} // verus!
