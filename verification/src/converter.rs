//! From the records of a source to the rows of a system file.
//!
//! The one who converts reads the source and writes the output; everything
//! that is decided on the way is decided here: the names of the columns,
//! the value that a field becomes, when a request to stop is honoured and
//! when progress is due. A `Conversion` takes the records one by one and
//! hands out the bytes of the file.

use crate::bytes::write_bytes;
use crate::compress::all_segments;
use crate::dictionary::{col_types, col_views, ColDef, ColType, ColView};
use crate::error::EncodeError;
use crate::literal::{is_float_literal, parses_as_float};
use crate::row::{fits, row_valid, Value};
use crate::sav_writer::{sav_file, SavWriter};
use crate::schema::CsvSchema;
use crate::text::{cut_point, decimal, push_decimal, trim, trimmed, truncate_utf8};
use crate::zsav::rows_image;
use crate::zsav_writer::{zsav_file, Writer};
use vstd::prelude::*;
use vstd::string::StringSliceAdditionalSpecFns;
use vstd::utf8::encode_utf8;

verus! {

/// A request to stop is looked at once in this many rows.
pub const CANCEL_CHECK_INTERVAL: usize = 1000;

/// Progress is due once in this many rows.
pub const PROGRESS_INTERVAL: usize = 10000;

/// The name of column number `n`, counted from one: `V` and the number.
pub open spec fn var_name(n: nat) -> Seq<char> {
    seq!['V'] + decimal(n)
}

/// A number below ten to the `d`, `d` at least one, has at most `d`
/// digits, and each is a decimal digit.
pub proof fn lemma_decimal_bounds(n: nat, d: nat)
    requires
        d >= 1,
        n < vstd::arithmetic::power::pow(10, d),
    ensures
        1 <= decimal(n).len() <= d,
        forall|i: int| 0 <= i < decimal(n).len() ==> '0' <= #[trigger] decimal(n)[i] <= '9',
    decreases n,
{
    reveal_with_fuel(vstd::arithmetic::power::pow, 2);
    if n >= 10 {
        assert(d >= 2) by {
            if d == 1 {
                assert(vstd::arithmetic::power::pow(10, 1) == 10);
            }
        }
        assert(vstd::arithmetic::power::pow(10, d) == 10 * vstd::arithmetic::power::pow(
            10,
            (d - 1) as nat,
        ));
        lemma_decimal_bounds(n / 10, (d - 1) as nat);
    }
}

/// The names of the first 9,999,999 columns are at most eight characters
/// long, a `V` and digits: legal short names, whatever the headers are.
pub proof fn lemma_var_name_short(n: nat)
    requires
        n < 10_000_000,
    ensures
        2 <= var_name(n).len() <= 8,
        var_name(n)[0] == 'V',
        forall|i: int| 1 <= i < var_name(n).len() ==> '0' <= #[trigger] var_name(n)[i] <= '9',
{
    assert(vstd::arithmetic::power::pow(10, 7) == 10_000_000) by {
        reveal_with_fuel(vstd::arithmetic::power::pow, 8);
    }
    lemma_decimal_bounds(n, 7);
    assert forall|i: int| 1 <= i < var_name(n).len() implies '0' <= #[trigger] var_name(n)[i]
        <= '9' by {
        assert(var_name(n)[i] == decimal(n)[i - 1]);
    }
}

/// The name of column number `n`, counted from one.
pub fn column_name(n: usize) -> (name: String)
    ensures
        name@ == var_name(n as nat),
{
    proof {
        reveal_strlit("V");
    }
    let mut name = "V".to_owned();
    assert(name@ =~= seq!['V']);
    push_decimal(&mut name, n);
    name
}

/// The dictionary columns of a schema: column `i`, counted from zero, is
/// named `V` and `i + 1`, is labelled with its header and has its
/// inferred type. Where the schema has more headers than types, or more
/// types than headers, the surplus is left out.
pub open spec fn schema_columns(schema: CsvSchema) -> Seq<ColView> {
    Seq::new(
        if schema.headers@.len() < schema.col_types@.len() {
            schema.headers@.len()
        } else {
            schema.col_types@.len()
        },
        |i: int|
            ColView {
                name: encode_utf8(var_name((i + 1) as nat)),
                label: encode_utf8(schema.headers@[i]@),
                col_type: schema.col_types@[i],
            },
    )
}

/// The dictionary columns of a schema.
pub fn make_col_defs(schema: &CsvSchema) -> (defs: Vec<ColDef>)
    ensures
        col_views(defs@) == schema_columns(*schema),
        defs@.len() == schema_columns(*schema).len(),
        forall|i: int|
            0 <= i < defs@.len() ==> {
                &&& (#[trigger] defs@[i]).name@ == var_name((i + 1) as nat)
                &&& defs@[i].label@ == schema.headers@[i]@
                &&& defs@[i].col_type == schema.col_types@[i]
            },
{
    let n: usize = if schema.headers.len() < schema.col_types.len() {
        schema.headers.len()
    } else {
        schema.col_types.len()
    };
    let mut defs: Vec<ColDef> = Vec::new();
    let mut i: usize = 0;
    while i < n
        invariant
            i <= n,
            n <= schema.headers@.len(),
            n <= schema.col_types@.len(),
            defs@.len() == i,
            forall|j: int|
                0 <= j < i ==> {
                    &&& (#[trigger] defs@[j]).name@ == var_name((j + 1) as nat)
                    &&& defs@[j].label@ == schema.headers@[j]@
                    &&& defs@[j].col_type == schema.col_types@[j]
                },
        decreases n - i,
    {
        defs.push(
            ColDef {
                name: column_name(i + 1),
                label: schema.headers[i].clone(),
                col_type: schema.col_types[i],
            },
        );
        i += 1;
    }
    assert(col_views(defs@) =~= schema_columns(*schema));
    defs
}

/// Whether `value` is what the field `field` becomes in a column of type
/// `col_type`.
///
/// The field is trimmed first. In a numeric column it becomes the number
/// `number` that the caller read from it, but system-missing where the
/// trimmed field is no floating-point literal, as a blank field is not. In
/// a string column it becomes its bytes, cut to the width of the column
/// without splitting a character.
pub open spec fn is_field_value(
    col_type: ColType,
    field: Seq<char>,
    number: Option<u64>,
    value: Value,
) -> bool {
    let bytes = encode_utf8(trimmed(field));
    match col_type {
        ColType::Numeric => value == Value::Number(
            if is_float_literal(bytes) {
                number
            } else {
                None
            },
        ),
        ColType::String(w) => value matches Value::String(kept) && kept@ == bytes.subrange(
            0,
            cut_point(bytes, w as int),
        ),
    }
}

/// The value that a field becomes in its column. `number` is the number
/// that the caller read from the trimmed field, as the bits of a double.
pub fn field_value(col_type: &ColType, field: &str, number: Option<u64>) -> (value: Value)
    ensures
        is_field_value(*col_type, field@, number, value),
        fits(*col_type, value),
{
    let text = trim(field);
    match col_type {
        ColType::Numeric => {
            if parses_as_float(text.as_bytes()) {
                Value::Number(number)
            } else {
                Value::Number(None)
            }
        },
        ColType::String(w) => {
            let cut = truncate_utf8(text, *w as usize);
            let mut kept: Vec<u8> = Vec::new();
            write_bytes(&mut kept, cut.as_bytes());
            assert(kept@ =~= cut.spec_bytes());
            Value::String(kept)
        },
    }
}

/// Whether `values` is the row that a record becomes: one value per
/// column, each from the field and the number at the column's place, a
/// missing field counting as empty and a missing number as none.
pub open spec fn is_record_row(
    types: Seq<ColType>,
    fields: Seq<Seq<char>>,
    numbers: Seq<Option<u64>>,
    values: Seq<Value>,
) -> bool {
    &&& values.len() == types.len()
    &&& forall|i: int|
        0 <= i < types.len() ==> is_field_value(
            types[i],
            if i < fields.len() {
                fields[i]
            } else {
                Seq::empty()
            },
            if i < numbers.len() {
                numbers[i]
            } else {
                None
            },
            #[trigger] values[i],
        )
}

/// The row that a record becomes under the given columns.
pub fn record_row(types: &[ColType], fields: &[String], numbers: &[Option<u64>]) -> (values: Vec<
    Value,
>)
    ensures
        is_record_row(types@, crate::schema::texts(fields@), numbers@, values@),
        row_valid(types@, values@),
{
    proof {
        reveal_strlit("");
    }
    let mut values: Vec<Value> = Vec::new();
    let mut i: usize = 0;
    while i < types.len()
        invariant
            i <= types.len(),
            values@.len() == i,
            ""@ == Seq::<char>::empty(),
            forall|j: int|
                0 <= j < i ==> is_field_value(
                    types@[j],
                    if j < fields@.len() {
                        fields@[j]@
                    } else {
                        Seq::empty()
                    },
                    if j < numbers@.len() {
                        numbers@[j]
                    } else {
                        None
                    },
                    #[trigger] values@[j],
                ) && fits(types@[j], values@[j]),
        decreases types.len() - i,
    {
        let field: &str = if i < fields.len() { fields[i].as_str() } else { "" };
        let number: Option<u64> = if i < numbers.len() { numbers[i] } else { None };
        values.push(field_value(&types[i], field, number));
        i += 1;
    }
    values
}

/// Whether a request to stop is looked at after `row_count` rows.
pub fn cancel_check_due(row_count: usize) -> (due: bool)
    ensures
        due == (row_count % CANCEL_CHECK_INTERVAL == 0),
{
    row_count % CANCEL_CHECK_INTERVAL == 0
}

/// Whether progress is due after `row_count` rows.
pub fn progress_due(row_count: usize) -> (due: bool)
    ensures
        due == (row_count % PROGRESS_INTERVAL == 0),
{
    row_count % PROGRESS_INTERVAL == 0
}

/// The kind of file to write.
#[derive(Debug, Clone, Copy, PartialEq, Eq)]
pub enum Format {
    /// Byte-code compression; the number of rows is left open.
    Sav,
    /// Zlib compression; the number of rows is stated.
    Zsav,
}

/// Why a conversion ended early.
#[derive(Debug, Clone, Copy, PartialEq, Eq)]
pub enum ConvertError {
    /// The caller asked to stop.
    Cancelled,
    /// The encoder refused.
    Encode(EncodeError),
}

impl ConvertError {
    /// The text of the message.
    pub open spec fn message_text(self) -> Seq<char> {
        match self {
            ConvertError::Cancelled => "Cancelled"@,
            ConvertError::Encode(e) => e.message_text(),
        }
    }

    /// A short message for the user.
    pub fn message(&self) -> (text: String)
        ensures
            text@ == self.message_text(),
    {
        match self {
            ConvertError::Cancelled => "Cancelled".to_owned(),
            ConvertError::Encode(e) => e.message(),
        }
    }
}

/// What is due after a record was taken.
#[derive(Debug, Clone, Copy, PartialEq, Eq)]
pub struct Step {
    /// Rows written so far.
    pub row_count: usize,
    /// Whether progress is to be reported now.
    pub report_progress: bool,
}

/// The writer of the file.
enum Encoder {
    Sav(SavWriter),
    Zsav(Writer),
}

/// A conversion in progress.
pub struct Conversion {
    encoder: Encoder,
    types: Vec<ColType>,
    row_count: usize,
    /// The rows written so far.
    rows: Ghost<Seq<Seq<Value>>>,
}

impl Conversion {
    /// The rows written so far, in the order in which they came.
    pub closed spec fn rows(&self) -> Seq<Seq<Value>> {
        self.rows@
    }

    /// The kind of file that is written.
    pub closed spec fn format(&self) -> Format {
        match self.encoder {
            Encoder::Sav(_) => Format::Sav,
            Encoder::Zsav(_) => Format::Zsav,
        }
    }

    /// The columns of the file.
    pub closed spec fn columns(&self) -> Seq<ColView> {
        match self.encoder {
            Encoder::Sav(w) => w.columns(),
            Encoder::Zsav(w) => w.columns(),
        }
    }

    /// The types of the columns.
    pub open spec fn types(&self) -> Seq<ColType> {
        col_types(self.columns())
    }

    /// The number of rows declared for a file with zlib compression.
    pub closed spec fn declared_rows(&self) -> nat {
        match self.encoder {
            Encoder::Sav(_) => 0,
            Encoder::Zsav(w) => w.declared_rows(),
        }
    }

    /// The bytes handed over so far.
    pub closed spec fn taken(&self) -> Seq<u8> {
        match self.encoder {
            Encoder::Sav(w) => w.taken(),
            Encoder::Zsav(_) => Seq::empty(),
        }
    }

    /// The bytes that are ready and not yet handed over.
    pub closed spec fn buffered(&self) -> Seq<u8> {
        match self.encoder {
            Encoder::Sav(w) => w.buffered(),
            Encoder::Zsav(_) => Seq::empty(),
        }
    }

    /// All bytes made ready so far, handed over or not.
    pub open spec fn emitted(&self) -> Seq<u8> {
        self.taken() + self.buffered()
    }

    /// What is ready of the file once the rows so far are written. With
    /// byte-code compression that is the dictionary and every full block of
    /// eight opcodes with its payloads; the segments after the last full
    /// block wait for the block to fill or for the end. With zlib
    /// compression nothing is ready before the end.
    pub open spec fn ready(&self) -> Seq<u8> {
        match self.format() {
            Format::Sav => crate::dictionary::dictionary(false, self.columns(), -1i32)
                + crate::compress::flushed(all_segments(self.types(), self.rows())),
            Format::Zsav => Seq::empty(),
        }
    }

    /// The invariant of a conversion: its encoder has taken exactly the
    /// rows written.
    pub closed spec fn wf(&self) -> bool {
        &&& self.row_count == self.rows@.len()
        &&& self.types@ == self.types()
        &&& match self.encoder {
            Encoder::Sav(w) => w.wf() && w.segments() == all_segments(self.types@, self.rows@),
            Encoder::Zsav(w) => w.wf() && w.data() == rows_image(self.types@, self.rows@)
                && w.rows_written() == self.rows@.len(),
        }
    }

    /// Starts a conversion under `schema`. For a file with zlib
    /// compression, `total_rows` is the number of rows that will come;
    /// else it is not used.
    ///
    /// Fails where a count does not fit its field in the file.
    pub fn begin(schema: &CsvSchema, format: Format, total_rows: usize) -> (made: Result<
        Conversion,
        ConvertError,
    >)
        ensures
            match made {
                Ok(c) => {
                    &&& c.wf()
                    &&& c.format() == format
                    &&& c.columns() == schema_columns(*schema)
                    &&& c.rows() == Seq::<Seq<Value>>::empty()
                    &&& c.taken() == Seq::<u8>::empty()
                    &&& c.buffered() == c.ready()
                    &&& format == Format::Zsav ==> c.declared_rows() == total_rows
                },
                Err(e) => e == ConvertError::Encode(EncodeError::TooLarge),
            },
            made is Err <==> crate::dictionary::case_size(col_types(schema_columns(*schema)))
                > i32::MAX || (format == Format::Zsav && total_rows > i32::MAX),
    {
        let defs = make_col_defs(schema);
        let types = crate::dictionary::types_of(defs.as_slice());
        match format {
            Format::Sav => match SavWriter::new(defs) {
                Err(e) => Err(ConvertError::Encode(e)),
                Ok(w) => Ok(
                    Conversion {
                        encoder: Encoder::Sav(w),
                        types,
                        row_count: 0,
                        rows: Ghost(Seq::empty()),
                    },
                ),
            },
            Format::Zsav => match Writer::new_zsav(defs.as_slice(), total_rows) {
                Err(e) => Err(ConvertError::Encode(e)),
                Ok(w) => Ok(
                    Conversion {
                        encoder: Encoder::Zsav(w),
                        types,
                        row_count: 0,
                        rows: Ghost(Seq::empty()),
                    },
                ),
            },
        }
    }

    /// Whether a request to stop is looked at with the next record: with
    /// every thousandth.
    pub open spec fn stop_due(&self) -> bool {
        (self.rows().len() + 1) % (CANCEL_CHECK_INTERVAL as nat) == 0
    }

    /// Whether the file has all the rows it was declared with: a file with
    /// zlib compression takes no row beyond them.
    pub open spec fn full(&self) -> bool {
        self.format() == Format::Zsav && self.rows().len() >= self.declared_rows()
    }

    /// Takes one record of the source.
    ///
    /// A request to stop is honoured where the record is the thousandth
    /// since the last look, and then the record is not written. Else a
    /// record beyond the declared rows of a file with zlib compression is
    /// refused. Else the record becomes a row and is written after the
    /// rows before it. Progress is due with every ten-thousandth row.
    pub fn record(
        &mut self,
        fields: &[String],
        numbers: &[Option<u64>],
        cancelled: bool,
    ) -> (step: Result<Step, ConvertError>)
        requires
            old(self).wf(),
            old(self).rows().len() < usize::MAX,
        ensures
            final(self).wf(),
            final(self).format() == old(self).format(),
            final(self).columns() == old(self).columns(),
            final(self).declared_rows() == old(self).declared_rows(),
            final(self).taken() == old(self).taken(),
            final(self).emitted() == final(self).ready(),
            cancelled && old(self).stop_due() ==> step == Err::<Step, ConvertError>(
                ConvertError::Cancelled,
            ),
            !(cancelled && old(self).stop_due()) && old(self).full() ==> step == Err::<
                Step,
                ConvertError,
            >(
                ConvertError::Encode(
                    EncodeError::RowCount {
                        declared: old(self).declared_rows() as usize,
                        written: (old(self).rows().len() + 1) as usize,
                    },
                ),
            ),
            !(cancelled && old(self).stop_due()) && !old(self).full() ==> step is Ok,
            match step {
                Ok(s) => {
                    &&& !(cancelled && (old(self).rows().len() + 1) % (CANCEL_CHECK_INTERVAL as nat)
                        == 0)
                    &&& final(self).rows().len() == old(self).rows().len() + 1
                    &&& final(self).rows().drop_last() == old(self).rows()
                    &&& is_record_row(
                        old(self).types(),
                        crate::schema::texts(fields@),
                        numbers@,
                        final(self).rows().last(),
                    )
                    &&& s.row_count == final(self).rows().len()
                    &&& s.report_progress == (s.row_count % PROGRESS_INTERVAL == 0)
                },
                Err(ConvertError::Cancelled) => {
                    &&& cancelled
                    &&& (old(self).rows().len() + 1) % (CANCEL_CHECK_INTERVAL as nat) == 0
                    &&& final(self).rows() == old(self).rows()
                },
                Err(ConvertError::Encode(e)) => {
                    &&& old(self).format() == Format::Zsav
                    &&& old(self).rows().len() >= old(self).declared_rows()
                    &&& e == (EncodeError::RowCount {
                        declared: old(self).declared_rows() as usize,
                        written: (old(self).rows().len() + 1) as usize,
                    })
                    &&& final(self).rows() == old(self).rows()
                },
            },
    {
        let next = self.row_count + 1;
        if cancel_check_due(next) && cancelled {
            return Err(ConvertError::Cancelled);
        }
        let values = record_row(self.types.as_slice(), fields, numbers);
        let ghost types = self.types@;
        let ghost earlier = self.rows@;
        let done = match &mut self.encoder {
            Encoder::Sav(w) => w.write_row(values.as_slice()),
            Encoder::Zsav(w) => w.write_row(values.as_slice()),
        };
        match done {
            Err(e) => Err(ConvertError::Encode(e)),
            Ok(_) => {
                self.row_count = next;
                self.rows = Ghost(earlier.push(values@));
                proof {
                    assert(self.rows@.drop_last() =~= earlier);
                    crate::compress::lemma_all_segments_push(types, earlier, values@);
                }
                Ok(Step { row_count: next, report_progress: progress_due(next) })
            },
        }
    }

    /// Hands over the bytes that are ready to be written to the output.
    /// A file with zlib compression hands over nothing before it is
    /// finished.
    pub fn take_output(&mut self) -> (bytes: Vec<u8>)
        requires
            old(self).wf(),
        ensures
            final(self).wf(),
            final(self).format() == old(self).format(),
            final(self).columns() == old(self).columns(),
            final(self).declared_rows() == old(self).declared_rows(),
            final(self).rows() == old(self).rows(),
            bytes@ == old(self).buffered(),
            final(self).buffered() == Seq::<u8>::empty(),
            final(self).taken() == old(self).taken() + bytes@,
            final(self).taken() == final(self).ready(),
            old(self).format() == Format::Zsav ==> bytes@ == Seq::<u8>::empty(),
    {
        match &mut self.encoder {
            Encoder::Sav(w) => {
                let bytes = w.take_output();
                assert(w.taken() + Seq::<u8>::empty() =~= w.taken());
                bytes
            },
            Encoder::Zsav(_) => {
                let nothing: Vec<u8> = Vec::new();
                assert(self.taken() + nothing@ =~= self.taken());
                nothing
            },
        }
    }

    /// Ends the conversion and returns the rest of the file and the number
    /// of rows written.
    ///
    /// All bytes, handed over before and returned now, are the file of the
    /// rows written, in their order. A file with zlib compression is
    /// refused where the rows are fewer than declared.
    pub fn finish(self) -> (end: Result<(Vec<u8>, usize), ConvertError>)
        requires
            self.wf(),
        ensures
            match end {
                Ok((bytes, count)) => {
                    &&& count == self.rows().len()
                    &&& match self.format() {
                        Format::Sav => self.taken() + bytes@ == sav_file(
                            self.columns(),
                            self.rows(),
                        ),
                        Format::Zsav => self.rows().len() == self.declared_rows()
                            && self.rows().len() <= i32::MAX && bytes@ == zsav_file(
                            self.columns(),
                            self.rows().len() as i32,
                            rows_image(self.types(), self.rows()),
                        ),
                    }
                },
                Err(ConvertError::Encode(EncodeError::RowCount { declared, written })) => {
                    &&& self.format() == Format::Zsav
                    &&& self.rows().len() != self.declared_rows()
                    &&& declared == self.declared_rows()
                    &&& written == self.rows().len()
                },
                Err(ConvertError::Encode(EncodeError::TooLarge)) => {
                    &&& self.format() == Format::Zsav
                    &&& self.rows().len() == self.declared_rows()
                    &&& !crate::zsav::layout_fits(
                        crate::dictionary::dictionary(
                            true,
                            self.columns(),
                            self.rows().len() as i32,
                        ).len() as u64,
                        crate::zsav::deflated_blocks(rows_image(self.types(), self.rows())),
                    )
                },
                Err(_) => false,
            },
    {
        let count = self.row_count;
        match self.encoder {
            Encoder::Sav(w) => Ok((w.finish(), count)),
            Encoder::Zsav(w) => match w.finish() {
                Ok(bytes) => Ok((bytes, count)),
                Err(e) => Err(ConvertError::Encode(e)),
            },
        }
    }

    /// The number of rows written so far.
    pub fn row_count(&self) -> (count: usize)
        requires
            self.wf(),
        ensures
            count == self.rows().len(),
    {
        self.row_count
    }
}

} // verus!
