//! Inference of column types from the text of the fields.
//!
//! A column is numeric as long as every field seen in it that is not blank
//! is a floating-point literal; else it is a string column as wide as its
//! longest field, in bytes after trimming, within 1 and 32767. The one
//! who reads the source hands the records to a `SchemaScan` one by one.

use vstd::prelude::*;
use vstd::utf8::encode_utf8;

pub use crate::dictionary::{ColType, MAX_STRING_WIDTH};
use crate::literal::{is_float_literal, parses_as_float};
use crate::text::{trim, trimmed};

verus! {

/// Why a schema could not be inferred.
#[derive(Debug, Clone, Copy, PartialEq, Eq)]
pub enum SchemaError {
    /// The source has no columns.
    EmptySchema,
    /// The caller asked to stop.
    Cancelled,
}

impl SchemaError {
    /// The text of the message.
    pub open spec fn message_text(self) -> Seq<char> {
        match self {
            SchemaError::EmptySchema => "CSV has no columns"@,
            SchemaError::Cancelled => "Cancelled"@,
        }
    }

    /// A short message for the user.
    pub fn message(&self) -> (text: String)
        ensures
            text@ == self.message_text(),
    {
        match self {
            SchemaError::EmptySchema => "CSV has no columns".to_owned(),
            SchemaError::Cancelled => "Cancelled".to_owned(),
        }
    }
}

/// What has been seen of one column.
#[derive(Debug, Clone, Copy)]
pub struct ColInfo {
    is_numeric: bool,
    max_byte_len: usize,
}

/// What has been seen of one column, as a value of specifications.
pub struct ColStats {
    /// No field that is not blank has failed to be a number.
    pub numeric: bool,
    /// The greatest length of a trimmed field, in bytes.
    pub max_len: nat,
}

/// The result of inference.
#[derive(Debug, Clone)]
pub struct CsvSchema {
    pub headers: Vec<String>,
    pub col_types: Vec<ColType>,
    pub file_size: u64,
    /// Headers of the string columns with a field longer than 32767
    /// bytes, which will be cut.
    pub truncated_cols: Vec<String>,
}

/// The statistics of a column that has seen nothing.
pub open spec fn fresh_stats() -> ColStats {
    ColStats { numeric: true, max_len: 0 }
}

/// The statistics after one more field: a blank field changes nothing; any
/// other keeps the column numeric only if it is a floating-point literal,
/// and raises the greatest length to its own.
pub open spec fn observe_stats(stats: ColStats, field: Seq<char>) -> ColStats {
    let bytes = encode_utf8(trimmed(field));
    if bytes.len() == 0 {
        stats
    } else {
        ColStats {
            numeric: stats.numeric && is_float_literal(bytes),
            max_len: if bytes.len() > stats.max_len {
                bytes.len()
            } else {
                stats.max_len
            },
        }
    }
}

/// The type decided for a column: numeric if it stayed so, else a string
/// of its greatest length, but at least 1 and at most 32767.
pub open spec fn decided_type(stats: ColStats) -> ColType {
    if stats.numeric {
        ColType::Numeric
    } else if stats.max_len < 1 {
        ColType::String(1)
    } else if stats.max_len > MAX_STRING_WIDTH {
        ColType::String(MAX_STRING_WIDTH as u16)
    } else {
        ColType::String(stats.max_len as u16)
    }
}

/// Whether fields of the column will be cut: a string column with a field
/// longer than 32767 bytes.
pub open spec fn is_truncated(stats: ColStats) -> bool {
    !stats.numeric && stats.max_len > MAX_STRING_WIDTH
}

/// The texts of some strings.
pub open spec fn texts(strings: Seq<String>) -> Seq<Seq<char>> {
    Seq::new(strings.len(), |i: int| strings[i]@)
}

/// The statistics of all columns after one more record. A field beyond
/// the last column is ignored; a column without a field stays as it is.
pub open spec fn observe_record(stats: Seq<ColStats>, fields: Seq<Seq<char>>) -> Seq<ColStats> {
    Seq::new(
        stats.len(),
        |i: int|
            if i < fields.len() {
                observe_stats(stats[i], fields[i])
            } else {
                stats[i]
            },
    )
}

/// The statistics after the first `n` of some records.
pub open spec fn observe_records(
    stats: Seq<ColStats>,
    records: Seq<Seq<Seq<char>>>,
    n: nat,
) -> Seq<ColStats>
    decreases n,
{
    if n == 0 {
        stats
    } else {
        observe_record(observe_records(stats, records, (n - 1) as nat), records[n - 1])
    }
}

/// The types decided for all columns.
pub open spec fn decided_types(stats: Seq<ColStats>) -> Seq<ColType> {
    Seq::new(stats.len(), |i: int| decided_type(stats[i]))
}

/// The headers of the truncated columns among the first `n`, in order.
pub open spec fn truncated_headers(headers: Seq<Seq<char>>, stats: Seq<ColStats>, n: nat) -> Seq<
    Seq<char>,
>
    decreases n,
{
    if n == 0 {
        Seq::empty()
    } else if is_truncated(stats[n - 1]) {
        truncated_headers(headers, stats, (n - 1) as nat).push(headers[n - 1])
    } else {
        truncated_headers(headers, stats, (n - 1) as nat)
    }
}

/// How many records a scan with the limit `sample_rows` reads of `n`: all
/// of them up to the limit.
pub open spec fn sampled_count(n: nat, sample_rows: nat) -> nat {
    if n < sample_rows {
        n
    } else {
        sample_rows
    }
}

impl View for ColInfo {
    type V = ColStats;

    closed spec fn view(&self) -> ColStats {
        ColStats { numeric: self.is_numeric, max_len: self.max_byte_len as nat }
    }
}

impl ColInfo {
    /// A column that has seen nothing: numeric, of length zero.
    pub fn new() -> (info: ColInfo)
        ensures
            info@ == fresh_stats(),
    {
        ColInfo { is_numeric: true, max_byte_len: 0 }
    }

    /// Takes note of one field of the column.
    ///
    /// Once a column is no longer numeric it stays so.
    pub fn observe(&mut self, value: &str)
        ensures
            final(self)@ == observe_stats(old(self)@, value@),
            final(self)@.numeric ==> old(self)@.numeric,
            final(self)@.max_len >= old(self)@.max_len,
    {
        let trimmed = trim(value);
        let bytes = trimmed.as_bytes();
        if bytes.len() == 0 {
            return ;
        }
        if self.is_numeric && !parses_as_float(bytes) {
            self.is_numeric = false;
        }
        let byte_len = bytes.len();
        if byte_len > self.max_byte_len {
            self.max_byte_len = byte_len;
        }
    }

    /// The type decided for the column.
    pub fn col_type(&self) -> (decided: ColType)
        ensures
            decided == decided_type(self@),
            decided.valid(),
    {
        if self.is_numeric {
            ColType::Numeric
        } else if self.max_byte_len < 1 {
            ColType::String(1)
        } else if self.max_byte_len > MAX_STRING_WIDTH {
            ColType::String(MAX_STRING_WIDTH as u16)
        } else {
            ColType::String(self.max_byte_len as u16)
        }
    }

    /// Whether every field seen so far that is not blank was a number.
    pub fn is_numeric(&self) -> (numeric: bool)
        ensures
            numeric == self@.numeric,
    {
        self.is_numeric
    }

    /// The greatest length of a trimmed field seen so far, in bytes.
    pub fn max_byte_len(&self) -> (len: usize)
        ensures
            len == self@.max_len,
    {
        self.max_byte_len
    }
}

/// The statistics of some columns.
pub open spec fn stats_of(infos: Seq<ColInfo>) -> Seq<ColStats> {
    Seq::new(infos.len(), |i: int| infos[i]@)
}

/// A scan in progress: the headers, what has been seen of each column and
/// how many records have been read.
pub struct SchemaScan {
    headers: Vec<String>,
    infos: Vec<ColInfo>,
    sampled_rows: usize,
    sample_rows: usize,
}

impl SchemaScan {
    /// The headers, as texts.
    pub closed spec fn headers(&self) -> Seq<Seq<char>> {
        texts(self.headers@)
    }

    /// What has been seen of each column.
    pub closed spec fn stats(&self) -> Seq<ColStats> {
        stats_of(self.infos@)
    }

    /// The number of records read.
    pub closed spec fn sampled(&self) -> nat {
        self.sampled_rows as nat
    }

    /// The number of records after which the scan is done.
    pub closed spec fn limit(&self) -> nat {
        self.sample_rows as nat
    }

    /// A scan is done once it has read as many records as its limit says:
    /// with a limit of zero, before the first.
    pub open spec fn done(&self) -> bool {
        self.sampled() >= self.limit()
    }

    /// There is a column, and statistics for each column.
    pub open spec fn wf(&self) -> bool {
        self.headers().len() > 0 && self.stats().len() == self.headers().len()
    }

    /// Starts a scan of a source with the given header row, to read at
    /// most `sample_rows` records.
    ///
    /// Fails where the source has no columns.
    pub fn begin(headers: Vec<String>, sample_rows: usize) -> (made: Result<
        SchemaScan,
        SchemaError,
    >)
        ensures
            match made {
                Ok(scan) => {
                    &&& headers@.len() > 0
                    &&& scan.wf()
                    &&& scan.headers() == texts(headers@)
                    &&& scan.stats() == Seq::new(headers@.len(), |i: int| fresh_stats())
                    &&& scan.sampled() == 0
                    &&& scan.limit() == sample_rows
                },
                Err(e) => e == SchemaError::EmptySchema && headers@.len() == 0,
            },
    {
        if headers.len() == 0 {
            return Err(SchemaError::EmptySchema);
        }
        let mut infos: Vec<ColInfo> = Vec::new();
        let mut i: usize = 0;
        while i < headers.len()
            invariant
                i <= headers.len(),
                infos.len() == i,
                forall|j: int| 0 <= j < i ==> (#[trigger] infos@[j])@ == fresh_stats(),
            decreases headers.len() - i,
        {
            infos.push(ColInfo::new());
            i += 1;
        }
        let scan = SchemaScan { headers, infos, sampled_rows: 0, sample_rows };
        assert(scan.stats() =~= Seq::new(headers@.len(), |i: int| fresh_stats()));
        Ok(scan)
    }

    /// Whether the scan has read as many records as it was to read.
    pub fn is_done(&self) -> (done: bool)
        ensures
            done == self.done(),
    {
        self.sampled_rows >= self.sample_rows
    }

    /// Takes one record, unless the scan is done or the caller wants to
    /// stop.
    ///
    /// A scan that is done ignores the record. Else a request to stop ends
    /// the scan with `Cancelled`, before the record is looked at. Else each
    /// column takes note of its field. The result says whether the scan is
    /// done now.
    pub fn record(&mut self, fields: &[String], cancelled: bool) -> (step: Result<
        bool,
        SchemaError,
    >)
        requires
            old(self).wf(),
        ensures
            final(self).wf(),
            final(self).headers() == old(self).headers(),
            final(self).limit() == old(self).limit(),
            old(self).done() ==> step == Ok::<bool, SchemaError>(true) && final(self).stats()
                == old(self).stats() && final(self).sampled() == old(self).sampled(),
            !old(self).done() && cancelled ==> step == Err::<bool, SchemaError>(
                SchemaError::Cancelled,
            ) && final(self).stats() == old(self).stats() && final(self).sampled() == old(
                self,
            ).sampled(),
            !old(self).done() && !cancelled ==> {
                &&& final(self).stats() == observe_record(old(self).stats(), texts(fields@))
                &&& final(self).sampled() == old(self).sampled() + 1
                &&& step == Ok::<bool, SchemaError>(final(self).done())
            },
    {
        if self.is_done() {
            return Ok(true);
        }
        if cancelled {
            return Err(SchemaError::Cancelled);
        }
        self.sampled_rows = self.sampled_rows + 1;
        let n = self.infos.len();
        let ghost before = self.stats();
        let ghost target = observe_record(before, texts(fields@));
        let mut i: usize = 0;
        while i < n
            invariant
                i <= n,
                n == self.infos.len(),
                n == before.len(),
                self.headers == old(self).headers,
                self.sample_rows == old(self).sample_rows,
                self.sampled_rows == old(self).sampled_rows + 1,
                target == observe_record(before, texts(fields@)),
                forall|j: int| 0 <= j < i ==> (#[trigger] self.infos@[j])@ == target[j],
                forall|j: int| i <= j < n ==> (#[trigger] self.infos@[j])@ == before[j],
            decreases n - i,
        {
            if i < fields.len() {
                let mut info = self.infos[i];
                info.observe(fields[i].as_str());
                self.infos.set(i, info);
            }
            i += 1;
        }
        assert(self.stats() =~= target);
        Ok(self.is_done())
    }

    /// Ends the scan and gives the schema: the headers, the type decided
    /// for each column, the size of the source as the caller measured it,
    /// and the headers of the columns that will be cut.
    pub fn finish(self, file_size: u64) -> (schema: CsvSchema)
        requires
            self.wf(),
        ensures
            texts(schema.headers@) == self.headers(),
            schema.col_types@ == decided_types(self.stats()),
            schema.file_size == file_size,
            texts(schema.truncated_cols@) == truncated_headers(
                self.headers(),
                self.stats(),
                self.headers().len(),
            ),
    {
        let n = self.infos.len();
        let mut col_types: Vec<ColType> = Vec::new();
        let mut truncated_cols: Vec<String> = Vec::new();
        let ghost stats = self.stats();
        let ghost heads = self.headers();
        let mut i: usize = 0;
        assert(texts(truncated_cols@) =~= truncated_headers(heads, stats, 0));
        while i < n
            invariant
                i <= n,
                n == self.infos.len(),
                n == self.headers.len(),
                stats == self.stats(),
                heads == self.headers(),
                col_types@.len() == i,
                forall|j: int| 0 <= j < i ==> #[trigger] col_types@[j] == decided_type(stats[j]),
                texts(truncated_cols@) == truncated_headers(heads, stats, i as nat),
            decreases n - i,
        {
            let info = &self.infos[i];
            col_types.push(info.col_type());
            assert(info@ == stats[i as int]);
            if !info.is_numeric() && info.max_byte_len() > MAX_STRING_WIDTH {
                let ghost so_far = texts(truncated_cols@);
                truncated_cols.push(self.headers[i].clone());
                assert(texts(truncated_cols@) =~= so_far.push(heads[i as int]));
            }
            i += 1;
        }
        assert(col_types@ =~= decided_types(stats));
        CsvSchema { headers: self.headers, col_types, file_size, truncated_cols }
    }
}

/// Infers the schema of a source held in memory: its header row and its
/// records.
///
/// Reads the records in order, and no more than `sample_rows` of them.
/// Fails where the header row is empty.
pub fn infer_schema(
    headers: Vec<String>,
    records: &[Vec<String>],
    sample_rows: usize,
    file_size: u64,
) -> (inferred: Result<CsvSchema, SchemaError>)
    ensures
        match inferred {
            Ok(schema) => {
                let stats = observe_records(
                    Seq::new(headers@.len(), |i: int| fresh_stats()),
                    record_texts(records@),
                    sampled_count(records@.len(), sample_rows as nat),
                );
                &&& headers@.len() > 0
                &&& texts(schema.headers@) == texts(headers@)
                &&& schema.col_types@ == decided_types(stats)
                &&& schema.file_size == file_size
                &&& texts(schema.truncated_cols@) == truncated_headers(
                    texts(headers@),
                    stats,
                    headers@.len(),
                )
            },
            Err(e) => e == SchemaError::EmptySchema && headers@.len() == 0,
        },
{
    let ghost start = Seq::new(headers@.len(), |i: int| fresh_stats());
    let ghost all = record_texts(records@);
    let mut scan = match SchemaScan::begin(headers, sample_rows) {
        Ok(scan) => scan,
        Err(e) => {
            return Err(e);
        },
    };
    let mut i: usize = 0;
    while i < records.len() && !scan.is_done()
        invariant
            i <= records.len(),
            scan.wf(),
            scan.headers() == texts(headers@),
            scan.limit() == sample_rows,
            scan.sampled() == i,
            i <= sampled_count(records@.len(), sample_rows as nat),
            all == record_texts(records@),
            scan.stats() == observe_records(start, all, i as nat),
        decreases records.len() - i,
    {
        let step = scan.record(records[i].as_slice(), false);
        assert(all[i as int] == texts(records@[i as int]@));
        i += 1;
    }
    assert(i == sampled_count(records@.len(), sample_rows as nat));
    Ok(scan.finish(file_size))
}

/// The texts of the fields of some records.
pub open spec fn record_texts(records: Seq<Vec<String>>) -> Seq<Seq<Seq<char>>> {
    Seq::new(records.len(), |i: int| texts(records[i]@))
}

} // verus!
