//! From the records of a file to rows of timestamps and observations.

use crate::calendar::{add_months, lemma_more_months_later_time, months_later, unix_midnight};
use crate::calendar::CalendarDate;
use crate::date_text::{date_of_text, parse_mm_dd_yyyy, DateError};
use crate::numeric::{is_numeric_literal, numeric_literal};
use crate::text::{leading_count, lemma_leading_count, lemma_leading_count_bounds, utf8_text};
use vstd::prelude::*;
use vstd::slice::slice_to_vec;
use vstd::utf8::valid_utf8;

verus! {

/// The error of the `csv` reader, carried through unopened.
#[verifier::external_type_specification]
#[verifier::external_body]
pub struct ExCsvError(csv::Error);

/// The records that the `csv` reader finds in a file's bytes, or `None` where
/// it gives up. The reader is set to comma-separated fields, no header row
/// and records of any width.
pub uninterp spec fn csv_records(data: Seq<u8>) -> Option<Seq<Seq<Seq<u8>>>>;

/// Runs the `csv` reader over a file's bytes. `csv::ReaderBuilder` is given
/// `has_headers(false)` and `flexible(true)` and reads from the bytes in
/// memory; `Reader::byte_records` then yields each record or the reader's
/// error, and every field of a record is copied out as its bytes. What comes
/// back depends on the bytes alone and is named `csv_records`.
#[verifier::external_body]
fn read_records(data: &[u8]) -> (r: Result<Vec<Vec<Vec<u8>>>, csv::Error>)
    ensures
        match r {
            Ok(records) => csv_records(data@) == Some(records_view(records@)),
            Err(_) => csv_records(data@) is None,
        },
{
    let mut reader = csv::ReaderBuilder::new().has_headers(false).flexible(true).from_reader(data);
    reader.byte_records().map(|record| Ok(record?.iter().map(|field| field.to_vec()).collect())).collect()
}

/// One row's timestamps and observations, index by index.
///
/// An observation is kept as it is written in the file, a literal of the
/// grammar in [`crate::numeric`]; the timestamp beside it is midnight UTC of
/// the day it was made for.
#[derive(Debug, Clone, PartialEq, Eq)]
pub struct RowData {
    pub timestamps: Vec<i64>,
    pub values: Vec<Vec<u8>>,
}

/// What a [`RowData`] holds.
pub struct Row {
    pub timestamps: Seq<int>,
    pub values: Seq<Seq<u8>>,
}

/// Why a file could not be turned into rows.
#[derive(Debug, Clone, PartialEq, Eq)]
pub enum ParseError {
    /// The records could not be read.
    Io,
    /// A field that had to be read as text is not well-formed UTF-8.
    MalformedRecord,
    /// A record has no first field.
    MissingDateColumn,
    /// The first field of a record is not a date.
    Date(DateError),
    /// A field is not a numeric literal; `text` is that field.
    NumericParse { text: Vec<u8> },
}

/// What a [`ParseError`] holds.
pub enum Failure {
    Io,
    MalformedRecord,
    MissingDateColumn,
    Date(DateError),
    NumericParse { text: Seq<u8> },
}

impl View for RowData {
    type V = Row;

    open spec fn view(&self) -> Row {
        Row { timestamps: self.timestamps@.map_values(|t: i64| t as int), values: fields_view(self.values@) }
    }
}

impl View for ParseError {
    type V = Failure;

    open spec fn view(&self) -> Failure {
        match *self {
            ParseError::Io => Failure::Io,
            ParseError::MalformedRecord => Failure::MalformedRecord,
            ParseError::MissingDateColumn => Failure::MissingDateColumn,
            ParseError::Date(e) => Failure::Date(e),
            ParseError::NumericParse { text } => Failure::NumericParse { text: text@ },
        }
    }
}

impl Row {
    /// The row has a timestamp for each observation, and its timestamps grow
    /// strictly from one entry to the next.
    pub open spec fn wf(self) -> bool {
        &&& self.timestamps.len() == self.values.len()
        &&& forall|i: int, j: int|
            0 <= i < j < self.timestamps.len() ==> self.timestamps[i] < self.timestamps[j]
    }

    /// Every value of the row is a numeric literal in well-formed UTF-8.
    pub open spec fn all_numeric(self) -> bool {
        forall|i: int| 0 <= i < self.values.len() ==> field_kind(#[trigger] self.values[i]) is Value
    }
}

/// The fields of a record, each as its bytes.
pub open spec fn fields_view(fields: Seq<Vec<u8>>) -> Seq<Seq<u8>> {
    Seq::new(fields.len(), |i: int| fields[i]@)
}

/// The rows of a dataset, each as what it holds.
pub open spec fn rows_view(rows: Seq<RowData>) -> Seq<Row> {
    Seq::new(rows.len(), |i: int| rows[i]@)
}

/// The outcome of reading one record, as what it holds.
pub open spec fn row_result_view(r: Result<RowData, ParseError>) -> Result<Row, Failure> {
    match r {
        Ok(row) => Ok(row@),
        Err(e) => Err(e@),
    }
}

/// The outcome of reading a file, as what it holds.
pub open spec fn dataset_result_view(r: Result<Vec<RowData>, ParseError>) -> Result<
    Seq<Row>,
    Failure,
> {
    match r {
        Ok(rows) => Ok(rows_view(rows@)),
        Err(e) => Err(e@),
    }
}

/// What a field after the date is to the row.
#[derive(Clone, Copy, Debug, PartialEq, Eq, Structural)]
pub enum FieldKind {
    /// Empty: the row ends before it.
    Blank,
    /// Not well-formed UTF-8.
    Malformed,
    /// Text, but no numeric literal.
    NotNumeric,
    /// An observation.
    Value,
}

/// Sorts a field: emptiness is judged first, then the encoding, then the
/// grammar.
pub open spec fn field_kind(field: Seq<u8>) -> FieldKind {
    if field.len() == 0 {
        FieldKind::Blank
    } else if !valid_utf8(field) {
        FieldKind::Malformed
    } else if !numeric_literal(field) {
        FieldKind::NotNumeric
    } else {
        FieldKind::Value
    }
}

/// The test that a field is an observation.
pub open spec fn is_value() -> spec_fn(Seq<u8>) -> bool {
    |field: Seq<u8>| field_kind(field) is Value
}

/// How many observations a row reads: all fields up to the first that is not
/// one, whatever comes after it.
pub open spec fn values_end(fields: Seq<Seq<u8>>) -> int {
    leading_count(fields, is_value())
}

/// The entries that the first `n` observations give. Observation `k` (from 0)
/// belongs to the day `k` months after `base`; where the calendar has no such
/// day the observation gives no entry.
pub open spec fn collected(base: CalendarDate, fields: Seq<Seq<u8>>, n: int) -> Row
    decreases n,
{
    if n <= 0 {
        Row { timestamps: Seq::empty(), values: Seq::empty() }
    } else {
        let before = collected(base, fields, n - 1);
        match months_later(base, n - 1) {
            Some(date) => Row {
                timestamps: before.timestamps.push(
                    unix_midnight(date.year as int, date.month as int, date.day as int),
                ),
                values: before.values.push(fields[n - 1]),
            },
            None => before,
        }
    }
}

/// The row that the fields after the date give, read from the left. An empty
/// field ends the row without fault; a field that is no observation fails it.
pub open spec fn row_of_values(base: CalendarDate, fields: Seq<Seq<u8>>) -> Result<Row, Failure> {
    let end = values_end(fields);
    if end < fields.len() && field_kind(fields[end]) is Malformed {
        Err(Failure::MalformedRecord)
    } else if end < fields.len() && field_kind(fields[end]) is NotNumeric {
        Err(Failure::NumericParse { text: fields[end] })
    } else {
        Ok(collected(base, fields, end))
    }
}

/// The row that a record gives: its first field is the base date, the fields
/// after it are the observations of successive months.
pub open spec fn row_of(record: Seq<Seq<u8>>) -> Result<Row, Failure> {
    if record.len() == 0 {
        Err(Failure::MissingDateColumn)
    } else if !valid_utf8(record[0]) {
        Err(Failure::MalformedRecord)
    } else {
        match date_of_text(record[0]) {
            Err(e) => Err(Failure::Date(e)),
            Ok(base) => row_of_values(base, record.skip(1)),
        }
    }
}

/// Sorts a field after the date.
pub fn classify_field(field: &[u8]) -> (kind: FieldKind)
    ensures
        kind == field_kind(field@),
{
    if field.len() == 0 {
        FieldKind::Blank
    } else if utf8_text(field).is_none() {
        FieldKind::Malformed
    } else if !is_numeric_literal(field) {
        FieldKind::NotNumeric
    } else {
        FieldKind::Value
    }
}

/// Every timestamp among the entries of the first `n` observations lies
/// before the day of any observation from `n` on.
pub proof fn lemma_collected_before(base: CalendarDate, fields: Seq<Seq<u8>>, n: int, later: int)
    requires
        1 <= base.month <= 12,
        0 <= n <= later,
        months_later(base, later) is Some,
    ensures
        ({
            let date = months_later(base, later)->0;
            forall|i: int|
                0 <= i < collected(base, fields, n).timestamps.len() ==> #[trigger] collected(
                    base,
                    fields,
                    n,
                ).timestamps[i] < unix_midnight(
                    date.year as int,
                    date.month as int,
                    date.day as int,
                )
        }),
    decreases n,
{
    if n > 0 {
        let date = months_later(base, later)->0;
        let limit = unix_midnight(date.year as int, date.month as int, date.day as int);
        let before = collected(base, fields, n - 1);
        let now = collected(base, fields, n);
        lemma_collected_before(base, fields, n - 1, later);
        if months_later(base, n - 1) is Some {
            lemma_more_months_later_time(base, n - 1, later);
            assert forall|i: int| 0 <= i < now.timestamps.len() implies #[trigger] now.timestamps[i]
                < limit by {
                if i < before.timestamps.len() {
                    assert(now.timestamps[i] == before.timestamps[i]);
                }
            }
        }
    }
}

/// The entries of any number of observations form a well-formed row: as many
/// timestamps as values, and the timestamps strictly increasing.
pub proof fn lemma_collected_wf(base: CalendarDate, fields: Seq<Seq<u8>>, n: int)
    requires
        1 <= base.month <= 12,
    ensures
        collected(base, fields, n).wf(),
    decreases n,
{
    if n > 0 {
        lemma_collected_wf(base, fields, n - 1);
        if months_later(base, n - 1) is Some {
            lemma_collected_before(base, fields, n - 1, n - 1);
        }
    }
}

/// Every value among the entries of the first `n` observations is one of the
/// fields read, and so a numeric literal in well-formed UTF-8.
pub proof fn lemma_collected_values(base: CalendarDate, fields: Seq<Seq<u8>>, n: int)
    requires
        0 <= n <= values_end(fields),
    ensures
        forall|i: int|
            0 <= i < collected(base, fields, n).values.len() ==> field_kind(
                #[trigger] collected(base, fields, n).values[i],
            ) is Value,
    decreases n,
{
    if n > 0 {
        lemma_collected_values(base, fields, n - 1);
        lemma_leading_count_bounds(fields, is_value());
        assert(is_value()(fields[n - 1]));
    }
}

/// A row read from a record has one timestamp for each value it kept, its
/// timestamps increase strictly from left to right, and each of its values
/// is a numeric literal.
pub proof fn lemma_row_wf(record: Seq<Seq<u8>>)
    requires
        row_of(record) is Ok,
    ensures
        row_of(record)->Ok_0.wf(),
        row_of(record)->Ok_0.timestamps.len() == row_of(record)->Ok_0.values.len(),
        row_of(record)->Ok_0.all_numeric(),
{
    let base = date_of_text(record[0])->Ok_0;
    let fields = record.skip(1);
    lemma_leading_count_bounds(fields, is_value());
    lemma_collected_wf(base, fields, values_end(fields));
    lemma_collected_values(base, fields, values_end(fields));
}

/// Reads one record into a row.
///
/// The first field is the base date. The fields after it are read from the
/// left, field `i` for the day `i - 1` months after the base date, up to the
/// first empty field; what stands after an empty field is not looked at. A
/// field read must be a numeric literal. It gives an entry where the calendar
/// has its day, and nothing where it has not.
pub fn parse_row(record: &Vec<Vec<u8>>) -> (r: Result<RowData, ParseError>)
    ensures
        row_result_view(r) == row_of(fields_view(record@)),
        r matches Ok(row) ==> row@.wf() && row@.all_numeric(),
{
    if record.len() == 0 {
        return Err(ParseError::MissingDateColumn);
    }
    let ghost fields = fields_view(record@);
    let ghost rest = fields.skip(1);
    let base = match utf8_text(record[0].as_slice()) {
        None => {
            return Err(ParseError::MalformedRecord);
        },
        Some(text) => match parse_mm_dd_yyyy(text) {
            Err(e) => {
                return Err(ParseError::Date(e));
            },
            Ok(date) => date,
        },
    };
    let mut timestamps: Vec<i64> = Vec::new();
    let mut values: Vec<Vec<u8>> = Vec::new();
    let mut i: usize = 1;
    proof {
        let start = (RowData { timestamps, values })@;
        assert(start.timestamps =~= collected(base, rest, 0).timestamps);
        assert(start.values =~= collected(base, rest, 0).values);
    }
    while i < record.len()
        invariant
            1 <= i <= record.len(),
            base.wf(),
            fields == fields_view(record@),
            valid_utf8(fields[0]),
            date_of_text(fields[0]) == Ok::<CalendarDate, DateError>(base),
            rest == fields.skip(1),
            forall|j: int| 0 <= j < i - 1 ==> field_kind(#[trigger] rest[j]) is Value,
            (RowData { timestamps, values })@ == collected(base, rest, i - 1),
        decreases record.len() - i,
    {
        let field = record[i].as_slice();
        proof {
            assert(field@ == rest[i - 1]);
            lemma_collected_wf(base, rest, i - 1);
        }
        match classify_field(field) {
            FieldKind::Blank => {
                proof {
                    lemma_leading_count(rest, is_value(), i - 1);
                    lemma_collected_values(base, rest, i - 1);
                }
                return Ok(RowData { timestamps, values });
            },
            FieldKind::Malformed => {
                proof {
                    lemma_leading_count(rest, is_value(), i - 1);
                }
                return Err(ParseError::MalformedRecord);
            },
            FieldKind::NotNumeric => {
                proof {
                    lemma_leading_count(rest, is_value(), i - 1);
                }
                return Err(ParseError::NumericParse { text: slice_to_vec(field) });
            },
            FieldKind::Value => {
                let offset = i - 1;
                let date = if offset <= i32::MAX as usize {
                    add_months(base, offset as i32)
                } else {
                    assert(months_later(base, offset as int) is None);
                    None
                };
                match date {
                    Some(date) => {
                        timestamps.push(date.unix_timestamp());
                        values.push(slice_to_vec(field));
                        proof {
                            let after = (RowData { timestamps, values })@;
                            let next = collected(base, rest, i as int);
                            assert(after.timestamps =~= next.timestamps);
                            assert(after.values =~= next.values);
                        }
                    },
                    None => {},
                }
            },
        }
        i += 1;
    }
    proof {
        lemma_leading_count(rest, is_value(), i - 1);
        lemma_collected_wf(base, rest, i - 1);
        lemma_collected_values(base, rest, i - 1);
    }
    Ok(RowData { timestamps, values })
}

/// The records of a file, each as its fields.
pub open spec fn records_view(records: Seq<Vec<Vec<u8>>>) -> Seq<Seq<Seq<u8>>> {
    Seq::new(records.len(), |i: int| fields_view(records[i]@))
}

/// The dataset that a file's records give: one row for each record that has
/// a field, in the order of the records. The first record that fails, fails
/// the whole: no row of the file is handed out then.
pub open spec fn dataset_of(records: Seq<Seq<Seq<u8>>>) -> Result<Seq<Row>, Failure>
    decreases records.len(),
{
    if records.len() == 0 {
        Ok(Seq::empty())
    } else {
        match dataset_of(records.drop_last()) {
            Err(e) => Err(e),
            Ok(rows) => if records.last().len() == 0 {
                Ok(rows)
            } else {
                match row_of(records.last()) {
                    Err(e) => Err(e),
                    Ok(row) => Ok(rows.push(row)),
                }
            },
        }
    }
}

/// A failure among the first `k` records is the failure of the whole file,
/// whatever the later records hold.
pub proof fn lemma_first_failure_stands(records: Seq<Seq<Seq<u8>>>, k: int)
    requires
        0 <= k <= records.len(),
        dataset_of(records.take(k)) is Err,
    ensures
        dataset_of(records) == dataset_of(records.take(k)),
    decreases records.len() - k,
{
    if k < records.len() {
        assert(records.take(k + 1).drop_last() == records.take(k));
        lemma_first_failure_stands(records, k + 1);
    } else {
        assert(records.take(k) == records);
    }
}

/// The test that a record has a field.
pub open spec fn has_fields() -> spec_fn(Seq<Seq<u8>>) -> bool {
    |record: Seq<Seq<u8>>| record.len() > 0
}

/// A dataset has exactly one row for each record that has a field, in the
/// order of those records: records without fields add nothing.
pub proof fn lemma_one_row_per_filled_record(records: Seq<Seq<Seq<u8>>>)
    requires
        dataset_of(records) is Ok,
    ensures
        dataset_of(records)->Ok_0.len() == records.filter(has_fields()).len(),
        forall|i: int|
            0 <= i < dataset_of(records)->Ok_0.len() ==> row_of(
                #[trigger] records.filter(has_fields())[i],
            ) == Ok::<Row, Failure>(dataset_of(records)->Ok_0[i]),
    decreases records.len(),
{
    reveal(Seq::filter);
    if records.len() > 0 {
        lemma_one_row_per_filled_record(records.drop_last());
    }
}

/// A file is read in full exactly when each of its records that has a field
/// can be read as a row.
pub proof fn lemma_dataset_needs_every_row(records: Seq<Seq<Seq<u8>>>)
    ensures
        dataset_of(records) is Ok <==> forall|i: int|
            0 <= i < records.len() && (#[trigger] records[i]).len() > 0 ==> row_of(records[i]) is Ok,
    decreases records.len(),
{
    if records.len() > 0 {
        let front = records.drop_last();
        lemma_dataset_needs_every_row(front);
        assert forall|i: int| 0 <= i < front.len() implies #[trigger] front[i] == records[i] by {}
        if dataset_of(records) is Ok {
            assert forall|i: int| 0 <= i < records.len() && (#[trigger] records[i]).len() > 0 implies row_of(
                records[i],
            ) is Ok by {
                if i < front.len() {
                    assert(front[i] == records[i]);
                }
            }
        }
    }
}

/// Every row of a dataset has one timestamp for each value, timestamps that
/// increase strictly, and numeric literals for values.
pub proof fn lemma_dataset_rows_wf(records: Seq<Seq<Seq<u8>>>)
    requires
        dataset_of(records) is Ok,
    ensures
        forall|i: int|
            0 <= i < dataset_of(records)->Ok_0.len() ==> (#[trigger] dataset_of(records)->Ok_0[i]).wf()
                && dataset_of(records)->Ok_0[i].all_numeric(),
    decreases records.len(),
{
    if records.len() > 0 {
        lemma_dataset_rows_wf(records.drop_last());
        if records.last().len() > 0 {
            lemma_row_wf(records.last());
        }
    }
}

/// Reading is a function of the bytes read: two readings of the same file
/// hold the same, be it the dataset or the failure.
pub proof fn lemma_same_file_same_dataset(
    data: Seq<u8>,
    first: Result<Vec<RowData>, ParseError>,
    second: Result<Vec<RowData>, ParseError>,
)
    requires
        dataset_result_view(first) == file_result(data),
        dataset_result_view(second) == file_result(data),
    ensures
        dataset_result_view(first) == dataset_result_view(second),
        first is Ok <==> second is Ok,
{
}

/// Reads the records of a file into a dataset.
///
/// A record without fields gives no row. Every other record gives one row,
/// as [`parse_row`] reads it; the first that cannot be read ends the work with
/// its error.
pub fn parse_records(records: &Vec<Vec<Vec<u8>>>) -> (r: Result<Vec<RowData>, ParseError>)
    ensures
        dataset_result_view(r) == dataset_of(records_view(records@)),
        r matches Ok(rows) ==> forall|i: int|
            0 <= i < rows@.len() ==> (#[trigger] rows@[i])@.wf() && rows@[i]@.all_numeric(),
{
    let ghost all = records_view(records@);
    let mut dataset: Vec<RowData> = Vec::new();
    let mut i: usize = 0;
    assert(all.take(0) == Seq::<Seq<Seq<u8>>>::empty());
    assert(rows_view(dataset@) == Seq::<Row>::empty());
    while i < records.len()
        invariant
            i <= records.len(),
            all == records_view(records@),
            dataset_of(all.take(i as int)) == Ok::<Seq<Row>, Failure>(rows_view(dataset@)),
            forall|k: int|
                0 <= k < dataset@.len() ==> (#[trigger] dataset@[k])@.wf() && dataset@[k]@.all_numeric(),
        decreases records.len() - i,
    {
        let record = &records[i];
        proof {
            assert(all.take(i + 1).drop_last() == all.take(i as int));
            assert(all.take(i + 1).last() == fields_view(record@));
        }
        if record.len() > 0 {
            match parse_row(record) {
                Err(e) => {
                    proof {
                        lemma_first_failure_stands(all, i + 1);
                    }
                    return Err(e);
                },
                Ok(row) => {
                    let ghost before = rows_view(dataset@);
                    dataset.push(row);
                    assert(rows_view(dataset@) == before.push(row@));
                },
            }
        }
        i += 1;
    }
    assert(all.take(i as int) == all);
    Ok(dataset)
}

/// The outcome of reading a file with the given bytes.
pub open spec fn file_result(data: Seq<u8>) -> Result<Seq<Row>, Failure> {
    match csv_records(data) {
        None => Err(Failure::Io),
        Some(records) => dataset_of(records),
    }
}

/// Reads a file, given as its bytes, into a dataset: the records are found
/// by the `csv` reader and turned into rows by [`parse_records`].
pub fn parse_csv_file(data: &[u8]) -> (r: Result<Vec<RowData>, ParseError>)
    ensures
        dataset_result_view(r) == file_result(data@),
        r matches Ok(rows) ==> forall|i: int|
            0 <= i < rows@.len() ==> (#[trigger] rows@[i])@.wf() && rows@[i]@.all_numeric(),
{
    match read_records(data) {
        Err(_) => Err(ParseError::Io),
        Ok(records) => parse_records(&records),
    }
}

} // verus!
