//! Columns of values in memory: the part of Arrow's record batches that the
//! library reads and builds.

use std::sync::Arc;
use arrow_array::cast::AsArray;
use arrow_array::types::{
    Date32Type, Decimal128Type, Decimal256Type, Int16Type, Int32Type, Int64Type, Int8Type,
    TimestampMicrosecondType, TimestampMillisecondType, TimestampNanosecondType,
    TimestampSecondType, UInt16Type, UInt32Type, UInt64Type, UInt8Type,
};
use arrow_array::{Array, ArrayRef, BooleanArray, RecordBatch, StringArray, UInt32Array};
use arrow_schema::{ArrowError, DataType, Field, Schema, TimeUnit};
use arrow_select::take::take_record_batch;
use vstd::prelude::*;
use vstd::utf8::encode_utf8;

verus! {

/// Columns of equal length with their names: an `arrow_array::RecordBatch`.
#[verifier::external_body]
#[derive(Debug, PartialEq)]
pub struct Table {
    pub batch: RecordBatch,
}

/// `arrow_schema::ArrowError`: why an operation on columns failed.
#[verifier::external_type_specification]
#[verifier::external_body]
pub struct ExArrowError(arrow_schema::ArrowError);

/// Unit of a timestamp.
#[derive(Debug, Clone, Copy, PartialEq, Eq, Structural)]
pub enum TimestampUnit {
    Second,
    Millisecond,
    Microsecond,
    Nanosecond,
}

/// One value of a column.
#[derive(Debug, PartialEq, Eq)]
pub enum Cell {
    Null,
    Text(String),
    Signed(i64),
    Unsigned(u64),
    Boolean(bool),
    Date(i32),
    Timestamp { unit: TimestampUnit, value: i64 },
    Decimal128 { precision: u8, scale: i8, value: i128 },
    Decimal256 { precision: u8, scale: i8, digits: String },
    Other { data_type: String },
}

/// What one value of a column stands for. A value of a type that cannot be a key is
/// held by the name of the type and a number of its own among the values of the type.
pub enum CellDatum {
    Null,
    Text(Seq<char>),
    Signed(i64),
    Unsigned(u64),
    Boolean(bool),
    Date(i32),
    Timestamp(TimestampUnit, i64),
    Decimal128(u8, i8, i128),
    Decimal256(u8, i8, Seq<char>),
    Other(Seq<char>, nat),
}

impl CellDatum {
    /// What can be read of the value: of a type that cannot be a key only the name.
    pub open spec fn legible(self) -> CellDatum {
        match self {
            CellDatum::Other(name, _) => CellDatum::Other(name, 0),
            _ => self,
        }
    }

    /// The value is of a type with this name, which cannot be a key.
    pub open spec fn is_other(self, name: Seq<char>) -> bool {
        self matches CellDatum::Other(other, _) && other == name
    }
}

impl View for Cell {
    type V = CellDatum;

    open spec fn view(&self) -> CellDatum {
        match *self {
            Cell::Null => CellDatum::Null,
            Cell::Text(s) => CellDatum::Text(s@),
            Cell::Signed(n) => CellDatum::Signed(n),
            Cell::Unsigned(n) => CellDatum::Unsigned(n),
            Cell::Boolean(b) => CellDatum::Boolean(b),
            Cell::Date(n) => CellDatum::Date(n),
            Cell::Timestamp { unit, value } => CellDatum::Timestamp(unit, value),
            Cell::Decimal128 { precision, scale, value } => CellDatum::Decimal128(
                precision,
                scale,
                value,
            ),
            Cell::Decimal256 { precision, scale, digits } => CellDatum::Decimal256(
                precision,
                scale,
                digits@,
            ),
            Cell::Other { data_type } => CellDatum::Other(data_type@, 0),
        }
    }
}

/// The columns of a batch: the name of each with its values.
pub uninterp spec fn batch_columns(batch: Table) -> Seq<(Seq<char>, Seq<CellDatum>)>;

/// The number of rows of a batch.
pub uninterp spec fn batch_row_count(batch: Table) -> nat;

/// The columns of a batch are what its schema says: of the types that it gives, and
/// without nulls where it allows none.
pub uninterp spec fn batch_sound(batch: Table) -> bool;

/// Each row of a batch can be taken once: in its columns, at every depth, the buffers
/// of fixed-width values hold whole values, lists of one size hold at most `u32::MAX`
/// items, fields of structs have nulls, logical ones too, only where these are
/// allowed, and values that several rows share do not outgrow their offsets where
/// each of the rows gets its own.
pub uninterp spec fn batch_whole(batch: Table) -> bool;

/// Rows can be taken out of a batch.
pub open spec fn takeable(batch: Table) -> bool {
    batch_columns(batch).len() > 0 && batch_sound(batch)
}

/// The value in a column and a row.
pub open spec fn cell_at(batch: Table, column: int, row: int) -> CellDatum {
    batch_columns(batch)[column].1[row]
}

/// Some column of the batch has the name.
pub open spec fn has_column(batch: Table, name: Seq<char>) -> bool {
    exists|i: int| 0 <= i < batch_columns(batch).len() && #[trigger] batch_columns(batch)[i].0 == name
}

/// `index` is the first column with the name.
pub open spec fn first_column(batch: Table, name: Seq<char>, index: int) -> bool {
    &&& 0 <= index < batch_columns(batch).len()
    &&& batch_columns(batch)[index].0 == name
    &&& forall|i: int| 0 <= i < index ==> #[trigger] batch_columns(batch)[i].0 != name
}

/// `RecordBatch::num_rows`: the number of rows; each column has as many values.
#[verifier::external_body]
pub(crate) fn row_total(batch: &Table) -> (rows: usize)
    ensures
        rows == batch_row_count(*batch),
        forall|i: int| 0 <= i < batch_columns(*batch).len() ==> #[trigger] batch_columns(*batch)[i].1.len() == rows,
{
    batch.batch.num_rows()
}

/// `Schema::index_of`: the first column with a name; an error where no column
/// has it.
#[verifier::external_body]
pub(crate) fn column_index(batch: &Table, name: &str) -> (result: Result<usize, ArrowError>)
    ensures
        match result {
            Ok(index) => first_column(*batch, name@, index as int),
            Err(_) => !has_column(*batch, name@),
        },
{
    batch.batch.schema().index_of(name)
}

/// `Array::is_null`: whether the value is marked as null.
#[verifier::external_body]
fn is_null_at(batch: &Table, column: usize, row: usize) -> (result: bool)
    requires
        column < batch_columns(*batch).len(),
        row < batch_row_count(*batch),
    ensures
        result == (cell_at(*batch, column as int, row as int) is Null),
{
    batch.batch.column(column).is_null(row)
}

/// `GenericStringArray::value`: the text in a column of type `Utf8` or
/// `LargeUtf8`.
#[verifier::external_body]
fn text_at(batch: &Table, column: usize, row: usize) -> (result: Option<String>)
    requires
        column < batch_columns(*batch).len(),
        row < batch_row_count(*batch),
        !(cell_at(*batch, column as int, row as int) is Null),
    ensures
        match result {
            Some(s) => cell_at(*batch, column as int, row as int) == CellDatum::Text(s@),
            None => !(cell_at(*batch, column as int, row as int) is Text),
        },
{
    let array = batch.batch.column(column);
    match array.data_type() {
        DataType::Utf8 => Some(array.as_string::<i32>().value(row).to_string()),
        DataType::LargeUtf8 => Some(array.as_string::<i64>().value(row).to_string()),
        _ => None,
    }
}

/// `PrimitiveArray::value`: the number in a column of type `Int8`, `Int16`,
/// `Int32` or `Int64`.
#[verifier::external_body]
fn signed_at(batch: &Table, column: usize, row: usize) -> (result: Option<i64>)
    requires
        column < batch_columns(*batch).len(),
        row < batch_row_count(*batch),
        !(cell_at(*batch, column as int, row as int) is Null),
    ensures
        match result {
            Some(n) => cell_at(*batch, column as int, row as int) == CellDatum::Signed(n),
            None => !(cell_at(*batch, column as int, row as int) is Signed),
        },
{
    let array = batch.batch.column(column);
    match array.data_type() {
        DataType::Int8 => Some(array.as_primitive::<Int8Type>().value(row) as i64),
        DataType::Int16 => Some(array.as_primitive::<Int16Type>().value(row) as i64),
        DataType::Int32 => Some(array.as_primitive::<Int32Type>().value(row) as i64),
        DataType::Int64 => Some(array.as_primitive::<Int64Type>().value(row)),
        _ => None,
    }
}

/// `PrimitiveArray::value`: the number in a column of type `UInt8`, `UInt16`,
/// `UInt32` or `UInt64`.
#[verifier::external_body]
fn unsigned_at(batch: &Table, column: usize, row: usize) -> (result: Option<u64>)
    requires
        column < batch_columns(*batch).len(),
        row < batch_row_count(*batch),
        !(cell_at(*batch, column as int, row as int) is Null),
    ensures
        match result {
            Some(n) => cell_at(*batch, column as int, row as int) == CellDatum::Unsigned(n),
            None => !(cell_at(*batch, column as int, row as int) is Unsigned),
        },
{
    let array = batch.batch.column(column);
    match array.data_type() {
        DataType::UInt8 => Some(array.as_primitive::<UInt8Type>().value(row) as u64),
        DataType::UInt16 => Some(array.as_primitive::<UInt16Type>().value(row) as u64),
        DataType::UInt32 => Some(array.as_primitive::<UInt32Type>().value(row) as u64),
        DataType::UInt64 => Some(array.as_primitive::<UInt64Type>().value(row)),
        _ => None,
    }
}

/// `BooleanArray::value`: the value in a column of type `Boolean`.
#[verifier::external_body]
fn boolean_at(batch: &Table, column: usize, row: usize) -> (result: Option<bool>)
    requires
        column < batch_columns(*batch).len(),
        row < batch_row_count(*batch),
        !(cell_at(*batch, column as int, row as int) is Null),
    ensures
        match result {
            Some(b) => cell_at(*batch, column as int, row as int) == CellDatum::Boolean(b),
            None => !(cell_at(*batch, column as int, row as int) is Boolean),
        },
{
    batch.batch.column(column).as_boolean_opt().map(|array| array.value(row))
}

/// `PrimitiveArray::value`: the day in a column of type `Date32`.
#[verifier::external_body]
fn date_at(batch: &Table, column: usize, row: usize) -> (result: Option<i32>)
    requires
        column < batch_columns(*batch).len(),
        row < batch_row_count(*batch),
        !(cell_at(*batch, column as int, row as int) is Null),
    ensures
        match result {
            Some(n) => cell_at(*batch, column as int, row as int) == CellDatum::Date(n),
            None => !(cell_at(*batch, column as int, row as int) is Date),
        },
{
    batch.batch.column(column).as_primitive_opt::<Date32Type>().map(|array| array.value(row))
}

/// `PrimitiveArray::value`: the unit and the number in a column of type
/// `Timestamp`, with a time zone or without.
#[verifier::external_body]
fn timestamp_at(batch: &Table, column: usize, row: usize) -> (result: Option<
    (TimestampUnit, i64),
>)
    requires
        column < batch_columns(*batch).len(),
        row < batch_row_count(*batch),
        !(cell_at(*batch, column as int, row as int) is Null),
    ensures
        match result {
            Some(t) => cell_at(*batch, column as int, row as int) == CellDatum::Timestamp(t.0, t.1),
            None => !(cell_at(*batch, column as int, row as int) is Timestamp),
        },
{
    let a = batch.batch.column(column);
    let DataType::Timestamp(unit, _) = a.data_type() else { return None };
    Some(match unit {
        TimeUnit::Second => (TimestampUnit::Second, a.as_primitive::<TimestampSecondType>().value(row)),
        TimeUnit::Millisecond => (TimestampUnit::Millisecond, a.as_primitive::<TimestampMillisecondType>().value(row)),
        TimeUnit::Microsecond => (TimestampUnit::Microsecond, a.as_primitive::<TimestampMicrosecondType>().value(row)),
        TimeUnit::Nanosecond => (TimestampUnit::Nanosecond, a.as_primitive::<TimestampNanosecondType>().value(row)),
    })
}

/// `PrimitiveArray::value`: precision, scale and unscaled number in a column of
/// type `Decimal128`.
#[verifier::external_body]
fn decimal128_at(batch: &Table, column: usize, row: usize) -> (result: Option<(u8, i8, i128)>)
    requires
        column < batch_columns(*batch).len(),
        row < batch_row_count(*batch),
        !(cell_at(*batch, column as int, row as int) is Null),
    ensures
        match result {
            Some(d) => cell_at(*batch, column as int, row as int) == CellDatum::Decimal128(
                d.0,
                d.1,
                d.2,
            ),
            None => !(cell_at(*batch, column as int, row as int) is Decimal128),
        },
{
    let array = batch.batch.column(column);
    match array.data_type() {
        DataType::Decimal128(precision, scale) => Some(
            (*precision, *scale, array.as_primitive::<Decimal128Type>().value(row)),
        ),
        _ => None,
    }
}

/// `PrimitiveArray::value`: precision, scale and the numeral of the unscaled
/// number in a column of type `Decimal256`.
#[verifier::external_body]
fn decimal256_at(batch: &Table, column: usize, row: usize) -> (result: Option<
    (u8, i8, String),
>)
    requires
        column < batch_columns(*batch).len(),
        row < batch_row_count(*batch),
        !(cell_at(*batch, column as int, row as int) is Null),
    ensures
        match result {
            Some(d) => cell_at(*batch, column as int, row as int) == CellDatum::Decimal256(
                d.0,
                d.1,
                d.2@,
            ),
            None => !(cell_at(*batch, column as int, row as int) is Decimal256),
        },
{
    let array = batch.batch.column(column);
    match array.data_type() {
        DataType::Decimal256(precision, scale) => Some(
            (*precision, *scale, array.as_primitive::<Decimal256Type>().value(row).to_string()),
        ),
        _ => None,
    }
}

/// `DataType::to_string`: the name of the type of a column whose values cannot
/// be keys.
#[verifier::external_body]
fn column_type(batch: &Table, column: usize) -> (name: String)
    requires
        column < batch_columns(*batch).len(),
    ensures
        forall|row: int|
            0 <= row < batch_row_count(*batch) && (#[trigger] cell_at(*batch, column as int, row)
                is Other) ==> cell_at(*batch, column as int, row).is_other(name@),
{
    batch.batch.column(column).data_type().to_string()
}

/// Reads one value of a column.
pub fn read_cell(batch: &Table, column: usize, row: usize) -> (cell: Cell)
    requires
        column < batch_columns(*batch).len(),
        row < batch_row_count(*batch),
    ensures
        cell@ == cell_at(*batch, column as int, row as int).legible(),
{
    if is_null_at(batch, column, row) {
        return Cell::Null;
    }
    if let Some(text) = text_at(batch, column, row) {
        return Cell::Text(text);
    }
    if let Some(n) = signed_at(batch, column, row) {
        return Cell::Signed(n);
    }
    if let Some(n) = unsigned_at(batch, column, row) {
        return Cell::Unsigned(n);
    }
    if let Some(b) = boolean_at(batch, column, row) {
        return Cell::Boolean(b);
    }
    if let Some(n) = date_at(batch, column, row) {
        return Cell::Date(n);
    }
    if let Some((unit, value)) = timestamp_at(batch, column, row) {
        return Cell::Timestamp { unit, value };
    }
    if let Some((precision, scale, value)) = decimal128_at(batch, column, row) {
        return Cell::Decimal128 { precision, scale, value };
    }
    if let Some((precision, scale, digits)) = decimal256_at(batch, column, row) {
        return Cell::Decimal256 { precision, scale, digits };
    }
    let cell = Cell::Other { data_type: column_type(batch, column) };
    assert(cell_at(*batch, column as int, row as int) is Other);
    cell
}

/// `taken` holds the rows of `batch` that `indexes` name, in that order.
pub open spec fn rows_taken(batch: Table, indexes: Seq<u32>, taken: Table) -> bool {
    &&& batch_row_count(taken) == indexes.len()
    &&& batch_columns(taken).len() == batch_columns(batch).len()
    &&& forall|i: int|
        0 <= i < batch_columns(batch).len() ==> #[trigger] batch_columns(taken)[i] == (
            batch_columns(batch)[i].0,
            Seq::new(
                indexes.len(),
                |k: int| batch_columns(batch)[i].1[indexes[k] as int],
            ),
        )
}

/// No index comes twice.
pub open spec fn distinct_indexes(indexes: Seq<u32>) -> bool {
    forall|j: int, k: int|
        0 <= j < k < indexes.len() ==> #[trigger] indexes[j] != #[trigger] indexes[k]
}

/// `arrow_select::take::take_record_batch`: the rows of a whole batch at some
/// positions, each taken once, with their values of whatever type, as a sound and
/// whole batch. A batch without columns is
/// refused; a sound batch with columns is not. Nothing is said of when a batch that is
/// not sound is refused. Rows that come twice are left out because lists panic where
/// their items then outgrow the offsets.
#[verifier::external_body]
pub(crate) fn take_rows(batch: &Table, indexes: &Vec<u32>) -> (result: Result<
    Table,
    ArrowError,
>)
    requires
        forall|k: int| 0 <= k < indexes@.len() ==> #[trigger] indexes@[k] < batch_row_count(*batch),
        distinct_indexes(indexes@),
        batch_whole(*batch),
    ensures
        takeable(*batch) ==> result is Ok,
        result matches Ok(taken) ==> rows_taken(*batch, indexes@, taken) && takeable(taken)
            && batch_whole(taken),
{
    let indexes = UInt32Array::from(indexes.clone());
    Ok(Table { batch: take_record_batch(&batch.batch, &indexes)? })
}

/// The values of a column of optional numbers.
pub open spec fn number_cells(values: Seq<Option<u32>>) -> Seq<CellDatum> {
    Seq::new(
        values.len(),
        |i: int|
            match values[i] {
                Some(n) => CellDatum::Unsigned(n as u64),
                None => CellDatum::Null,
            },
    )
}

/// The values of a column of truth values.
pub open spec fn boolean_cells(values: Seq<bool>) -> Seq<CellDatum> {
    Seq::new(values.len(), |i: int| CellDatum::Boolean(values[i]))
}

/// The contents of optional texts.
pub open spec fn optional_texts(values: Seq<Option<String>>) -> Seq<Option<Seq<char>>> {
    Seq::new(
        values.len(),
        |i: int|
            match values[i] {
                Some(s) => Some(s@),
                None => None,
            },
    )
}

/// The values of a column of optional texts.
pub open spec fn text_cells(values: Seq<Option<Seq<char>>>) -> Seq<CellDatum> {
    Seq::new(
        values.len(),
        |i: int|
            match values[i] {
                Some(s) => CellDatum::Text(s),
                None => CellDatum::Null,
            },
    )
}

/// No value is missing.
pub open spec fn all_present(values: Seq<Option<u32>>) -> bool {
    forall|i: int| 0 <= i < values.len() ==> #[trigger] values[i] is Some
}

/// A column of so many values is as long as the columns of a batch.
pub open spec fn same_length(batch: Table, values: nat) -> bool {
    batch_columns(batch).len() == 0 || values == batch_row_count(batch)
}

/// A column of numbers can stand beside the columns of a batch.
pub open spec fn fits_batch(batch: Table, values: Seq<Option<u32>>, nullable: bool) -> bool {
    same_length(batch, values.len()) && (nullable || all_present(values))
}

/// `RecordBatch::try_new`: the columns of a batch and a `UInt32` column behind
/// them, as a sound batch, which is whole if the first is. It has as many rows as the
/// new column. It is made only if the new column is as long as the others and, where
/// it may hold no nulls, holds none; with the columns of a sound batch it is made
/// whenever that is so.
#[verifier::external_body]
pub(crate) fn append_number_column(
    batch: &Table,
    name: &str,
    values: Vec<Option<u32>>,
    nullable: bool,
) -> (result: Result<Table, ArrowError>)
    ensures
        result is Ok ==> fits_batch(*batch, values@, nullable),
        batch_sound(*batch) && fits_batch(*batch, values@, nullable) ==> result is Ok,
        result matches Ok(wider) ==> batch_sound(wider) && (batch_whole(*batch) ==> batch_whole(
            wider,
        )) && batch_row_count(wider) == values@.len() && batch_columns(wider) == batch_columns(*batch).push(
            (name@, number_cells(values@)),
        ),
{
    let mut fields = batch.batch.schema().fields().to_vec();
    fields.push(Arc::new(Field::new(name, DataType::UInt32, nullable)));
    let mut columns = batch.batch.columns().to_vec();
    columns.push(Arc::new(UInt32Array::from(values)) as ArrayRef);
    let batch = RecordBatch::try_new(Arc::new(Schema::new(fields)), columns)?;
    Ok(Table { batch })
}

/// `RecordBatch::try_new`: the columns of a batch and a `Boolean` column without
/// nulls behind them, as a sound batch, which is whole if the first is. It has as many
/// rows as the new column. It is made only if the new column is as long as the others;
/// with the columns of a sound batch it is made whenever that is so.
#[verifier::external_body]
pub(crate) fn append_boolean_column(batch: &Table, name: &str, values: Vec<bool>) -> (result: Result<
    Table,
    ArrowError,
>)
    ensures
        result is Ok ==> same_length(*batch, values@.len()),
        batch_sound(*batch) && same_length(*batch, values@.len()) ==> result is Ok,
        result matches Ok(wider) ==> batch_sound(wider) && (batch_whole(*batch) ==> batch_whole(
            wider,
        )) && batch_row_count(wider) == values@.len() && batch_columns(wider) == batch_columns(*batch).push(
            (name@, boolean_cells(values@)),
        ),
{
    let mut fields = batch.batch.schema().fields().to_vec();
    fields.push(Arc::new(Field::new(name, DataType::Boolean, false)));
    let mut columns = batch.batch.columns().to_vec();
    columns.push(Arc::new(BooleanArray::from(values)) as ArrayRef);
    let batch = RecordBatch::try_new(Arc::new(Schema::new(fields)), columns)?;
    Ok(Table { batch })
}

/// Bytes of all texts of a column.
pub open spec fn text_bytes(values: Seq<Option<Seq<char>>>) -> nat
    decreases values.len(),
{
    if values.len() == 0 {
        0
    } else {
        text_bytes(values.drop_last()) + match values.last() {
            Some(s) => encode_utf8(s).len(),
            None => 0nat,
        }
    }
}

/// The columns have one length.
pub open spec fn same_lengths(columns: Seq<Vec<Option<String>>>) -> bool {
    forall|i: int| 0 <= i < columns.len() ==> #[trigger] columns[i]@.len() == columns[0]@.len()
}

/// Columns of text and their names can make a batch.
pub open spec fn make_batch(names: nat, columns: Seq<Vec<Option<String>>>) -> bool {
    names == columns.len() && columns.len() > 0 && same_lengths(columns)
}

/// `RecordBatch::try_new`: columns of text that may hold nulls, as a sound and whole
/// batch. It is made exactly if there are as many names as columns, at least one, and the columns
/// have one length. A column holds at most 2147483647 bytes of text.
#[verifier::external_body]
pub(crate) fn text_batch(names: &Vec<String>, columns: Vec<Vec<Option<String>>>) -> (result: Result<
    Table,
    ArrowError,
>)
    requires
        forall|i: int|
            0 <= i < columns@.len() ==> text_bytes(optional_texts(#[trigger] columns@[i]@))
                <= i32::MAX,
    ensures
        result is Ok <==> make_batch(names@.len(), columns@),
        result matches Ok(batch) ==> batch_sound(batch) && batch_whole(batch)
            && batch_row_count(batch) == columns@[0]@.len() && batch_columns(batch) == Seq::new(
            columns@.len(),
            |i: int| (names@[i]@, text_cells(optional_texts(columns@[i]@))),
        ),
{
    let fields: Vec<Field> = names.iter().map(|name| Field::new(name, DataType::Utf8, true)).collect();
    let arrays = columns.into_iter().map(|values| Arc::new(StringArray::from(values)) as ArrayRef);
    let batch = RecordBatch::try_new(Arc::new(Schema::new(fields)), arrays.collect())?;
    Ok(Table { batch })
}

} // verus!
