//! Reading of key values out of columns, and the choice of the files to read.

use vstd::prelude::*;
use crate::config::DatasetFormat;
use crate::dataset::{texts, Dataset, Row};
use crate::error::Error;
use crate::key_encoding::{KeyDatum, KeyValue};
use crate::keymap::KeyMap;
use crate::record_batch::{
    batch_columns, batch_row_count, cell_at, column_index, first_column, has_column, read_cell,
    row_total, Cell, CellDatum, Table, TimestampUnit,
};
use crate::text::{decimal, decimal_int, push_decimal, push_decimal_int, text_less, text_order, TextOrder};

verus! {

/// A dataset that was read.
#[derive(Debug, PartialEq)]
pub struct InputDataset {
    pub path: String,
    pub format: DatasetFormat,
    pub files: Vec<InputFile>,
    pub rows: Dataset,
    pub batches: Vec<Table>,
}

/// A file of the input.
#[derive(Debug, PartialEq, Eq)]
pub struct InputFile {
    pub path: String,
    pub size_bytes: u64,
}

impl Clone for InputFile {
    fn clone(&self) -> (copy: Self)
        ensures
            copy == *self,
    {
        InputFile { path: self.path.clone(), size_bytes: self.size_bytes }
    }
}

impl InputDataset {
    /// A dataset in memory, without files.
    pub fn from_rows(rows: Dataset) -> (dataset: Self)
        ensures
            dataset.path@ == "<memory>"@,
            dataset.format == DatasetFormat::Parquet,
            dataset.files@ == Seq::<InputFile>::empty(),
            dataset.rows == rows,
            dataset.batches@ == Seq::<Table>::empty(),
    {
        InputDataset {
            path: "<memory>".to_owned(),
            format: DatasetFormat::Parquet,
            files: Vec::new(),
            rows,
            batches: Vec::new(),
        }
    }
}

/// Division that drops the fraction.
pub open spec fn truncated_div(a: int, b: int) -> int {
    if a >= 0 {
        a / b
    } else {
        -((-a) / b)
    }
}

/// A timestamp in microseconds.
pub open spec fn micros(unit: TimestampUnit, value: i64) -> int {
    match unit {
        TimestampUnit::Second => value * 1_000_000,
        TimestampUnit::Millisecond => value * 1_000,
        TimestampUnit::Microsecond => value as int,
        TimestampUnit::Nanosecond => truncated_div(value as int, 1_000),
    }
}

/// The microseconds of a timestamp fit.
pub open spec fn micros_fit(cell: CellDatum) -> bool {
    cell matches CellDatum::Timestamp(unit, value) ==> i64::MIN <= micros(unit, value) <= i64::MAX
}

/// The text of a decimal number.
pub open spec fn decimal_key(tag: Seq<char>, precision: u8, scale: i8, digits: Seq<char>) -> Seq<
    char,
> {
    tag + decimal(precision as nat) + seq![','] + decimal_int(scale as int) + seq![')', ':'] + digits
}

/// The key value that a cell stands for, unless its type cannot be a key.
pub open spec fn key_of_cell(cell: CellDatum) -> Option<KeyDatum> {
    match cell {
        CellDatum::Null => Some(KeyDatum::Null),
        CellDatum::Text(s) => Some(KeyDatum::Utf8(s)),
        CellDatum::Signed(n) => Some(KeyDatum::Int64(n)),
        CellDatum::Unsigned(n) => Some(KeyDatum::UInt64(n)),
        CellDatum::Boolean(b) => Some(KeyDatum::Boolean(b)),
        CellDatum::Date(n) => Some(KeyDatum::Date32(n)),
        CellDatum::Timestamp(unit, value) => Some(
            KeyDatum::TimestampMicros(micros(unit, value) as i64),
        ),
        CellDatum::Decimal128(precision, scale, value) => Some(
            KeyDatum::Decimal(
                decimal_key("decimal128("@, precision, scale, decimal_int(value as int)),
            ),
        ),
        CellDatum::Decimal256(precision, scale, digits) => Some(
            KeyDatum::Decimal(decimal_key("decimal256("@, precision, scale, digits)),
        ),
        CellDatum::Other(_, _) => None,
    }
}

fn to_micros(unit: TimestampUnit, value: i64) -> (result: Option<i64>)
    ensures
        match result {
            Some(n) => n == micros(unit, value),
            None => micros(unit, value) < i64::MIN || micros(unit, value) > i64::MAX,
        },
{
    match unit {
        TimestampUnit::Second => value.checked_mul(1_000_000),
        TimestampUnit::Millisecond => value.checked_mul(1_000),
        TimestampUnit::Microsecond => Some(value),
        TimestampUnit::Nanosecond => Some(value / 1_000),
    }
}

fn decimal_text(tag: &str, precision: u8, scale: i8, digits: &str) -> (s: String)
    ensures
        s@ == decimal_key(tag@, precision, scale, digits@),
{
    let mut out = tag.to_owned();
    push_decimal(&mut out, precision as u128);
    out.append(",");
    push_decimal_int(&mut out, scale as i128);
    out.append("):");
    out.append(digits);
    proof {
        reveal_strlit(",");
        reveal_strlit("):");
        assert(out@ =~= decimal_key(tag@, precision, scale, digits@));
    }
    out
}

/// The key value of a cell. A type that cannot be a key is refused.
pub fn key_value(column: &str, cell: &Cell) -> (result: Result<KeyValue, Error>)
    requires
        micros_fit(cell@),
    ensures
        match result {
            Ok(value) => key_of_cell(cell@) == Some(value@),
            Err(error) => error matches Error::UnsupportedColumnType { column: name, data_type }
                && name@ == column@ && cell@.is_other(data_type@),
        },
{
    match cell {
        Cell::Null => Ok(KeyValue::Null),
        Cell::Text(s) => Ok(KeyValue::Utf8(s.clone())),
        Cell::Signed(n) => Ok(KeyValue::Int64(*n)),
        Cell::Unsigned(n) => Ok(KeyValue::UInt64(*n)),
        Cell::Boolean(b) => Ok(KeyValue::Boolean(*b)),
        Cell::Date(n) => Ok(KeyValue::Date32(*n)),
        Cell::Timestamp { unit, value } => {
            let scaled: i64 = to_micros(*unit, *value).unwrap();
            Ok(KeyValue::TimestampMicros(scaled))
        },
        Cell::Decimal128 { precision, scale, value } => {
            let mut digits = String::new();
            push_decimal_int(&mut digits, *value);
            assert(digits@ =~= decimal_int(*value as int));
            Ok(KeyValue::Decimal(decimal_text("decimal128(", *precision, *scale, &digits)))
        },
        Cell::Decimal256 { precision, scale, digits } => Ok(
            KeyValue::Decimal(decimal_text("decimal256(", *precision, *scale, digits)),
        ),
        Cell::Other { data_type } => Err(
            Error::UnsupportedColumnType {
                column: column.to_owned(),
                data_type: data_type.clone(),
            },
        ),
    }
}

/// A cell cannot be used as the value of a key column.
pub open spec fn cell_refused(cell: CellDatum) -> bool {
    cell is Other || !micros_fit(cell)
}

/// `error` says why a cell of a column was refused.
pub open spec fn explains_cell(column: Seq<char>, cell: CellDatum, error: Error) -> bool {
    match error {
        Error::UnsupportedColumnType { column: name, data_type } => name@ == column
            && cell.is_other(data_type@),
        Error::TimestampOutOfRange { column: name } => name@ == column && !micros_fit(cell),
        _ => false,
    }
}

/// Reads the key value of a cell, whatever it holds.
pub fn checked_key_value(column: &str, cell: &Cell) -> (result: Result<KeyValue, Error>)
    ensures
        match result {
            Ok(value) => !cell_refused(cell@) && key_of_cell(cell@) == Some(value@),
            Err(error) => cell_refused(cell@) && explains_cell(column@, cell@, error),
        },
{
    if let Cell::Timestamp { unit, value } = cell {
        if to_micros(*unit, *value).is_none() {
            return Err(Error::TimestampOutOfRange { column: column.to_owned() });
        }
    }
    key_value(column, cell)
}

/// The column of a name: the first that has it.
pub open spec fn column_of(table: Table, name: Seq<char>) -> int {
    choose|i: int| first_column(table, name, i)
}

/// The value of a key column in a row.
pub open spec fn key_cell(table: Table, name: Seq<char>, row: int) -> CellDatum {
    cell_at(table, column_of(table, name), row)
}

/// All key columns are there.
pub open spec fn columns_present(table: Table, columns: Seq<Seq<char>>) -> bool {
    forall|j: int| 0 <= j < columns.len() ==> has_column(table, #[trigger] columns[j])
}

/// `values` are the values of the key columns in a row.
pub open spec fn row_matches(
    table: Table,
    columns: Seq<Seq<char>>,
    row: int,
    values: Map<Seq<char>, KeyValue>,
) -> bool {
    &&& forall|k: Seq<char>| #[trigger] values.contains_key(k) <==> columns.contains(k)
    &&& forall|j: int|
        0 <= j < columns.len() ==> key_of_cell(key_cell(table, #[trigger] columns[j], row)) == Some(
            values[columns[j]]@,
        )
}

/// No key cell of the first rows is refused, nor of the first columns of the
/// next row.
pub open spec fn clean_up_to(table: Table, columns: Seq<Seq<char>>, row: int, column: int) -> bool {
    forall|r: int, j: int|
        0 <= j < columns.len() && (0 <= r < row || (r == row && j < column)) ==> !cell_refused(
            #[trigger] key_cell(table, columns[j], r),
        )
}

/// `error` says why the keys of a table cannot be read: a key column is missing,
/// or it explains the first cell, row by row, that is refused.
pub open spec fn explains_table(table: Table, columns: Seq<Seq<char>>, error: Error) -> bool {
    if columns_present(table, columns) {
        exists|row: int, j: int|
            0 <= row < batch_row_count(table) && 0 <= j < columns.len() && clean_up_to(
                table,
                columns,
                row,
                j,
            ) && cell_refused(#[trigger] key_cell(table, columns[j], row)) && explains_cell(
                columns[j],
                key_cell(table, columns[j], row),
                error,
            )
    } else {
        error is Arrow
    }
}

/// The column of a name is the first that has it.
pub proof fn column_of_is(table: Table, name: Seq<char>, index: int)
    requires
        first_column(table, name, index),
    ensures
        column_of(table, name) == index,
        has_column(table, name),
{
    let other = column_of(table, name);
    if other < index {
        assert(batch_columns(table)[other].0 != name);
    } else if index < other {
        assert(batch_columns(table)[index].0 != name);
    }
}

fn key_column_indexes(table: &Table, key_columns: &Vec<String>) -> (result: Result<Vec<usize>, Error>)
    ensures
        match result {
            Ok(indexes) => indexes@.len() == key_columns@.len() && columns_present(
                *table,
                texts(key_columns@),
            ) && forall|j: int|
                0 <= j < key_columns@.len() ==> #[trigger] indexes@[j] == column_of(
                    *table,
                    key_columns@[j]@,
                ) && indexes@[j] < batch_columns(*table).len(),
            Err(error) => !columns_present(*table, texts(key_columns@)) && error is Arrow,
        },
{
    let mut indexes: Vec<usize> = Vec::new();
    let mut i: usize = 0;
    while i < key_columns.len()
        invariant
            i <= key_columns@.len(),
            indexes@.len() == i,
            forall|j: int| 0 <= j < i ==> has_column(*table, #[trigger] texts(key_columns@)[j]),
            forall|j: int|
                0 <= j < i ==> #[trigger] indexes@[j] == column_of(*table, key_columns@[j]@)
                    && indexes@[j] < batch_columns(*table).len(),
        decreases key_columns.len() - i,
    {
        assert(texts(key_columns@)[i as int] == key_columns@[i as int]@);
        match column_index(table, &key_columns[i]) {
            Ok(index) => {
                proof {
                    column_of_is(*table, key_columns@[i as int]@, index as int);
                }
                indexes.push(index);
            },
            Err(error) => {
                return Err(Error::Arrow(error));
            },
        }
        i += 1;
    }
    Ok(indexes)
}

fn read_row(table: &Table, key_columns: &Vec<String>, indexes: &Vec<usize>, row: usize) -> (result: Result<
    Row,
    Error,
>)
    requires
        row < batch_row_count(*table),
        indexes@.len() == key_columns@.len(),
        forall|j: int|
            0 <= j < key_columns@.len() ==> #[trigger] indexes@[j] == column_of(
                *table,
                key_columns@[j]@,
            ) && indexes@[j] < batch_columns(*table).len(),
    ensures
        match result {
            Ok(values) => row_matches(*table, texts(key_columns@), row as int, values@) && forall|j: int|
                0 <= j < key_columns@.len() ==> !cell_refused(
                    #[trigger] key_cell(*table, texts(key_columns@)[j], row as int),
                ),
            Err(error) => exists|j: int|
                0 <= j < key_columns@.len() && cell_refused(
                    #[trigger] key_cell(*table, texts(key_columns@)[j], row as int),
                ) && explains_cell(
                    texts(key_columns@)[j],
                    key_cell(*table, texts(key_columns@)[j], row as int),
                    error,
                ) && forall|i: int|
                    0 <= i < j ==> !cell_refused(
                        #[trigger] key_cell(*table, texts(key_columns@)[i], row as int),
                    ),
        },
{
    let ghost columns = texts(key_columns@);
    let mut key_values: KeyMap<KeyValue> = KeyMap::new();
    let mut i: usize = 0;
    while i < key_columns.len()
        invariant
            row < batch_row_count(*table),
            columns == texts(key_columns@),
            indexes@.len() == key_columns@.len(),
            forall|j: int|
                0 <= j < key_columns@.len() ==> #[trigger] indexes@[j] == column_of(
                    *table,
                    key_columns@[j]@,
                ) && indexes@[j] < batch_columns(*table).len(),
            i <= key_columns@.len(),
            forall|k: Seq<char>| #[trigger]
                key_values@.contains_key(k) <==> columns.take(i as int).contains(k),
            forall|j: int|
                0 <= j < i ==> key_of_cell(key_cell(*table, #[trigger] columns[j], row as int))
                    == Some(key_values@[columns[j]]@),
            forall|j: int|
                0 <= j < i ==> !cell_refused(#[trigger] key_cell(*table, columns[j], row as int)),
        decreases key_columns.len() - i,
    {
        assert(columns[i as int] == key_columns@[i as int]@);
        let cell = read_cell(table, indexes[i], row);
        assert(cell@ == key_cell(*table, columns[i as int], row as int).legible());
        match checked_key_value(&key_columns[i], &cell) {
            Ok(value) => {
                let ghost before = key_values@;
                key_values.insert(key_columns[i].clone(), value);
                proof {
                    let done = columns.take(i as int);
                    let more = columns.take(i + 1);
                    assert(more =~= done.push(columns[i as int]));
                    assert forall|k: Seq<char>| #[trigger] key_values@.contains_key(k) <==> more.contains(k) by {
                        if done.contains(k) {
                            let j = choose|j: int| 0 <= j < done.len() && done[j] == k;
                            assert(more[j] == k);
                        }
                        if k == columns[i as int] {
                            assert(more[i as int] == k);
                        }
                        if more.contains(k) && k != columns[i as int] {
                            let j = choose|j: int| 0 <= j < more.len() && more[j] == k;
                            assert(done[j] == k);
                        }
                    }
                }
            },
            Err(error) => {
                return Err(error);
            },
        }
        i += 1;
    }
    assert(columns.take(i as int) =~= columns);
    Ok(Row::new(key_values))
}

/// Reads the key columns of a table, row by row.
pub fn table_rows(table: &Table, key_columns: &Vec<String>) -> (result: Result<Vec<Row>, Error>)
    ensures
        match result {
            Ok(rows) => {
                &&& columns_present(*table, texts(key_columns@))
                &&& clean_up_to(*table, texts(key_columns@), batch_row_count(*table) as int, 0)
                &&& rows@.len() == batch_row_count(*table)
                &&& forall|r: int|
                    0 <= r < rows@.len() ==> row_matches(
                        *table,
                        texts(key_columns@),
                        r,
                        #[trigger] rows@[r]@,
                    )
            },
            Err(error) => explains_table(*table, texts(key_columns@), error),
        },
{
    let ghost columns = texts(key_columns@);
    let indexes = match key_column_indexes(table, key_columns) {
        Ok(indexes) => indexes,
        Err(error) => return Err(error),
    };
    let count: usize = row_total(table);
    let mut rows: Vec<Row> = Vec::new();
    let mut i: usize = 0;
    while i < count
        invariant
            count == batch_row_count(*table),
            columns == texts(key_columns@),
            columns_present(*table, columns),
            indexes@.len() == key_columns@.len(),
            forall|j: int|
                0 <= j < key_columns@.len() ==> #[trigger] indexes@[j] == column_of(
                    *table,
                    key_columns@[j]@,
                ) && indexes@[j] < batch_columns(*table).len(),
            i <= count,
            rows@.len() == i,
            forall|r: int| 0 <= r < i ==> row_matches(*table, columns, r, #[trigger] rows@[r]@),
            clean_up_to(*table, columns, i as int, 0),
        decreases count - i,
    {
        match read_row(table, key_columns, &indexes, i) {
            Ok(row) => {
                rows.push(row);
                assert(clean_up_to(*table, columns, i + 1, 0));
            },
            Err(error) => {
                proof {
                    let j = choose|j: int|
                        0 <= j < key_columns@.len() && cell_refused(
                            #[trigger] key_cell(*table, columns[j], i as int),
                        ) && explains_cell(
                            columns[j],
                            key_cell(*table, columns[j], i as int),
                            error,
                        ) && forall|k: int|
                            0 <= k < j ==> !cell_refused(
                                #[trigger] key_cell(*table, columns[k], i as int),
                            );
                    assert(clean_up_to(*table, columns, i as int, j));
                    assert(cell_refused(key_cell(*table, columns[j], i as int)));
                }
                return Err(error);
            },
        }
        i += 1;
    }
    Ok(rows)
}

/// Rows of the first `i` tables.
pub open spec fn rows_before(tables: Seq<Table>, i: int) -> nat
    decreases i,
{
    if i <= 0 {
        0
    } else {
        rows_before(tables, i - 1) + batch_row_count(tables[i - 1])
    }
}

/// The keys of a table can be read.
pub open spec fn table_readable(table: Table, columns: Seq<Seq<char>>) -> bool {
    columns_present(table, columns) && clean_up_to(table, columns, batch_row_count(table) as int, 0)
}

/// Reads the key columns of tables that follow each other.
pub fn dataset_from_tables(tables: &Vec<Table>, key_columns: &Vec<String>) -> (result: Result<
    Dataset,
    Error,
>)
    ensures
        match result {
            Ok(dataset) => {
                &&& forall|t: int|
                    0 <= t < tables@.len() ==> table_readable(
                        #[trigger] tables@[t],
                        texts(key_columns@),
                    )
                &&& dataset.rows@.len() == rows_before(tables@, tables@.len() as int)
                &&& forall|t: int, r: int|
                    0 <= t < tables@.len() && 0 <= r < batch_row_count(tables@[t]) ==> row_matches(
                        #[trigger] tables@[t],
                        texts(key_columns@),
                        r,
                        #[trigger] dataset.rows@[rows_before(tables@, t) + r]@,
                    )
            },
            Err(error) => exists|t: int|
                0 <= t < tables@.len() && explains_table(
                    #[trigger] tables@[t],
                    texts(key_columns@),
                    error,
                ) && forall|s: int|
                    0 <= s < t ==> table_readable(#[trigger] tables@[s], texts(key_columns@)),
        },
{
    let ghost columns = texts(key_columns@);
    let mut rows: Vec<Row> = Vec::new();
    let mut i: usize = 0;
    while i < tables.len()
        invariant
            columns == texts(key_columns@),
            i <= tables@.len(),
            rows@.len() == rows_before(tables@, i as int),
            forall|t: int| 0 <= t < i ==> table_readable(#[trigger] tables@[t], columns),
            forall|t: int, r: int|
                0 <= t < i && 0 <= r < batch_row_count(tables@[t]) ==> row_matches(
                    #[trigger] tables@[t],
                    columns,
                    r,
                    #[trigger] rows@[rows_before(tables@, t) + r]@,
                ),
        decreases tables.len() - i,
    {
        match table_rows(&tables[i], key_columns) {
            Ok(more) => {
                let ghost before = rows@;
                let ghost added = more@;
                let mut more = more;
                rows.append(&mut more);
                proof {
                    assert(rows@ =~= before + added);
                    assert forall|t: int, r: int|
                        0 <= t < i + 1 && 0 <= r < batch_row_count(tables@[t]) implies row_matches(
                        #[trigger] tables@[t],
                        columns,
                        r,
                        #[trigger] rows@[rows_before(tables@, t) + r]@,
                    ) by {
                        if t < i {
                            rows_before_grows(tables@, t + 1, i as int);
                            assert(rows@[rows_before(tables@, t) + r] == before[rows_before(
                                tables@,
                                t,
                            ) + r]);
                        } else {
                            assert(rows@[rows_before(tables@, t) + r] == added[r]);
                        }
                    }
                }
            },
            Err(error) => {
                assert(explains_table(tables@[i as int], columns, error));
                return Err(error);
            },
        }
        i += 1;
    }
    Ok(Dataset::new(rows))
}

/// Later tables start no earlier.
pub proof fn rows_before_grows(tables: Seq<Table>, i: int, j: int)
    requires
        0 <= i <= j,
    ensures
        rows_before(tables, i) <= rows_before(tables, j),
    decreases j,
{
    if i < j {
        rows_before_grows(tables, i, j - 1);
    }
}

/// What stands at an input path.
#[derive(Debug)]
pub enum LocalInput {
    Missing,
    File(InputFile),
    Directory(Vec<InputFile>),
}

/// `order` names each of the first `n` positions once.
pub open spec fn is_arrangement(order: Seq<int>, n: int) -> bool {
    &&& order.len() == n
    &&& forall|i: int| 0 <= i < order.len() ==> 0 <= #[trigger] order[i] < n
    &&& forall|i: int, j: int|
        0 <= i < j < order.len() ==> #[trigger] order[i] != #[trigger] order[j]
}

/// `order` puts files in the order of their paths and keeps files with one path
/// as they stand.
pub open spec fn arranges_paths(files: Seq<InputFile>, order: Seq<int>) -> bool {
    forall|i: int, j: int|
        0 <= i < j < order.len() ==> text_less(
            files[#[trigger] order[i]].path@,
            files[#[trigger] order[j]].path@,
        ) || (files[order[i]].path@ == files[order[j]].path@ && order[i] < order[j])
}

/// `sorted` holds the files in the order of their paths.
pub open spec fn sorted_files(files: Seq<InputFile>, sorted: Seq<InputFile>) -> bool {
    exists|order: Seq<int>| #[trigger]
        is_arrangement(order, files.len() as int) && arranges_paths(files, order) && sorted
            == Seq::new(order.len(), |i: int| files[order[i]])
}

/// Where a file goes among files in the order of their paths: behind those that
/// are not above it.
fn file_position(sorted: &Vec<InputFile>, path: &str) -> (index: usize)
    requires
        forall|i: int, j: int|
            0 <= i < j < sorted@.len() ==> text_less(
                #[trigger] sorted@[i].path@,
                #[trigger] sorted@[j].path@,
            ) || sorted@[i].path@ == sorted@[j].path@,
    ensures
        index <= sorted@.len(),
        forall|i: int|
            0 <= i < index ==> text_less(#[trigger] sorted@[i].path@, path@) || sorted@[i].path@
                == path@,
        forall|i: int| index <= i < sorted@.len() ==> text_less(path@, #[trigger] sorted@[i].path@),
{
    let mut index: usize = sorted.len();
    while index > 0
        invariant
            index <= sorted@.len(),
            forall|i: int|
                index <= i < sorted@.len() ==> text_less(path@, #[trigger] sorted@[i].path@),
            forall|i: int, j: int|
                0 <= i < j < sorted@.len() ==> text_less(
                    #[trigger] sorted@[i].path@,
                    #[trigger] sorted@[j].path@,
                ) || sorted@[i].path@ == sorted@[j].path@,
        decreases index,
    {
        match text_order(path, &sorted[index - 1].path) {
            TextOrder::Less => {
                index = index - 1;
            },
            _ => {
                proof {
                    let last = sorted@[index - 1].path@;
                    assert forall|i: int| 0 <= i < index implies text_less(
                        #[trigger] sorted@[i].path@,
                        path@,
                    ) || sorted@[i].path@ == path@ by {
                        if i < index - 1 {
                            if text_less(sorted@[i].path@, last) && text_less(last, path@) {
                                crate::text::text_less_transitive(sorted@[i].path@, last, path@);
                            }
                        }
                    }
                }
                return index;
            },
        }
    }
    index
}

fn sort_files(files: &Vec<InputFile>) -> (sorted: Vec<InputFile>)
    ensures
        sorted_files(files@, sorted@),
{
    let mut sorted: Vec<InputFile> = Vec::new();
    let ghost mut order = Seq::<int>::empty();
    let mut i: usize = 0;
    while i < files.len()
        invariant
            i <= files@.len(),
            is_arrangement(order, i as int),
            arranges_paths(files@, order),
            sorted@.len() == i,
            forall|k: int| 0 <= k < i ==> #[trigger] sorted@[k] == files@[order[k]],
        decreases files.len() - i,
    {
        proof {
            assert forall|a: int, b: int| 0 <= a < b < sorted@.len() implies text_less(
                #[trigger] sorted@[a].path@,
                #[trigger] sorted@[b].path@,
            ) || sorted@[a].path@ == sorted@[b].path@ by {
                assert(sorted@[a] == files@[order[a]]);
                assert(sorted@[b] == files@[order[b]]);
            }
        }
        let index: usize = file_position(&sorted, &files[i].path);
        let ghost before = sorted@;
        let ghost earlier = order;
        sorted.insert(index, files[i].clone());
        proof {
            order = earlier.insert(index as int, i as int);
            assert forall|k: int| 0 <= k < i + 1 implies #[trigger] sorted@[k] == files@[order[k]] by {
                if k < index {
                    assert(sorted@[k] == before[k]);
                } else if k > index {
                    assert(sorted@[k] == before[k - 1]);
                }
            }
            assert forall|a: int| 0 <= a < order.len() implies 0 <= #[trigger] order[a] < i + 1 by {
                if a < index {
                    assert(order[a] == earlier[a]);
                } else if a > index {
                    assert(order[a] == earlier[a - 1]);
                }
            }
            assert forall|a: int, b: int| 0 <= a < b < order.len() implies #[trigger] order[a]
                != #[trigger] order[b] && (text_less(
                files@[order[a]].path@,
                files@[order[b]].path@,
            ) || (files@[order[a]].path@ == files@[order[b]].path@ && order[a] < order[b])) by {
                let pa = if a < index { a } else { a - 1 };
                let pb = if b < index { b } else { b - 1 };
                if a != index {
                    assert(order[a] == earlier[pa]);
                    assert(before[pa] == files@[earlier[pa]]);
                }
                if b != index {
                    assert(order[b] == earlier[pb]);
                    assert(before[pb] == files@[earlier[pb]]);
                }
            }
        }
        i += 1;
    }
    proof {
        assert(is_arrangement(order, files@.len() as int));
        assert(sorted@ =~= Seq::new(order.len(), |k: int| files@[order[k]]));
    }
    sorted
}

/// The files to read: the file at the path, or the files under it in the order of
/// their paths. A path where nothing is, or without files under it, is refused.
pub fn select_input_files(path: &str, found: LocalInput) -> (result: Result<Vec<InputFile>, Error>)
    ensures
        match (found, result) {
            (LocalInput::Missing, Err(error)) => error matches Error::InputPathNotFound { path: p }
                && p@ == path@,
            (LocalInput::File(file), Ok(files)) => files@ == seq![file],
            (LocalInput::Directory(under), Ok(files)) => under@.len() > 0 && sorted_files(
                under@,
                files@,
            ),
            (LocalInput::Directory(under), Err(error)) => under@.len() == 0 && (error matches
                Error::NoParquetFiles { path: p } && p@ == path@),
            _ => false,
        },
{
    match found {
        LocalInput::Missing => Err(Error::InputPathNotFound { path: path.to_owned() }),
        LocalInput::File(file) => {
            let mut files: Vec<InputFile> = Vec::new();
            files.push(file);
            assert(files@ =~= seq![file]);
            Ok(files)
        },
        LocalInput::Directory(under) => {
            if under.len() == 0 {
                return Err(Error::NoParquetFiles { path: path.to_owned() });
            }
            Ok(sort_files(&under))
        },
    }
}

} // verus!
