//! Reading of key values out of comma-separated values.

use csv::Error as CsvError;
use csv::ReaderBuilder;
use vstd::prelude::*;
use crate::config::DatasetFormat;
use crate::dataset::{texts, Dataset, Row};
use crate::error::Error;
use crate::key_encoding::{KeyDatum, KeyValue};
use crate::keymap::KeyMap;
use crate::reader::{InputDataset, InputFile};
use crate::text::same_text;

verus! {

/// The fields of the first record of comma-separated values; none where it cannot
/// be read.
pub uninterp spec fn csv_header(bytes: Seq<u8>) -> Option<Seq<Seq<char>>>;

/// The fields of the records behind the first; none where one of them cannot be
/// read.
pub uninterp spec fn csv_body(bytes: Seq<u8>) -> Option<Seq<Seq<Seq<char>>>>;

/// The contents of records.
pub open spec fn record_fields(records: Seq<Vec<String>>) -> Seq<Seq<Seq<char>>> {
    Seq::new(records.len(), |i: int| texts(records[i]@))
}

/// `csv::Reader::headers`: the fields of the first record, which depend on the
/// bytes alone.
#[verifier::external_body]
fn read_header(bytes: &[u8]) -> (result: Result<Vec<String>, CsvError>)
    ensures
        match result {
            Ok(fields) => csv_header(bytes@) == Some(texts(fields@)),
            Err(_) => csv_header(bytes@) is None,
        },
{
    let mut reader = ReaderBuilder::new().has_headers(true).from_reader(bytes);
    Ok(reader.headers()?.iter().map(String::from).collect())
}

/// `csv::Reader::records`: the fields of the records behind the first, up to the
/// first record that cannot be read, which depend on the bytes alone.
#[verifier::external_body]
fn read_records(bytes: &[u8]) -> (result: Result<Vec<Vec<String>>, CsvError>)
    ensures
        match result {
            Ok(records) => csv_body(bytes@) == Some(record_fields(records@)),
            Err(_) => csv_body(bytes@) is None,
        },
{
    let mut reader = ReaderBuilder::new().has_headers(true).from_reader(bytes);
    let records = reader.records();
    records.map(|record| Ok(record?.iter().map(String::from).collect())).collect()
}

/// `index` is the first field with the name.
pub open spec fn first_field(header: Seq<Seq<char>>, name: Seq<char>, index: int) -> bool {
    &&& 0 <= index < header.len()
    &&& header[index] == name
    &&& forall|i: int| 0 <= i < index ==> #[trigger] header[i] != name
}

/// The first field with the name.
pub open spec fn field_of(header: Seq<Seq<char>>, name: Seq<char>) -> int {
    choose|i: int| first_field(header, name, i)
}

/// The first of the columns that the header does not name.
pub open spec fn first_missing(header: Seq<Seq<char>>, columns: Seq<Seq<char>>, j: int) -> bool {
    &&& 0 <= j < columns.len()
    &&& !header.contains(columns[j])
    &&& forall|i: int| 0 <= i < j ==> header.contains(#[trigger] columns[i])
}

/// The header names all columns.
pub open spec fn names_columns(header: Seq<Seq<char>>, columns: Seq<Seq<char>>) -> bool {
    forall|j: int| 0 <= j < columns.len() ==> header.contains(#[trigger] columns[j])
}

/// `error` names the first column that the header lacks.
pub open spec fn reports_missing(
    header: Seq<Seq<char>>,
    columns: Seq<Seq<char>>,
    error: Error,
) -> bool {
    exists|j: int| #[trigger]
        first_missing(header, columns, j) && (error matches Error::UnsupportedFormat(message)
            && message@ == "CSV input is missing key column: "@ + columns[j])
}

proof fn field_of_is(header: Seq<Seq<char>>, name: Seq<char>, index: int)
    requires
        first_field(header, name, index),
    ensures
        field_of(header, name) == index,
        header.contains(name),
{
    let other = field_of(header, name);
    if other < index {
        assert(header[other] != name);
    } else if index < other {
        assert(header[index] != name);
    }
}

fn find_field(header: &Vec<String>, name: &str) -> (found: Option<usize>)
    ensures
        match found {
            Some(index) => first_field(texts(header@), name@, index as int),
            None => !texts(header@).contains(name@),
        },
{
    let ghost names = texts(header@);
    let mut i: usize = 0;
    while i < header.len()
        invariant
            names == texts(header@),
            i <= header@.len(),
            forall|j: int| 0 <= j < i ==> #[trigger] names[j] != name@,
        decreases header.len() - i,
    {
        assert(names[i as int] == header@[i as int]@);
        if same_text(&header[i], name) {
            return Some(i);
        }
        i += 1;
    }
    None
}

/// Finds the key columns in a header.
pub fn key_fields(header: &Vec<String>, key_columns: &Vec<String>) -> (result: Result<
    Vec<usize>,
    Error,
>)
    ensures
        match result {
            Ok(fields) => {
                &&& names_columns(texts(header@), texts(key_columns@))
                &&& fields@.len() == key_columns@.len()
                &&& forall|j: int|
                    0 <= j < fields@.len() ==> #[trigger] fields@[j] == field_of(
                        texts(header@),
                        key_columns@[j]@,
                    )
            },
            Err(error) => reports_missing(texts(header@), texts(key_columns@), error),
        },
{
    let ghost names = texts(header@);
    let ghost columns = texts(key_columns@);
    let mut fields: Vec<usize> = Vec::new();
    let mut i: usize = 0;
    while i < key_columns.len()
        invariant
            names == texts(header@),
            columns == texts(key_columns@),
            i <= key_columns@.len(),
            fields@.len() == i,
            forall|j: int| 0 <= j < i ==> names.contains(#[trigger] columns[j]),
            forall|j: int|
                0 <= j < i ==> #[trigger] fields@[j] == field_of(names, key_columns@[j]@),
        decreases key_columns.len() - i,
    {
        assert(columns[i as int] == key_columns@[i as int]@);
        match find_field(header, &key_columns[i]) {
            Some(index) => {
                proof {
                    field_of_is(names, columns[i as int], index as int);
                }
                fields.push(index);
            },
            None => {
                let mut message = "CSV input is missing key column: ".to_owned();
                message.append(&key_columns[i]);
                assert(first_missing(names, columns, i as int));
                return Err(Error::UnsupportedFormat(message));
            },
        }
        i += 1;
    }
    Ok(fields)
}

/// The value of a field; null where a record has no such field.
pub open spec fn field_value(record: Seq<Seq<char>>, index: int) -> KeyDatum {
    if 0 <= index < record.len() {
        KeyDatum::Utf8(record[index])
    } else {
        KeyDatum::Null
    }
}

/// `values` are the values of the key columns in a record.
pub open spec fn record_matches(
    header: Seq<Seq<char>>,
    columns: Seq<Seq<char>>,
    record: Seq<Seq<char>>,
    values: Map<Seq<char>, KeyValue>,
) -> bool {
    &&& forall|k: Seq<char>| #[trigger] values.contains_key(k) <==> columns.contains(k)
    &&& forall|j: int|
        0 <= j < columns.len() ==> values[#[trigger] columns[j]]@ == field_value(
            record,
            field_of(header, columns[j]),
        )
}

/// Reads the key columns of records: `fields` says where they stand.
pub fn record_rows(
    header: &Vec<String>,
    key_columns: &Vec<String>,
    fields: &Vec<usize>,
    records: &Vec<Vec<String>>,
) -> (rows: Vec<Row>)
    requires
        fields@.len() == key_columns@.len(),
        forall|j: int|
            0 <= j < fields@.len() ==> #[trigger] fields@[j] == field_of(
                texts(header@),
                key_columns@[j]@,
            ),
    ensures
        rows@.len() == records@.len(),
        forall|i: int|
            0 <= i < rows@.len() ==> record_matches(
                texts(header@),
                texts(key_columns@),
                texts(records@[i]@),
                (#[trigger] rows@[i])@,
            ),
{
    let ghost names = texts(header@);
    let ghost columns = texts(key_columns@);
    let mut rows: Vec<Row> = Vec::new();
    let mut i: usize = 0;
    while i < records.len()
        invariant
            names == texts(header@),
            columns == texts(key_columns@),
            fields@.len() == key_columns@.len(),
            forall|j: int|
                0 <= j < fields@.len() ==> #[trigger] fields@[j] == field_of(
                    names,
                    key_columns@[j]@,
                ),
            i <= records@.len(),
            rows@.len() == i,
            forall|k: int|
                0 <= k < i ==> record_matches(
                    names,
                    columns,
                    texts(records@[k]@),
                    (#[trigger] rows@[k])@,
                ),
        decreases records.len() - i,
    {
        let ghost record = texts(records@[i as int]@);
        let mut values: KeyMap<KeyValue> = KeyMap::new();
        let mut j: usize = 0;
        while j < key_columns.len()
            invariant
                columns == texts(key_columns@),
                fields@.len() == key_columns@.len(),
                forall|j: int|
                    0 <= j < fields@.len() ==> #[trigger] fields@[j] == field_of(
                        names,
                        key_columns@[j]@,
                    ),
                i < records@.len(),
                record == texts(records@[i as int]@),
                j <= key_columns@.len(),
                forall|k: Seq<char>| #[trigger]
                    values@.contains_key(k) <==> columns.take(j as int).contains(k),
                forall|d: int|
                    0 <= d < j ==> values@[#[trigger] columns[d]]@ == field_value(
                        record,
                        field_of(names, columns[d]),
                    ),
            decreases key_columns.len() - j,
        {
            let field: usize = fields[j];
            let value = if field < records[i].len() {
                KeyValue::Utf8(records[i][field].clone())
            } else {
                KeyValue::Null
            };
            let ghost before = values@;
            assert(columns[j as int] == key_columns@[j as int]@);
            assert(fields@[j as int] == field_of(names, columns[j as int]));
            values.insert(key_columns[j].clone(), value);
            proof {
                let done = columns.take(j as int);
                let more = columns.take(j + 1);
                assert(more =~= done.push(columns[j as int]));
                assert forall|k: Seq<char>| #[trigger] values@.contains_key(k) <==> more.contains(
                    k,
                ) by {
                    assert(before.contains_key(k) <==> done.contains(k));
                    if done.contains(k) {
                        let x = choose|x: int| 0 <= x < done.len() && done[x] == k;
                        assert(more[x] == k);
                    }
                    if k == columns[j as int] {
                        assert(more[j as int] == k);
                    }
                    if more.contains(k) && k != columns[j as int] {
                        let x = choose|x: int| 0 <= x < more.len() && more[x] == k;
                        assert(done[x] == k);
                    }
                }
                assert forall|d: int| 0 <= d < j + 1 implies values@[#[trigger] columns[d]]@
                    == field_value(record, field_of(names, columns[d])) by {
                    if d < j && columns[d] != columns[j as int] {
                        assert(values@[columns[d]] == before[columns[d]]);
                    }
                }
            }
            j += 1;
        }
        assert(columns.take(j as int) =~= columns);
        rows.push(Row::new(values));
        i += 1;
    }
    rows
}

/// What comma-separated values in a file make: a dataset with one file and no kept
/// columns.
pub open spec fn is_csv_dataset(
    file: InputFile,
    header: Seq<Seq<char>>,
    body: Seq<Seq<Seq<char>>>,
    columns: Seq<Seq<char>>,
    dataset: InputDataset,
) -> bool {
    &&& dataset.path == file.path
    &&& dataset.format == DatasetFormat::Csv
    &&& dataset.files@ == seq![file]
    &&& dataset.batches@.len() == 0
    &&& dataset.rows.rows@.len() == body.len()
    &&& forall|i: int|
        0 <= i < body.len() ==> record_matches(
            header,
            columns,
            body[i],
            (#[trigger] dataset.rows.rows@[i])@,
        )
}

/// Reads comma-separated values, the contents of a file. The header is looked at
/// first, then the key columns, then the records.
pub fn read_csv(file: InputFile, bytes: &[u8], key_columns: &Vec<String>) -> (result: Result<
    InputDataset,
    Error,
>)
    ensures
        match result {
            Ok(dataset) => {
                &&& csv_header(bytes@) is Some
                &&& csv_body(bytes@) is Some
                &&& names_columns(csv_header(bytes@)->0, texts(key_columns@))
                &&& is_csv_dataset(
                    file,
                    csv_header(bytes@)->0,
                    csv_body(bytes@)->0,
                    texts(key_columns@),
                    dataset,
                )
            },
            Err(error) => match csv_header(bytes@) {
                None => error is Csv,
                Some(header) => if names_columns(header, texts(key_columns@)) {
                    csv_body(bytes@) is None && error is Csv
                } else {
                    reports_missing(header, texts(key_columns@), error)
                },
            },
        },
{
    let header = match read_header(bytes) {
        Ok(header) => header,
        Err(error) => return Err(Error::Csv(error)),
    };
    let fields = match key_fields(&header, key_columns) {
        Ok(fields) => fields,
        Err(error) => {
            proof {
                let names = texts(header@);
                let columns = texts(key_columns@);
                let j = choose|j: int| #[trigger] first_missing(names, columns, j);
                assert(!names.contains(columns[j]));
                assert(!names_columns(names, columns));
            }
            return Err(error);
        },
    };
    let records = match read_records(bytes) {
        Ok(records) => records,
        Err(error) => return Err(Error::Csv(error)),
    };
    let rows = record_rows(&header, key_columns, &fields, &records);
    proof {
        let body = record_fields(records@);
        assert forall|i: int| 0 <= i < body.len() implies record_matches(
            texts(header@),
            texts(key_columns@),
            body[i],
            (#[trigger] rows@[i])@,
        ) by {
            assert(body[i] == texts(records@[i]@));
        }
    }
    let path = file.path.clone();
    let mut files: Vec<InputFile> = Vec::new();
    files.push(file);
    assert(files@ =~= seq![file]);
    Ok(
        InputDataset {
            path,
            format: DatasetFormat::Csv,
            files,
            rows: Dataset::new(rows),
            batches: Vec::new(),
        },
    )
}

} // verus!
