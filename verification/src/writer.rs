//! What is written: the tables of each partition, and the manifest.

use vstd::prelude::*;
use crate::arith::{sum_over, total};
use crate::config::DatasetFormat;
use crate::dataset::{texts, Row};
use crate::error::Error;
use crate::key_encoding::{key_value_to_string, plain_text};
use crate::manifest::{
    Manifest, OutputFile, PartitionManifest, PartitionPlan, StatsMetadata, TechnicalColumns,
    METADATA_VERSION,
};
use crate::partitioner::{
    assignments, partition_count, record_texts, PartitionAssignmentSummary,
    RecordPartitionAssignment, RecordText,
};
use crate::reader::{column_of_is, key_cell, rows_before, InputDataset};
use crate::record_batch::{
    append_boolean_column, append_number_column, batch_columns, batch_row_count, batch_sound,
    batch_whole, boolean_cells, cell_at, first_column, has_column, number_cells, optional_texts,
    row_total, same_length, take_rows, takeable, text_batch, text_bytes, text_cells, CellDatum,
    Table,
};
use crate::rolling::TABLE_ROWS;
use crate::routing::{names_partitions, partitions_hold_all_rows, rows_assigned_once};
use crate::text::byte_len;

verus! {

/// What was written.
#[derive(Debug, Clone, PartialEq, Eq)]
pub struct WriteSummary {
    pub manifest: Manifest,
}

/// The output can be written in the format.
pub fn check_output_format(format: DatasetFormat) -> (result: Result<(), Error>)
    ensures
        match result {
            Ok(_) => format == DatasetFormat::Parquet,
            Err(error) => format == DatasetFormat::Csv && (error matches Error::UnsupportedFormat(
                message,
            ) && message@ == "CSV output is not implemented; use parquet output"@),
        },
{
    match format {
        DatasetFormat::Parquet => Ok(()),
        DatasetFormat::Csv => Err(
            Error::UnsupportedFormat(
                "CSV output is not implemented; use parquet output".to_owned(),
            ),
        ),
    }
}

/// The records that go to a partition, in row order.
pub open spec fn bucket(records: Seq<RecordText>, p: int) -> Seq<RecordText> {
    records.filter(|record: RecordText| record.partition_id == p)
}

/// A partition has as many records as were counted for it.
pub proof fn bucket_counted(records: Seq<RecordText>, p: int)
    ensures
        bucket(records, p).len() == partition_count(records, p),
    decreases records.len(),
{
    reveal(Seq::filter);
    if records.len() > 0 {
        bucket_counted(records.drop_last(), p);
    }
}

/// Sorts records into one list for each partition; records of other partitions
/// are left out.
pub fn assignments_by_partition(
    output_partitions: usize,
    records: &[RecordPartitionAssignment],
) -> (buckets: Vec<Vec<RecordPartitionAssignment>>)
    ensures
        buckets@.len() == output_partitions,
        forall|p: int|
            0 <= p < output_partitions ==> record_texts((#[trigger] buckets@[p])@) == bucket(
                record_texts(records@),
                p,
            ),
{
    let ghost all = record_texts(records@);
    let mut buckets: Vec<Vec<RecordPartitionAssignment>> = Vec::new();
    let mut b: usize = 0;
    while b < output_partitions
        invariant
            b <= output_partitions,
            buckets@.len() == b,
            forall|p: int| 0 <= p < b ==> (#[trigger] buckets@[p])@.len() == 0,
        decreases output_partitions - b,
    {
        buckets.push(Vec::new());
        b += 1;
    }
    let mut i: usize = 0;
    proof {
        reveal(Seq::filter);
        assert(all.take(0) =~= Seq::<RecordText>::empty());
        assert forall|p: int| 0 <= p < output_partitions implies record_texts(
            (#[trigger] buckets@[p])@,
        ) == bucket(all.take(0), p) by {
            assert(record_texts(buckets@[p]@) =~= Seq::<RecordText>::empty());
        }
    }
    while i < records.len()
        invariant
            all == record_texts(records@),
            i <= records@.len(),
            buckets@.len() == output_partitions,
            forall|p: int|
                0 <= p < output_partitions ==> record_texts((#[trigger] buckets@[p])@) == bucket(
                    all.take(i as int),
                    p,
                ),
        decreases records.len() - i,
    {
        let id: usize = records[i].partition_id;
        let ghost before = buckets@;
        if id < buckets.len() {
            let record = records[i].clone();
            buckets[id].push(record);
        }
        proof {
            let done = all.take(i as int);
            let more = all.take(i + 1);
            assert(more =~= done.push(all[i as int]));
            assert forall|p: int| 0 <= p < output_partitions implies record_texts(
                (#[trigger] buckets@[p])@,
            ) == bucket(more, p) by {
                done.lemma_filter_push(all[i as int], |record: RecordText| record.partition_id == p);
                if p == id {
                    assert(record_texts(buckets@[p]@) =~= record_texts(before[p]@).push(
                        all[i as int],
                    ));
                } else {
                    assert(buckets@[p] == before[p]);
                }
            }
        }
        i += 1;
    }
    assert(all.take(i as int) =~= all);
    buckets
}

/// The column that tells the partition of each row.
pub open spec fn partition_cells(records: Seq<RecordText>) -> Seq<CellDatum> {
    Seq::new(
        records.len(),
        |k: int| CellDatum::Unsigned((records[k].partition_id as u32) as u64),
    )
}

/// The column that tells the salt of each row of a heavy key.
pub open spec fn salt_cells(records: Seq<RecordText>) -> Seq<CellDatum> {
    Seq::new(
        records.len(),
        |k: int|
            match records[k].salt_index {
                Some(salt) => CellDatum::Unsigned((salt as u32) as u64),
                None => CellDatum::Null,
            },
    )
}

/// The column that tells whether the key of each row is heavy.
pub open spec fn heavy_cells(records: Seq<RecordText>) -> Seq<CellDatum> {
    Seq::new(records.len(), |k: int| CellDatum::Boolean(records[k].salt_index is Some))
}

/// The technical columns that go behind the others.
pub open spec fn technical_cells(records: Seq<RecordText>, technical: TechnicalColumns) -> Seq<
    (Seq<char>, Seq<CellDatum>),
> {
    if technical.included {
        seq![
            (technical.partition_column@, partition_cells(records)),
            (technical.salt_column@, salt_cells(records)),
            (technical.heavy_key_column@, heavy_cells(records)),
        ]
    } else {
        Seq::empty()
    }
}

/// Puts the technical columns behind the columns of a table, where they are asked
/// for. A table without columns then has a row for each record.
pub fn append_technical_columns(
    table: Table,
    records: &[RecordPartitionAssignment],
    technical: &TechnicalColumns,
) -> (result: Result<Table, Error>)
    ensures
        match result {
            Ok(wider) => {
                &&& technical.included ==> same_length(table, records@.len())
                &&& !technical.included ==> wider == table
                &&& batch_sound(table) ==> batch_sound(wider)
                &&& batch_whole(table) ==> batch_whole(wider)
                &&& batch_row_count(wider) == if technical.included {
                    records@.len()
                } else {
                    batch_row_count(table)
                }
                &&& batch_columns(wider) == batch_columns(table) + technical_cells(
                    record_texts(records@),
                    *technical,
                )
            },
            Err(error) => {
                &&& technical.included
                &&& !batch_sound(table) || !same_length(table, records@.len())
                &&& error is Arrow
            },
        },
{
    if !technical.included {
        assert(batch_columns(table) + Seq::<(Seq<char>, Seq<CellDatum>)>::empty()
            =~= batch_columns(table));
        return Ok(table);
    }
    let ghost all = record_texts(records@);
    let mut ids: Vec<Option<u32>> = Vec::new();
    let mut salts: Vec<Option<u32>> = Vec::new();
    let mut heavy: Vec<bool> = Vec::new();
    let mut i: usize = 0;
    while i < records.len()
        invariant
            i <= records@.len(),
            all == record_texts(records@),
            ids@.len() == i,
            salts@.len() == i,
            heavy@.len() == i,
            forall|k: int|
                0 <= k < i ==> #[trigger] ids@[k] == Some(all[k].partition_id as u32),
            forall|k: int|
                0 <= k < i ==> #[trigger] salts@[k] == match all[k].salt_index {
                    Some(salt) => Some(salt as u32),
                    None => None,
                },
            forall|k: int| 0 <= k < i ==> #[trigger] heavy@[k] == (all[k].salt_index is Some),
        decreases records.len() - i,
    {
        ids.push(Some(#[verifier::truncate] (records[i].partition_id as u32)));
        match records[i].salt_index {
            Some(salt) => {
                salts.push(Some(#[verifier::truncate] (salt as u32)));
                heavy.push(true);
            },
            None => {
                salts.push(None);
                heavy.push(false);
            },
        }
        i += 1;
    }
    proof {
        assert(number_cells(ids@) =~= partition_cells(all));
        assert(number_cells(salts@) =~= salt_cells(all));
        assert(boolean_cells(heavy@) =~= heavy_cells(all));
    }
    let with_ids = match append_number_column(&table, &technical.partition_column, ids, false) {
        Ok(wider) => wider,
        Err(error) => return Err(Error::Arrow(error)),
    };
    let with_salts = match append_number_column(&with_ids, &technical.salt_column, salts, true) {
        Ok(wider) => wider,
        Err(error) => return Err(Error::Arrow(error)),
    };
    match append_boolean_column(&with_salts, &technical.heavy_key_column, heavy) {
        Ok(wider) => {
            assert(batch_columns(wider) =~= batch_columns(table) + technical_cells(
                all,
                *technical,
            ));
            Ok(wider)
        },
        Err(error) => Err(Error::Arrow(error)),
    }
}

/// The rows of a table that records name, where the table starts at row `start`.
pub open spec fn chosen_columns(table: Table, records: Seq<RecordText>, start: int) -> Seq<
    (Seq<char>, Seq<CellDatum>),
> {
    Seq::new(
        batch_columns(table).len(),
        |c: int|
            (
                batch_columns(table)[c].0,
                Seq::new(
                    records.len(),
                    |k: int| batch_columns(table)[c].1[records[k].row_index - start],
                ),
            ),
    )
}

/// `part` holds the rows of `table` that the records name, with the technical
/// columns.
pub open spec fn is_part(
    table: Table,
    records: Seq<RecordText>,
    start: int,
    technical: TechnicalColumns,
    part: Table,
) -> bool {
    &&& batch_row_count(part) == records.len()
    &&& batch_columns(part) == chosen_columns(table, records, start) + technical_cells(
        records,
        technical,
    )
}

/// No two records name the same row.
pub open spec fn distinct_rows(records: Seq<RecordText>) -> bool {
    forall|j: int, k: int|
        0 <= j < k < records.len() ==> (#[trigger] records[j]).row_index != (
        #[trigger] records[k]).row_index
}

/// Every record names a row of a table that starts at row `start`.
pub open spec fn names_rows(records: Seq<RecordText>, start: int, rows: int) -> bool {
    forall|k: int|
        0 <= k < records.len() ==> start <= (#[trigger] records[k]).row_index < start + rows
}

/// The rows of a table that records name, with the technical columns. A table
/// without columns is refused, and one whose columns are not what its schema says
/// may be.
pub fn take_part(
    table: &Table,
    records: &[RecordPartitionAssignment],
    start: usize,
    technical: &TechnicalColumns,
) -> (result: Result<Table, Error>)
    requires
        batch_row_count(*table) <= 0x1_0000_0000,
        names_rows(record_texts(records@), start as int, batch_row_count(*table) as int),
        distinct_rows(record_texts(records@)),
        batch_whole(*table),
    ensures
        match result {
            Ok(part) => is_part(*table, record_texts(records@), start as int, *technical, part)
                && batch_columns(*table).len() > 0 && batch_whole(part),
            Err(error) => !takeable(*table) && error is Arrow,
        },
{
    let ghost all = record_texts(records@);
    let mut indexes: Vec<u32> = Vec::new();
    let mut i: usize = 0;
    while i < records.len()
        invariant
            i <= records@.len(),
            all == record_texts(records@),
            batch_row_count(*table) <= 0x1_0000_0000,
            names_rows(all, start as int, batch_row_count(*table) as int),
            indexes@.len() == i,
            forall|k: int| 0 <= k < i ==> #[trigger] indexes@[k] == all[k].row_index - start,
        decreases records.len() - i,
    {
        assert(all[i as int].row_index == records@[i as int].row_index);
        indexes.push((records[i].row_index - start) as u32);
        i += 1;
    }
    proof {
        assert forall|j: int, k: int| 0 <= j < k < indexes@.len() implies #[trigger] indexes@[j]
            != #[trigger] indexes@[k] by {
            assert(all[j].row_index != all[k].row_index);
        }
    }
    match take_rows(table, &indexes) {
        Ok(taken) => {
            assert(batch_columns(taken) =~= chosen_columns(*table, all, start as int)) by {
                assert forall|c: int| 0 <= c < batch_columns(taken).len() implies batch_columns(
                    taken,
                )[c] == chosen_columns(*table, all, start as int)[c] by {
                    assert(batch_columns(taken)[c].1 =~= chosen_columns(
                        *table,
                        all,
                        start as int,
                    )[c].1);
                }
            }
            append_technical_columns(taken, records, technical)
        },
        Err(error) => Err(Error::Arrow(error)),
    }
}

/// The number of runs that records are cut into, none of them longer than a table that
/// is written at once.
pub open spec fn run_count(records: nat) -> nat {
    (records + TABLE_ROWS as nat - 1) as nat / TABLE_ROWS as nat
}

/// Where run `r` starts; at the end of the records where there is none.
pub open spec fn run_start(records: nat, r: int) -> int {
    if r * TABLE_ROWS < records {
        r * TABLE_ROWS
    } else {
        records as int
    }
}

/// The records of run `r`.
pub open spec fn run_of(records: Seq<RecordText>, r: int) -> Seq<RecordText> {
    records.subrange(run_start(records.len(), r), run_start(records.len(), r + 1))
}

/// The first record from `from` on whose row is not below `limit`.
pub open spec fn slice_end(records: Seq<RecordText>, from: int, limit: int) -> int
    decreases records.len() - from,
{
    if 0 <= from < records.len() && records[from].row_index < limit {
        slice_end(records, from + 1, limit)
    } else {
        from
    }
}

/// The first record that is not in the first `b` tables.
pub open spec fn cursor(tables: Seq<Table>, records: Seq<RecordText>, b: int) -> int
    decreases b,
{
    if b <= 0 {
        0
    } else {
        slice_end(records, cursor(tables, records, b - 1), rows_before(tables, b) as int)
    }
}

/// The records of table `b`.
pub open spec fn slice(tables: Seq<Table>, records: Seq<RecordText>, b: int) -> Seq<RecordText> {
    records.subrange(cursor(tables, records, b), cursor(tables, records, b + 1))
}

/// Those of the first `b` tables that have records.
pub open spec fn busy(tables: Seq<Table>, records: Seq<RecordText>, b: int) -> Seq<int>
    decreases b,
{
    if b <= 0 {
        Seq::empty()
    } else if cursor(tables, records, b - 1) < cursor(tables, records, b) {
        busy(tables, records, b - 1).push(b - 1)
    } else {
        busy(tables, records, b - 1)
    }
}

/// No record comes after records of a later table.
pub open spec fn follows_tables(tables: Seq<Table>, records: Seq<RecordText>) -> bool {
    forall|b: int, k: int|
        0 <= b < tables.len() && cursor(tables, records, b) <= k < cursor(tables, records, b + 1)
            ==> #[trigger] rows_before(tables, b) <= (#[trigger] records[k]).row_index
}

/// Row indexes grow.
pub open spec fn ascending_rows(records: Seq<RecordText>) -> bool {
    forall|j: int, k: int|
        0 <= j < k < records.len() ==> (#[trigger] records[j]).row_index < (
        #[trigger] records[k]).row_index
}

proof fn slice_end_bounds(records: Seq<RecordText>, from: int, limit: int)
    requires
        0 <= from <= records.len(),
    ensures
        from <= slice_end(records, from, limit) <= records.len(),
        forall|k: int|
            from <= k < slice_end(records, from, limit) ==> (#[trigger] records[k]).row_index
                < limit,
        slice_end(records, from, limit) < records.len() ==> records[slice_end(
            records,
            from,
            limit,
        )].row_index >= limit,
    decreases records.len() - from,
{
    if from < records.len() && records[from].row_index < limit {
        slice_end_bounds(records, from + 1, limit);
    }
}

/// The records of the first `b` tables come first, and those of later tables follow.
pub proof fn cursor_bounds(tables: Seq<Table>, records: Seq<RecordText>, b: int)
    requires
        0 <= b,
    ensures
        0 <= cursor(tables, records, b) <= records.len(),
        b > 0 ==> cursor(tables, records, b - 1) <= cursor(tables, records, b),
        forall|k: int|
            cursor(tables, records, b - 1) <= k < cursor(tables, records, b) && b > 0 ==> (
            #[trigger] records[k]).row_index < rows_before(tables, b),
        cursor(tables, records, b) < records.len() ==> records[cursor(
            tables,
            records,
            b,
        )].row_index >= rows_before(tables, b),
    decreases b,
{
    if b > 0 {
        cursor_bounds(tables, records, b - 1);
        slice_end_bounds(
            records,
            cursor(tables, records, b - 1),
            rows_before(tables, b) as int,
        );
    }
}

/// Records in row order follow the tables, and none is missing where each names a
/// row of them.
pub proof fn ordered_records_found(tables: Seq<Table>, records: Seq<RecordText>)
    requires
        ascending_rows(records),
    ensures
        follows_tables(tables, records),
        distinct_rows(records),
        names_rows(records, 0, rows_before(tables, tables.len() as int) as int) ==> cursor(
            tables,
            records,
            tables.len() as int,
        ) == records.len(),
{
    assert forall|b: int, k: int|
        0 <= b < tables.len() && cursor(tables, records, b) <= k < cursor(tables, records, b + 1)
        implies #[trigger] rows_before(tables, b) <= (#[trigger] records[k]).row_index by {
        cursor_bounds(tables, records, b);
        cursor_bounds(tables, records, b + 1);
        let c = cursor(tables, records, b);
        if c < k {
            assert(records[c].row_index < records[k].row_index);
        }
    }
    cursor_bounds(tables, records, tables.len() as int);
}

/// `parts` holds the records' rows, one part for each table that has some.
pub open spec fn is_retained(
    tables: Seq<Table>,
    records: Seq<RecordText>,
    technical: TechnicalColumns,
    b: int,
    parts: Seq<Table>,
) -> bool {
    &&& parts.len() == busy(tables, records, b).len()
    &&& forall|i: int|
        0 <= i < parts.len() ==> is_part(
            tables[busy(tables, records, b)[i]],
            slice(tables, records, busy(tables, records, b)[i]),
            rows_before(tables, busy(tables, records, b)[i]) as int,
            technical,
            #[trigger] parts[i],
        )
}

/// Some table that has records is one that rows cannot be taken out of.
pub open spec fn refuses_part(tables: Seq<Table>, records: Seq<RecordText>) -> bool {
    exists|b: int|
        0 <= b < tables.len() && cursor(tables, records, b) < cursor(tables, records, b + 1)
            && !takeable(#[trigger] tables[b])
}

proof fn rows_before_at_most(tables: Seq<Table>, i: int)
    requires
        0 <= i <= tables.len(),
    ensures
        rows_before(tables, i) <= rows_before(tables, tables.len() as int),
{
    crate::reader::rows_before_grows(tables, i, tables.len() as int);
}

/// Copies records.
fn copy_records(records: &[RecordPartitionAssignment], from: usize, to: usize) -> (copy: Vec<
    RecordPartitionAssignment,
>)
    requires
        from <= to <= records@.len(),
    ensures
        record_texts(copy@) == record_texts(records@).subrange(from as int, to as int),
{
    let mut copy: Vec<RecordPartitionAssignment> = Vec::new();
    let mut i: usize = from;
    while i < to
        invariant
            from <= i <= to <= records@.len(),
            copy@.len() == i - from,
            forall|k: int| 0 <= k < copy@.len() ==> (#[trigger] copy@[k])@ == records@[from + k]@,
        decreases to - i,
    {
        copy.push(records[i].clone());
        i += 1;
    }
    assert(record_texts(copy@) =~= record_texts(records@).subrange(from as int, to as int));
    copy
}

/// The rows that records name out of tables that follow each other, with the
/// technical columns. A record behind the last table has no row.
pub fn retained_partition_batches(
    tables: &Vec<Table>,
    records: &[RecordPartitionAssignment],
    technical: &TechnicalColumns,
) -> (result: Result<Vec<Table>, Error>)
    requires
        rows_before(tables@, tables@.len() as int) <= usize::MAX,
        forall|b: int|
            0 <= b < tables@.len() ==> batch_row_count(#[trigger] tables@[b]) <= 0x1_0000_0000
                && batch_whole(tables@[b]),
        follows_tables(tables@, record_texts(records@)),
        distinct_rows(record_texts(records@)),
    ensures
        match result {
            Ok(parts) => {
                &&& cursor(tables@, record_texts(records@), tables@.len() as int)
                    == records@.len()
                &&& is_retained(
                    tables@,
                    record_texts(records@),
                    *technical,
                    tables@.len() as int,
                    parts@,
                )
            },
            Err(Error::MissingRetainedRow { row_index }) => {
                let end = cursor(tables@, record_texts(records@), tables@.len() as int);
                end < records@.len() && row_index == records@[end].row_index
            },
            Err(Error::Arrow(_)) => refuses_part(tables@, record_texts(records@)),
            Err(_) => false,
        },
{
    let ghost all = record_texts(records@);
    let mut parts: Vec<Table> = Vec::new();
    let mut start: usize = 0;
    let mut next: usize = 0;
    let mut b: usize = 0;
    while b < tables.len()
        invariant
            all == record_texts(records@),
            rows_before(tables@, tables@.len() as int) <= usize::MAX,
            forall|b: int|
                0 <= b < tables@.len() ==> batch_row_count(#[trigger] tables@[b]) <= 0x1_0000_0000
                    && batch_whole(tables@[b]),
            follows_tables(tables@, all),
            distinct_rows(all),
            b <= tables@.len(),
            start == rows_before(tables@, b as int),
            next == cursor(tables@, all, b as int),
            next <= records@.len(),
            is_retained(tables@, all, *technical, b as int, parts@),
        decreases tables.len() - b,
    {
        let rows: usize = row_total(&tables[b]);
        proof {
            rows_before_at_most(tables@, b + 1);
            cursor_bounds(tables@, all, b as int);
            cursor_bounds(tables@, all, b + 1);
        }
        let end: usize = start + rows;
        let first: usize = next;
        while next < records.len() && records[next].row_index < end
            invariant
                all == record_texts(records@),
                first <= next <= records@.len(),
                first == cursor(tables@, all, b as int),
                end == rows_before(tables@, b + 1),
                slice_end(all, next as int, end as int) == cursor(tables@, all, b + 1),
            decreases records.len() - next,
        {
            assert(all[next as int].row_index == records@[next as int].row_index);
            next += 1;
        }
        proof {
            if next < records@.len() {
                assert(all[next as int].row_index == records@[next as int].row_index);
            }
        }
        if first < next {
            let local = copy_records(records, first, next);
            let ghost before = busy(tables@, all, b as int);
            proof {
                assert(slice(tables@, all, b as int) == record_texts(local@));
                assert forall|k: int| 0 <= k < local@.len() implies start <= (
                #[trigger] record_texts(local@)[k]).row_index < start + rows by {
                    assert(record_texts(local@)[k] == all[first + k]);
                    assert(rows_before(tables@, b as int) <= all[first + k].row_index);
                }
                assert forall|j: int, k: int| 0 <= j < k < local@.len() implies (
                #[trigger] record_texts(local@)[j]).row_index != (
                #[trigger] record_texts(local@)[k]).row_index by {
                    assert(record_texts(local@)[j] == all[first + j]);
                    assert(record_texts(local@)[k] == all[first + k]);
                }
            }
            match take_part(&tables[b], &local, start, technical) {
                Ok(part) => {
                    let ghost earlier = parts@;
                    parts.push(part);
                    proof {
                        let now = busy(tables@, all, b + 1);
                        assert(now == before.push(b as int));
                        assert forall|i: int| 0 <= i < parts@.len() implies is_part(
                            tables@[now[i]],
                            slice(tables@, all, now[i]),
                            rows_before(tables@, now[i]) as int,
                            *technical,
                            #[trigger] parts@[i],
                        ) by {
                            if i < earlier.len() {
                                assert(parts@[i] == earlier[i]);
                                assert(now[i] == before[i]);
                            }
                        }
                    }
                },
                Err(error) => return Err(error),
            }
        }
        start = end;
        b += 1;
    }
    if next < records.len() {
        return Err(Error::MissingRetainedRow { row_index: records[next].row_index });
    }
    Ok(parts)
}

/// The parts together have one row for each record that was found.
pub proof fn retained_rows_kept(
    tables: Seq<Table>,
    records: Seq<RecordText>,
    technical: TechnicalColumns,
    b: int,
    parts: Seq<Table>,
)
    requires
        0 <= b <= tables.len(),
        is_retained(tables, records, technical, b, parts),
    ensures
        rows_before(parts, parts.len() as int) == cursor(tables, records, b),
    decreases b,
{
    if b > 0 {
        let fewer = busy(tables, records, b - 1);
        let now = busy(tables, records, b);
        cursor_bounds(tables, records, b - 1);
        cursor_bounds(tables, records, b);
        if cursor(tables, records, b - 1) < cursor(tables, records, b) {
            let rest = parts.drop_last();
            assert forall|i: int| 0 <= i < rest.len() implies is_part(
                tables[fewer[i]],
                slice(tables, records, fewer[i]),
                rows_before(tables, fewer[i]) as int,
                technical,
                #[trigger] rest[i],
            ) by {
                assert(rest[i] == parts[i]);
                assert(fewer[i] == now[i]);
            }
            retained_rows_kept(tables, records, technical, b - 1, rest);
            rows_before_agree(rest, parts, rest.len() as int);
            assert(now[parts.len() - 1] == b - 1);
            assert(batch_row_count(parts[parts.len() - 1]) == slice(tables, records, b - 1).len());
        } else {
            retained_rows_kept(tables, records, technical, b - 1, parts);
        }
    }
}

proof fn rows_before_agree(a: Seq<Table>, b: Seq<Table>, i: int)
    requires
        0 <= i <= a.len() <= b.len(),
        forall|k: int| 0 <= k < i ==> a[k] == b[k],
    ensures
        rows_before(a, i) == rows_before(b, i),
    decreases i,
{
    if i > 0 {
        rows_before_agree(a, b, i - 1);
    }
}

/// The records of a table that starts at row `start`.
pub fn batch_assignments(
    records: &Vec<RecordPartitionAssignment>,
    start: usize,
    rows: usize,
) -> (result: Result<Vec<RecordPartitionAssignment>, Error>)
    requires
        start + rows <= usize::MAX,
    ensures
        match result {
            Ok(local) => start + rows <= records@.len() && record_texts(local@) == record_texts(
                records@,
            ).subrange(start as int, start + rows),
            Err(error) => start + rows > records@.len() && error == (Error::MissingRetainedRow {
                row_index: start,
            }),
        },
{
    let end: usize = start + rows;
    if end > records.len() {
        return Err(Error::MissingRetainedRow { row_index: start });
    }
    Ok(copy_records(records, start, end))
}

/// Record `k` does not belong to row `start + k`, and those before do.
pub open spec fn first_stray(records: Seq<RecordText>, start: int, k: int) -> bool {
    &&& 0 <= k < records.len()
    &&& records[k].row_index != start + k
    &&& forall|j: int| 0 <= j < k ==> (#[trigger] records[j]).row_index == start + j
}

/// Those of the first `n` partitions that have records.
pub open spec fn filled(records: Seq<RecordText>, n: int) -> Seq<int>
    decreases n,
{
    if n <= 0 {
        Seq::empty()
    } else if bucket(records, n - 1).len() > 0 {
        filled(records, n - 1).push(n - 1)
    } else {
        filled(records, n - 1)
    }
}

proof fn filled_grows(records: Seq<RecordText>, m: int, n: int)
    requires
        0 <= m <= n,
    ensures
        filled(records, m).len() <= filled(records, n).len(),
    decreases n,
{
    if m < n {
        filled_grows(records, m, n - 1);
    }
}

/// The first `r` runs of partition `p`.
pub open spec fn runs_of(p: int, r: nat) -> Seq<(int, int)> {
    Seq::new(r, |i: int| (p, i))
}

/// The runs of the first `n` partitions.
pub open spec fn split_runs(records: Seq<RecordText>, n: int) -> Seq<(int, int)>
    decreases n,
{
    if n <= 0 {
        Seq::empty()
    } else {
        split_runs(records, n - 1) + runs_of(n - 1, run_count(bucket(records, n - 1).len()))
    }
}

/// `parts` holds the rows of a table, one part for each of some runs of partitions.
pub open spec fn are_split_runs(
    table: Table,
    records: Seq<RecordText>,
    start: int,
    technical: TechnicalColumns,
    runs: Seq<(int, int)>,
    parts: Seq<(usize, Table)>,
) -> bool {
    &&& parts.len() == runs.len()
    &&& forall|i: int|
        0 <= i < parts.len() ==> {
            &&& (#[trigger] parts[i]).0 == runs[i].0
            &&& is_part(
                table,
                run_of(bucket(records, runs[i].0), runs[i].1),
                start,
                technical,
                parts[i].1,
            )
        }
}

/// `parts` holds the rows of a table, one part for each run of each partition.
pub open spec fn is_split(
    table: Table,
    records: Seq<RecordText>,
    start: int,
    technical: TechnicalColumns,
    n: int,
    parts: Seq<(usize, Table)>,
) -> bool {
    are_split_runs(table, records, start, technical, split_runs(records, n), parts)
}

proof fn bucket_names_rows(records: Seq<RecordText>, p: int, start: int, rows: int)
    requires
        names_rows(records, start, rows),
    ensures
        names_rows(bucket(records, p), start, rows),
    decreases records.len(),
{
    let keep = |record: RecordText| record.partition_id == p;
    let kept = bucket(records, p);
    assert forall|k: int| 0 <= k < kept.len() implies start <= (#[trigger] kept[k]).row_index < start
        + rows by {
        assert(kept.contains(kept[k]));
        records.lemma_filter_contains_rev(keep, kept[k]);
        let j = choose|j: int| 0 <= j < records.len() && records[j] == kept[k];
        assert(records[j].row_index == kept[k].row_index);
    }
}

fn run_end(from: usize, count: usize) -> (to: usize)
    requires
        from < count,
    ensures
        to == if from + TABLE_ROWS < count {
            from + TABLE_ROWS
        } else {
            count as int
        },
{
    if count - from > TABLE_ROWS {
        from + TABLE_ROWS
    } else {
        count
    }
}

proof fn run_kept(records: Seq<RecordText>, from: int, to: int, start: int, rows: int)
    requires
        0 <= from <= to <= records.len(),
        names_rows(records, start, rows),
        ascending_rows(records),
    ensures
        names_rows(records.subrange(from, to), start, rows),
        distinct_rows(records.subrange(from, to)),
{
    let run = records.subrange(from, to);
    assert forall|k: int| 0 <= k < run.len() implies start <= (#[trigger] run[k]).row_index < start
        + rows by {
        assert(run[k] == records[from + k]);
    }
    assert forall|j: int, k: int| 0 <= j < k < run.len() implies (#[trigger] run[j]).row_index != (
    #[trigger] run[k]).row_index by {
        assert(run[j] == records[from + j]);
        assert(run[k] == records[from + k]);
    }
}

/// Splits a table that starts at row `start` by partition, into parts that can be
/// written at once; partitions that the plan does not have are left out.
pub fn split_streamed_batch(
    output_partitions: usize,
    records: &Vec<RecordPartitionAssignment>,
    start: usize,
    table: &Table,
    technical: &TechnicalColumns,
) -> (result: Result<Vec<(usize, Table)>, Error>)
    requires
        start + batch_row_count(*table) <= usize::MAX,
        batch_row_count(*table) <= 0x1_0000_0000,
        batch_whole(*table),
    ensures
        match result {
            Ok(parts) => {
                let end = start + batch_row_count(*table);
                let local = record_texts(records@).subrange(start as int, end);
                &&& end <= records@.len()
                &&& forall|k: int|
                    0 <= k < local.len() ==> (#[trigger] local[k]).row_index == start + k
                &&& is_split(
                    *table,
                    local,
                    start as int,
                    *technical,
                    output_partitions as int,
                    parts@,
                )
                &&& forall|i: int|
                    0 <= i < parts@.len() ==> 0 < batch_row_count((#[trigger] parts@[i]).1)
                        <= TABLE_ROWS
            },
            Err(Error::MissingRetainedRow { row_index }) => {
                let end = start + batch_row_count(*table);
                let local = record_texts(records@).subrange(start as int, end);
                if end > records@.len() {
                    row_index == start
                } else {
                    first_stray(local, start as int, row_index - start)
                }
            },
            Err(Error::Arrow(_)) => {
                let end = start + batch_row_count(*table);
                let local = record_texts(records@).subrange(start as int, end);
                &&& end <= records@.len()
                &&& forall|k: int|
                    0 <= k < local.len() ==> (#[trigger] local[k]).row_index == start + k
                &&& filled(local, output_partitions as int).len() > 0
                &&& !takeable(*table)
            },
            Err(_) => false,
        },
{
    let rows: usize = row_total(table);
    let local = match batch_assignments(records, start, rows) {
        Ok(local) => local,
        Err(error) => return Err(error),
    };
    let ghost all = record_texts(local@);
    assert(all.len() == local@.len());
    let mut k: usize = 0;
    while k < local.len()
        invariant
            all == record_texts(local@),
            start + rows <= usize::MAX,
            local@.len() == rows,
            k <= local@.len(),
            forall|j: int| 0 <= j < k ==> (#[trigger] all[j]).row_index == start + j,
            all == record_texts(records@).subrange(start as int, start + rows),
            start + rows <= records@.len(),
            rows == batch_row_count(*table),
        decreases local.len() - k,
    {
        assert(all[k as int].row_index == local@[k as int].row_index);
        if local[k].row_index != start + k {
            return Err(Error::MissingRetainedRow { row_index: start + k });
        }
        k += 1;
    }
    let buckets = assignments_by_partition(output_partitions, &local);
    let mut parts: Vec<(usize, Table)> = Vec::new();
    let mut p: usize = 0;
    while p < output_partitions
        invariant
            all == record_texts(local@),
            all == record_texts(records@).subrange(start as int, start + rows),
            start + rows <= records@.len(),
            rows == batch_row_count(*table),
            rows <= 0x1_0000_0000,
            batch_whole(*table),
            local@.len() == rows,
            forall|j: int| 0 <= j < all.len() ==> (#[trigger] all[j]).row_index == start + j,
            buckets@.len() == output_partitions,
            forall|p: int|
                0 <= p < output_partitions ==> record_texts((#[trigger] buckets@[p])@) == bucket(
                    all,
                    p,
                ),
            p <= output_partitions,
            is_split(*table, all, start as int, *technical, p as int, parts@),
            forall|i: int|
                0 <= i < parts@.len() ==> 0 < batch_row_count((#[trigger] parts@[i]).1)
                    <= TABLE_ROWS,
        decreases output_partitions - p,
    {
        assert(record_texts(buckets@[p as int]@) == bucket(all, p as int));
        assert(record_texts(buckets@[p as int]@).len() == buckets@[p as int]@.len());
        let ghost own = bucket(all, p as int);
        let ghost earlier_runs = split_runs(all, p as int);
        let count: usize = buckets[p].len();
        let mut from: usize = 0;
        let ghost mut r: int = 0;
        proof {
            assert(names_rows(all, start as int, rows as int));
            bucket_names_rows(all, p as int, start as int, rows as int);
            assert(ascending_rows(all));
            bucket_ordered(all, p as int);
            if count > 0 {
                filled_grows(all, p + 1, output_partitions as int);
            }
            assert(earlier_runs + runs_of(p as int, 0) =~= earlier_runs);
        }
        while from < count
            invariant
                own == bucket(all, p as int),
                own == record_texts(buckets@[p as int]@),
                own.len() == count,
                count == buckets@[p as int]@.len(),
                p < output_partitions == buckets@.len(),
                names_rows(own, start as int, rows as int),
                ascending_rows(own),
                rows == batch_row_count(*table),
                rows <= 0x1_0000_0000,
                batch_whole(*table),
                all == record_texts(records@).subrange(start as int, start + rows),
                start + rows <= records@.len(),
                forall|j: int| 0 <= j < all.len() ==> (#[trigger] all[j]).row_index == start + j,
                count > 0 ==> filled(all, output_partitions as int).len() > 0,
                earlier_runs == split_runs(all, p as int),
                0 <= r,
                from == run_start(count as nat, r),
                from < count ==> r < run_count(count as nat),
                from == count ==> r == run_count(count as nat),
                are_split_runs(
                    *table,
                    all,
                    start as int,
                    *technical,
                    earlier_runs + runs_of(p as int, r as nat),
                    parts@,
                ),
                forall|i: int|
                    0 <= i < parts@.len() ==> 0 < batch_row_count((#[trigger] parts@[i]).1)
                        <= TABLE_ROWS,
            decreases count - from,
        {
            let to: usize = run_end(from, count);
            let run = copy_records(&buckets[p], from, to);
            proof {
                assert(record_texts(run@) == run_of(own, r));
                run_kept(own, from as int, to as int, start as int, rows as int);
            }
            match take_part(table, &run, start, technical) {
                Ok(part) => {
                    let ghost earlier = parts@;
                    parts.push((p, part));
                    proof {
                        let before = earlier_runs + runs_of(p as int, r as nat);
                        let now = earlier_runs + runs_of(p as int, (r + 1) as nat);
                        assert(now =~= before.push((p as int, r)));
                        assert forall|i: int| 0 <= i < parts@.len() implies {
                            &&& (#[trigger] parts@[i]).0 == now[i].0
                            &&& is_part(
                                *table,
                                run_of(bucket(all, now[i].0), now[i].1),
                                start as int,
                                *technical,
                                parts@[i].1,
                            )
                        } by {
                            if i < earlier.len() {
                                assert(parts@[i] == earlier[i]);
                            }
                        }
                        assert forall|i: int| 0 <= i < parts@.len() implies 0 < batch_row_count(
                            (#[trigger] parts@[i]).1,
                        ) <= TABLE_ROWS by {
                            if i < earlier.len() {
                                assert(parts@[i] == earlier[i]);
                            }
                        }
                    }
                },
                Err(error) => return Err(error),
            }
            from = to;
            proof {
                r = r + 1;
            }
        }
        p += 1;
    }
    Ok(parts)
}

/// The text in a column of a row; none where the row or the value is missing.
pub open spec fn key_text(rows: Seq<Row>, row: int, column: Seq<char>) -> Option<Seq<char>> {
    if 0 <= row < rows.len() && rows[row]@.contains_key(column) {
        plain_text(rows[row]@[column]@)
    } else {
        None
    }
}

/// The texts in a column of the rows that records name.
pub open spec fn key_texts(rows: Seq<Row>, records: Seq<RecordText>, column: Seq<char>) -> Seq<
    Option<Seq<char>>,
> {
    Seq::new(records.len(), |k: int| key_text(rows, records[k].row_index as int, column))
}

fn row_text(rows: &Vec<Row>, row: usize, column: &String) -> (text: Option<String>)
    ensures
        match text {
            Some(t) => key_text(rows@, row as int, column@) == Some(t@),
            None => key_text(rows@, row as int, column@) is None,
        },
{
    if row >= rows.len() {
        return None;
    }
    match rows[row].key_values().get(column) {
        Some(value) => key_value_to_string(value),
        None => None,
    }
}

/// The texts in the key columns of the rows that records name, column by column.
pub fn key_text_columns(
    rows: &Vec<Row>,
    key_columns: &Vec<String>,
    records: &[RecordPartitionAssignment],
) -> (columns: Vec<Vec<Option<String>>>)
    ensures
        columns@.len() == key_columns@.len(),
        forall|c: int|
            0 <= c < columns@.len() ==> optional_texts((#[trigger] columns@[c])@) == key_texts(
                rows@,
                record_texts(records@),
                key_columns@[c]@,
            ),
{
    let ghost all = record_texts(records@);
    let mut columns: Vec<Vec<Option<String>>> = Vec::new();
    let mut c: usize = 0;
    while c < key_columns.len()
        invariant
            all == record_texts(records@),
            c <= key_columns@.len(),
            columns@.len() == c,
            forall|d: int|
                0 <= d < c ==> optional_texts((#[trigger] columns@[d])@) == key_texts(
                    rows@,
                    all,
                    key_columns@[d]@,
                ),
        decreases key_columns.len() - c,
    {
        let ghost wanted = key_texts(rows@, all, key_columns@[c as int]@);
        let mut values: Vec<Option<String>> = Vec::new();
        let mut k: usize = 0;
        while k < records.len()
            invariant
                all == record_texts(records@),
                c < key_columns@.len(),
                wanted == key_texts(rows@, all, key_columns@[c as int]@),
                k <= records@.len(),
                values@.len() == k,
                forall|j: int| 0 <= j < k ==> #[trigger] optional_texts(values@)[j] == wanted[j],
            decreases records.len() - k,
        {
            let ghost before = values@;
            assert(all[k as int].row_index == records@[k as int].row_index);
            values.push(row_text(rows, records[k].row_index, &key_columns[c]));
            proof {
                assert forall|j: int| 0 <= j < k + 1 implies #[trigger] optional_texts(values@)[j]
                    == wanted[j] by {
                    if j < k {
                        assert(optional_texts(before)[j] == wanted[j]);
                    }
                }
            }
            k += 1;
        }
        assert(optional_texts(values@) =~= wanted);
        columns.push(values);
        c += 1;
    }
    columns
}

/// No column holds more text than a column of text can.
pub open spec fn columns_fit(rows: Seq<Row>, records: Seq<RecordText>, columns: Seq<Seq<char>>) -> bool {
    forall|c: int|
        0 <= c < columns.len() ==> text_bytes(key_texts(rows, records, #[trigger] columns[c]))
            <= i32::MAX
}

fn column_fits(values: &Vec<Option<String>>) -> (fits: bool)
    ensures
        fits == (text_bytes(optional_texts(values@)) <= i32::MAX),
{
    let ghost all = optional_texts(values@);
    let mut bytes: u64 = 0;
    let mut i: usize = 0;
    assert(all.take(0) =~= Seq::<Option<Seq<char>>>::empty());
    while i < values.len()
        invariant
            all == optional_texts(values@),
            i <= values@.len(),
            bytes == text_bytes(all.take(i as int)),
            bytes <= i32::MAX,
        decreases values.len() - i,
    {
        let more: usize = match &values[i] {
            Some(text) => byte_len(text),
            None => 0,
        };
        proof {
            assert(all.take(i + 1).drop_last() =~= all.take(i as int));
            text_bytes_grow(all, i + 1, all.len() as int);
            assert(all.take(all.len() as int) =~= all);
        }
        if more > 0x7fff_ffff || bytes + more as u64 > 0x7fff_ffff {
            return false;
        }
        bytes += more as u64;
        i += 1;
    }
    assert(all.take(i as int) =~= all);
    true
}

proof fn text_bytes_grow(values: Seq<Option<Seq<char>>>, i: int, j: int)
    requires
        0 <= i <= j <= values.len(),
    ensures
        text_bytes(values.take(i)) <= text_bytes(values.take(j)),
    decreases j,
{
    if i < j {
        text_bytes_grow(values, i, j - 1);
        assert(values.take(j).drop_last() =~= values.take(j - 1));
    }
}

/// Whether the key columns of the rows that records name can be columns of text.
pub fn key_columns_fit(
    rows: &Vec<Row>,
    key_columns: &Vec<String>,
    records: &[RecordPartitionAssignment],
) -> (fits: bool)
    ensures
        fits == columns_fit(rows@, record_texts(records@), texts(key_columns@)),
{
    let ghost all = record_texts(records@);
    let ghost names = texts(key_columns@);
    let columns = key_text_columns(rows, key_columns, records);
    let mut c: usize = 0;
    while c < columns.len()
        invariant
            all == record_texts(records@),
            names == texts(key_columns@),
            columns@.len() == key_columns@.len(),
            forall|d: int|
                0 <= d < columns@.len() ==> optional_texts((#[trigger] columns@[d])@) == key_texts(
                    rows@,
                    all,
                    key_columns@[d]@,
                ),
            c <= columns@.len(),
            forall|d: int|
                0 <= d < c ==> text_bytes(key_texts(rows@, all, #[trigger] names[d])) <= i32::MAX,
        decreases columns.len() - c,
    {
        assert(names[c as int] == key_columns@[c as int]@);
        if !column_fits(&columns[c]) {
            return false;
        }
        c += 1;
    }
    true
}

/// The table of the key columns of the rows that records name, with the technical
/// columns.
pub open spec fn key_table_columns(
    rows: Seq<Row>,
    records: Seq<RecordText>,
    columns: Seq<Seq<char>>,
    technical: TechnicalColumns,
) -> Seq<(Seq<char>, Seq<CellDatum>)> {
    Seq::new(columns.len(), |c: int| (columns[c], text_cells(key_texts(rows, records, columns[c]))))
        + technical_cells(records, technical)
}

/// Makes the table of a partition where only keys were kept. A plan without key
/// columns has no such table.
pub fn key_table(
    plan: &PartitionPlan,
    rows: &Vec<Row>,
    records: &[RecordPartitionAssignment],
) -> (result: Result<Table, Error>)
    requires
        columns_fit(rows@, record_texts(records@), texts(plan.key_columns@)),
    ensures
        match result {
            Ok(table) => {
                &&& plan.key_columns@.len() > 0
                &&& batch_whole(table)
                &&& batch_row_count(table) == records@.len()
                &&& batch_columns(table) == key_table_columns(
                    rows@,
                    record_texts(records@),
                    texts(plan.key_columns@),
                    plan.technical_columns,
                )
            },
            Err(error) => plan.key_columns@.len() == 0 && error is Arrow,
        },
{
    let ghost all = record_texts(records@);
    let ghost names = texts(plan.key_columns@);
    let columns = key_text_columns(rows, &plan.key_columns, records);
    let ghost made = columns@;
    proof {
        assert forall|c: int| 0 <= c < made.len() implies text_bytes(
            optional_texts((#[trigger] made[c])@),
        ) <= i32::MAX by {
            assert(names[c] == plan.key_columns@[c]@);
        }
        assert forall|c: int| 0 <= c < made.len() implies (#[trigger] made[c])@.len()
            == records@.len() by {
            assert(optional_texts(made[c]@).len() == made[c]@.len());
        }
    }
    match text_batch(&plan.key_columns, columns) {
        Ok(table) => {
            assert(batch_columns(table) =~= Seq::new(
                names.len(),
                |c: int| (names[c], text_cells(key_texts(rows@, all, names[c]))),
            ));
            append_technical_columns(table, records, &plan.technical_columns)
        },
        Err(error) => Err(Error::Arrow(error)),
    }
}

/// The number of files of a partition.
pub open spec fn file_count(files: Seq<OutputFile>, p: int) -> nat
    decreases files.len(),
{
    if files.len() == 0 {
        0
    } else {
        file_count(files.drop_last(), p) + if files.last().partition_id == p {
            1nat
        } else {
            0nat
        }
    }
}

/// The known sizes of the files of a partition.
pub open spec fn known_sizes(files: Seq<OutputFile>, p: int) -> Seq<u64>
    decreases files.len(),
{
    if files.len() == 0 {
        Seq::empty()
    } else {
        let sizes = known_sizes(files.drop_last(), p);
        match files.last().size_bytes {
            Some(size) if files.last().partition_id == p => sizes.push(size),
            _ => sizes,
        }
    }
}

/// What a manifest says of a partition.
pub open spec fn partition_entry(files: Seq<OutputFile>, p: int, row_count: u64) -> PartitionManifest {
    PartitionManifest {
        partition_id: p as usize,
        row_count,
        file_count: file_count(files, p) as usize,
        size_bytes: if known_sizes(files, p).len() == 0 {
            None
        } else {
            Some(total(known_sizes(files, p)) as u64)
        },
    }
}

proof fn known_sizes_grow(files: Seq<OutputFile>, p: int, i: int)
    requires
        0 <= i <= files.len(),
    ensures
        total(known_sizes(files.take(i), p)) <= total(known_sizes(files, p)),
    decreases files.len() - i,
{
    if i < files.len() {
        known_sizes_grow(files, p, i + 1);
        assert(files.take(i + 1).drop_last() =~= files.take(i));
        let before = known_sizes(files.take(i), p);
        let after = known_sizes(files.take(i + 1), p);
        if after != before {
            assert(after.drop_last() =~= before);
        }
    } else {
        assert(files.take(i) =~= files);
    }
}

fn describe_partition(files: &Vec<OutputFile>, partition_id: usize, row_count: u64) -> (entry:
    PartitionManifest)
    requires
        total(known_sizes(files@, partition_id as int)) <= u64::MAX,
    ensures
        entry == partition_entry(files@, partition_id as int, row_count),
{
    let ghost p = partition_id as int;
    let mut count: usize = 0;
    let mut size: Option<u64> = None;
    let mut i: usize = 0;
    assert(files@.take(0) =~= Seq::<OutputFile>::empty());
    while i < files.len()
        invariant
            p == partition_id,
            total(known_sizes(files@, p)) <= u64::MAX,
            i <= files@.len(),
            count <= i,
            count == file_count(files@.take(i as int), p),
            match size {
                Some(n) => known_sizes(files@.take(i as int), p).len() > 0 && n == total(
                    known_sizes(files@.take(i as int), p),
                ),
                None => known_sizes(files@.take(i as int), p).len() == 0,
            },
        decreases files.len() - i,
    {
        proof {
            assert(files@.take(i + 1).drop_last() =~= files@.take(i as int));
            known_sizes_grow(files@, p, i + 1);
            let before = known_sizes(files@.take(i as int), p);
            let after = known_sizes(files@.take(i + 1), p);
            if after != before {
                assert(after.drop_last() =~= before);
            }
            if before.len() == 0 {
                assert(total(before) == 0);
            }
        }
        if files[i].partition_id == partition_id {
            count += 1;
            if let Some(more) = files[i].size_bytes {
                size = match size {
                    Some(sum) => Some(sum + more),
                    None => Some(more),
                };
            }
        }
        i += 1;
    }
    assert(files@.take(i as int) =~= files@);
    PartitionManifest { partition_id, row_count, file_count: count, size_bytes: size }
}

/// `manifest` describes written files.
pub open spec fn is_manifest(
    row_counts: Seq<u64>,
    location: Option<String>,
    files: Seq<OutputFile>,
    manifest: Manifest,
) -> bool {
    &&& manifest.version@ == METADATA_VERSION@
    &&& !manifest.input_reused
    &&& manifest.dataset_location == location
    &&& manifest.output_files@ == files
    &&& manifest.partitions@ == Seq::new(
        row_counts.len(),
        |p: int| partition_entry(files, p, row_counts[p]),
    )
}

/// Describes what was written.
pub fn manifest_from_output_files(
    assignments: &PartitionAssignmentSummary,
    dataset_location: Option<String>,
    output_files: Vec<OutputFile>,
) -> (manifest: Manifest)
    requires
        forall|p: int|
            0 <= p < assignments.partition_row_counts@.len() ==> total(
                #[trigger] known_sizes(output_files@, p),
            ) <= u64::MAX,
    ensures
        is_manifest(
            assignments.partition_row_counts@,
            dataset_location,
            output_files@,
            manifest,
        ),
{
    let counts = &assignments.partition_row_counts;
    let mut partitions: Vec<PartitionManifest> = Vec::new();
    let mut p: usize = 0;
    while p < counts.len()
        invariant
            counts == assignments.partition_row_counts,
            forall|p: int|
                0 <= p < counts@.len() ==> total(#[trigger] known_sizes(output_files@, p))
                    <= u64::MAX,
            p <= counts@.len(),
            partitions@ == Seq::new(
                p as nat,
                |q: int| partition_entry(output_files@, q, counts@[q]),
            ),
        decreases counts.len() - p,
    {
        assert(total(known_sizes(output_files@, p as int)) <= u64::MAX);
        partitions.push(describe_partition(&output_files, p, counts[p]));
        p += 1;
        assert(partitions@ =~= Seq::new(
            p as nat,
            |q: int| partition_entry(output_files@, q, counts@[q]),
        ));
    }
    Manifest {
        version: METADATA_VERSION.to_owned(),
        input_reused: false,
        dataset_location,
        output_files,
        partitions,
    }
}

/// `manifest` says that a dataset stays where it is.
pub open spec fn is_no_op_manifest(
    sizes: Seq<u64>,
    path: Seq<char>,
    manifest: Manifest,
) -> bool {
    &&& manifest.version@ == METADATA_VERSION@
    &&& manifest.input_reused
    &&& manifest.dataset_location matches Some(location) && location@ == path
    &&& manifest.output_files@ == Seq::<OutputFile>::empty()
    &&& manifest.partitions@ == Seq::new(
        sizes.len(),
        |p: int|
            PartitionManifest {
                partition_id: p as usize,
                row_count: sizes[p],
                file_count: 0,
                size_bytes: None,
            },
    )
}

/// Describes a dataset that stays where it is.
pub fn no_op_manifest(stats: &StatsMetadata, dataset: &InputDataset) -> (manifest: Manifest)
    ensures
        is_no_op_manifest(stats.estimates.before_partition_sizes@, dataset.path@, manifest),
{
    let sizes = &stats.estimates.before_partition_sizes;
    let mut partitions: Vec<PartitionManifest> = Vec::new();
    let mut p: usize = 0;
    while p < sizes.len()
        invariant
            p <= sizes@.len(),
            partitions@.len() == p,
            forall|q: int|
                0 <= q < p ==> #[trigger] partitions@[q] == (PartitionManifest {
                    partition_id: q as usize,
                    row_count: sizes@[q],
                    file_count: 0,
                    size_bytes: None,
                }),
        decreases sizes.len() - p,
    {
        partitions.push(
            PartitionManifest {
                partition_id: p,
                row_count: sizes[p],
                file_count: 0,
                size_bytes: None,
            },
        );
        p += 1;
    }
    assert(partitions@ =~= Seq::new(
        sizes@.len(),
        |q: int|
            PartitionManifest {
                partition_id: q as usize,
                row_count: sizes@[q],
                file_count: 0,
                size_bytes: None,
            },
    ));
    Manifest {
        version: METADATA_VERSION.to_owned(),
        input_reused: true,
        dataset_location: Some(dataset.path.clone()),
        output_files: Vec::new(),
        partitions,
    }
}

/// Whether the rows are read again while they are written: the dataset has Parquet
/// files and none of its columns were kept.
pub fn reads_again(dataset: &InputDataset) -> (again: bool)
    ensures
        again == (dataset.files@.len() > 0 && dataset.batches@.len() == 0 && dataset.format
            == DatasetFormat::Parquet),
{
    dataset.files.len() > 0 && dataset.batches.len() == 0 && dataset.format
        == DatasetFormat::Parquet
}

/// The tables that go into the file of a partition can be made.
pub open spec fn writable(
    plan: PartitionPlan,
    dataset: InputDataset,
    records: Seq<RecordText>,
) -> bool {
    if dataset.batches@.len() > 0 {
        &&& rows_before(dataset.batches@, dataset.batches@.len() as int) <= usize::MAX
        &&& forall|b: int|
            0 <= b < dataset.batches@.len() ==> batch_row_count(#[trigger] dataset.batches@[b])
                <= 0x1_0000_0000 && batch_whole(dataset.batches@[b])
        &&& follows_tables(dataset.batches@, records)
        &&& distinct_rows(records)
    } else {
        forall|r: int|
            0 <= r < key_table_count(records.len()) ==> columns_fit(
                dataset.rows.rows@,
                #[trigger] run_of(records, r),
                texts(plan.key_columns@),
            )
    }
}

/// The number of tables of keys: one for each run, and one without rows where there
/// are no records.
pub open spec fn key_table_count(records: nat) -> nat {
    if records == 0 {
        1
    } else {
        run_count(records)
    }
}

/// `tables` hold the keys of the first runs of records.
pub open spec fn are_key_tables(
    plan: PartitionPlan,
    rows: Seq<Row>,
    records: Seq<RecordText>,
    tables: Seq<Table>,
) -> bool {
    forall|r: int|
        0 <= r < tables.len() ==> {
            &&& batch_row_count(#[trigger] tables[r]) == run_of(records, r).len()
            &&& batch_columns(tables[r]) == key_table_columns(
                rows,
                run_of(records, r),
                texts(plan.key_columns@),
                plan.technical_columns,
            )
        }
}

/// The tables with rows of run `r`, each with the run.
pub open spec fn busy_of_run(tables: Seq<Table>, records: Seq<RecordText>, r: int) -> Seq<
    (int, int),
> {
    let busy = busy(tables, run_of(records, r), tables.len() as int);
    Seq::new(busy.len(), |i: int| (r, busy[i]))
}

/// The tables with rows of the first runs, each with the run.
pub open spec fn busy_of_runs(tables: Seq<Table>, records: Seq<RecordText>, r: int) -> Seq<
    (int, int),
>
    decreases r,
{
    if r <= 0 {
        Seq::empty()
    } else {
        busy_of_runs(tables, records, r - 1) + busy_of_run(tables, records, r - 1)
    }
}

/// `parts` hold the rows of the first `r` runs of records: for each run one part for
/// each table that has some.
pub open spec fn are_retained_runs(
    tables: Seq<Table>,
    records: Seq<RecordText>,
    technical: TechnicalColumns,
    r: int,
    parts: Seq<Table>,
) -> bool {
    let places = busy_of_runs(tables, records, r);
    &&& parts.len() == places.len()
    &&& forall|i: int|
        0 <= i < parts.len() ==> is_part(
            tables[places[i].1],
            slice(tables, run_of(records, places[i].0), places[i].1),
            rows_before(tables, places[i].1) as int,
            technical,
            #[trigger] parts[i],
        )
}

/// `tables` hold what goes into the files of a partition, in tables that can be
/// written at once: the rows of the records where columns were kept, else their keys.
pub open spec fn are_partition_tables(
    plan: PartitionPlan,
    dataset: InputDataset,
    records: Seq<RecordText>,
    tables: Seq<Table>,
) -> bool {
    if dataset.batches@.len() > 0 {
        are_retained_runs(
            dataset.batches@,
            records,
            plan.technical_columns,
            run_count(records.len()) as int,
            tables,
        )
    } else {
        &&& tables.len() == key_table_count(records.len())
        &&& are_key_tables(plan, dataset.rows.rows@, records, tables)
    }
}

/// No table has more rows than are written at once.
pub open spec fn tables_bounded(tables: Seq<Table>) -> bool {
    forall|i: int| 0 <= i < tables.len() ==> batch_row_count(#[trigger] tables[i]) <= TABLE_ROWS
}

proof fn slice_end_is(records: Seq<RecordText>, from: int, limit: int, end: int)
    requires
        0 <= from <= end <= records.len(),
        forall|k: int| from <= k < end ==> (#[trigger] records[k]).row_index < limit,
        end < records.len() ==> records[end].row_index >= limit,
    ensures
        slice_end(records, from, limit) == end,
    decreases end - from,
{
    if from < end {
        assert(records[from].row_index < limit);
        slice_end_is(records, from + 1, limit, end);
    }
}

/// A record that comes after those of the first `b` tables, and not after those of
/// all, has no row in the first `b` tables.
proof fn later_record(tables: Seq<Table>, records: Seq<RecordText>, b: int, k: int, t: int)
    requires
        0 <= b <= t <= tables.len(),
        follows_tables(tables, records),
        cursor(tables, records, b) <= k <= cursor(tables, records, t),
        k < records.len(),
        k == cursor(tables, records, t) ==> t == tables.len() || b == t,
    ensures
        records[k].row_index >= rows_before(tables, b),
    decreases t - b,
{
    cursor_bounds(tables, records, b);
    cursor_bounds(tables, records, t);
    if k == cursor(tables, records, t) {
        crate::reader::rows_before_grows(tables, b, t);
    } else {
        cursor_bounds(tables, records, b + 1);
        if k < cursor(tables, records, b + 1) {
            assert(rows_before(tables, b) <= records[k].row_index);
        } else {
            later_record(tables, records, b + 1, k, t);
            crate::reader::rows_before_grows(tables, b, b + 1);
        }
    }
}

/// How far the records of a run from `from` to `to` have come, where all have come to
/// `cursor`.
pub open spec fn within_run(cursor: int, from: int, to: int) -> int {
    if cursor <= from {
        0
    } else if cursor >= to {
        to - from
    } else {
        cursor - from
    }
}

/// A run has the records of a table that lie within it.
pub proof fn run_cursor(tables: Seq<Table>, records: Seq<RecordText>, from: int, to: int, b: int)
    requires
        0 <= b <= tables.len(),
        0 <= from <= to <= records.len(),
        follows_tables(tables, records),
        from <= cursor(tables, records, tables.len() as int),
    ensures
        cursor(tables, records.subrange(from, to), b) == within_run(
            cursor(tables, records, b),
            from,
            to,
        ),
    decreases b,
{
    let run = records.subrange(from, to);
    if b > 0 {
        run_cursor(tables, records, from, to, b - 1);
        cursor_bounds(tables, records, b - 1);
        cursor_bounds(tables, records, b);
        let end = within_run(cursor(tables, records, b), from, to);
        let limit = rows_before(tables, b) as int;
        let first = cursor(tables, run, b - 1);
        assert forall|k: int| first <= k < end implies (#[trigger] run[k]).row_index < limit by {
            assert(run[k] == records[from + k]);
        }
        if end < run.len() {
            assert(run[end] == records[from + end]);
            if cursor(tables, records, b) <= from {
                later_record(tables, records, b, from, tables.len() as int);
            }
        }
        slice_end_is(run, first, limit, end);
    }
}

proof fn run_follows(tables: Seq<Table>, records: Seq<RecordText>, from: int, to: int)
    requires
        0 <= from <= to <= records.len(),
        follows_tables(tables, records),
        distinct_rows(records),
        from <= cursor(tables, records, tables.len() as int),
    ensures
        follows_tables(tables, records.subrange(from, to)),
        distinct_rows(records.subrange(from, to)),
{
    let run = records.subrange(from, to);
    assert forall|b: int, k: int|
        0 <= b < tables.len() && cursor(tables, run, b) <= k < cursor(tables, run, b + 1)
        implies #[trigger] rows_before(tables, b) <= (#[trigger] run[k]).row_index by {
        run_cursor(tables, records, from, to, b);
        run_cursor(tables, records, from, to, b + 1);
        cursor_bounds(tables, run, b);
        cursor_bounds(tables, run, b + 1);
        assert(run[k] == records[from + k]);
        assert(rows_before(tables, b) <= records[from + k].row_index);
    }
    assert forall|j: int, k: int| 0 <= j < k < run.len() implies (#[trigger] run[j]).row_index != (
    #[trigger] run[k]).row_index by {
        assert(run[j] == records[from + j]);
        assert(run[k] == records[from + k]);
    }
}

proof fn rows_before_joined(a: Seq<Table>, b: Seq<Table>, i: int)
    requires
        0 <= i <= b.len(),
    ensures
        rows_before(a + b, a.len() + i) == rows_before(a, a.len() as int) + rows_before(b, i),
    decreases i,
{
    if i > 0 {
        rows_before_joined(a, b, i - 1);
        assert((a + b)[a.len() + i - 1] == b[i - 1]);
    } else {
        rows_before_agree(a, a + b, a.len() as int);
    }
}

proof fn parts_bounded(
    tables: Seq<Table>,
    records: Seq<RecordText>,
    technical: TechnicalColumns,
    b: int,
    parts: Seq<Table>,
)
    requires
        0 <= b <= tables.len(),
        is_retained(tables, records, technical, b, parts),
        records.len() <= TABLE_ROWS,
    ensures
        tables_bounded(parts),
{
    assert forall|i: int| 0 <= i < parts.len() implies batch_row_count(#[trigger] parts[i])
        <= TABLE_ROWS by {
        let t = busy(tables, records, b)[i];
        busy_bounds(tables, records, b, i);
        cursor_bounds(tables, records, t);
        cursor_bounds(tables, records, t + 1);
    }
}

proof fn busy_bounds(tables: Seq<Table>, records: Seq<RecordText>, b: int, i: int)
    requires
        0 <= b,
        0 <= i < busy(tables, records, b).len(),
    ensures
        0 <= busy(tables, records, b)[i] < b,
    decreases b,
{
    if b > 0 && i < busy(tables, records, b - 1).len() {
        busy_bounds(tables, records, b - 1, i);
    }
}

/// The rows that records name, in tables that can be written at once.
fn retained_tables(
    plan: &PartitionPlan,
    dataset: &InputDataset,
    records: &[RecordPartitionAssignment],
) -> (result: Result<Vec<Table>, Error>)
    requires
        dataset.batches@.len() > 0,
        writable(*plan, *dataset, record_texts(records@)),
    ensures
        match result {
            Ok(tables) => {
                &&& cursor(
                    dataset.batches@,
                    record_texts(records@),
                    dataset.batches@.len() as int,
                ) == records@.len()
                &&& are_partition_tables(*plan, *dataset, record_texts(records@), tables@)
                &&& tables_bounded(tables@)
                &&& rows_before(tables@, tables@.len() as int) == records@.len()
            },
            Err(Error::MissingRetainedRow { row_index }) => {
                let end = cursor(
                    dataset.batches@,
                    record_texts(records@),
                    dataset.batches@.len() as int,
                );
                end < records@.len() && row_index == records@[end].row_index
            },
            Err(Error::Arrow(_)) => refuses_part(dataset.batches@, record_texts(records@)),
            Err(_) => false,
        },
{
    let ghost all = record_texts(records@);
    let ghost source = dataset.batches@;
    let ghost last = source.len() as int;
    let count: usize = records.len();
    let mut tables: Vec<Table> = Vec::new();
    let mut from: usize = 0;
    let ghost mut r: int = 0;
    assert(all.len() == count);
    proof {
        cursor_bounds(source, all, last);
    }
    while from < count
        invariant
            all == record_texts(records@),
            all.len() == count,
            count == records@.len(),
            source == dataset.batches@,
            last == source.len(),
            last > 0,
            writable(*plan, *dataset, all),
            0 <= r,
            from == run_start(count as nat, r),
            from < count ==> r < run_count(count as nat),
            from == count ==> r == run_count(count as nat),
            from <= cursor(source, all, last) <= count,
            are_retained_runs(source, all, plan.technical_columns, r, tables@),
            tables_bounded(tables@),
            rows_before(tables@, tables@.len() as int) == from,
        decreases count - from,
    {
        let to: usize = run_end(from, count);
        let run = copy_records(records, from, to);
        let ghost part = record_texts(run@);
        proof {
            assert(part == run_of(all, r));
            assert(part == all.subrange(from as int, to as int));
            run_follows(source, all, from as int, to as int);
            run_cursor(source, all, from as int, to as int, last);
            cursor_bounds(source, part, last);
        }
        match retained_partition_batches(&dataset.batches, &run, &plan.technical_columns) {
            Ok(mut parts) => {
                let ghost earlier = tables@;
                let ghost more = parts@;
                tables.append(&mut parts);
                proof {
                    assert(tables@ =~= earlier + more);
                    retained_rows_kept(source, part, plan.technical_columns, last, more);
                    rows_before_joined(earlier, more, more.len() as int);
                    parts_bounded(source, part, plan.technical_columns, last, more);
                    let before = busy_of_runs(source, all, r);
                    let now = busy_of_runs(source, all, r + 1);
                    assert(now == before + busy_of_run(source, all, r));
                    assert forall|i: int| 0 <= i < tables@.len() implies is_part(
                        source[now[i].1],
                        slice(source, run_of(all, now[i].0), now[i].1),
                        rows_before(source, now[i].1) as int,
                        plan.technical_columns,
                        #[trigger] tables@[i],
                    ) by {
                        if i < earlier.len() {
                            assert(tables@[i] == earlier[i]);
                            assert(now[i] == before[i]);
                        } else {
                            assert(tables@[i] == more[i - earlier.len()]);
                            assert(now[i] == busy_of_run(source, all, r)[i - before.len()]);
                        }
                    }
                    assert forall|i: int| 0 <= i < tables@.len() implies batch_row_count(
                        #[trigger] tables@[i],
                    ) <= TABLE_ROWS by {
                        if i < earlier.len() {
                            assert(tables@[i] == earlier[i]);
                        } else {
                            assert(tables@[i] == more[i - earlier.len()]);
                        }
                    }
                }
            },
            Err(error) => {
                proof {
                    if error is Arrow {
                        let b = choose|b: int|
                            0 <= b < source.len() && cursor(source, part, b) < cursor(
                                source,
                                part,
                                b + 1,
                            ) && !takeable(#[trigger] source[b]);
                        run_cursor(source, all, from as int, to as int, b);
                        run_cursor(source, all, from as int, to as int, b + 1);
                        assert(cursor(source, all, b) < cursor(source, all, b + 1));
                    }
                    if let Error::MissingRetainedRow { row_index } = error {
                        let end = cursor(source, part, last);
                        assert(record_texts(run@)[end] == all[from + end]);
                        assert(run@[end].row_index == part[end].row_index);
                    }
                }
                return Err(error);
            },
        }
        from = to;
        proof {
            r = r + 1;
        }
    }
    Ok(tables)
}

/// The keys of the rows that records name, in tables that can be written at once.
fn key_tables(
    plan: &PartitionPlan,
    dataset: &InputDataset,
    records: &[RecordPartitionAssignment],
) -> (result: Result<Vec<Table>, Error>)
    requires
        dataset.batches@.len() == 0,
        writable(*plan, *dataset, record_texts(records@)),
    ensures
        match result {
            Ok(tables) => {
                &&& plan.key_columns@.len() > 0
                &&& are_partition_tables(*plan, *dataset, record_texts(records@), tables@)
                &&& tables_bounded(tables@)
                &&& rows_before(tables@, tables@.len() as int) == records@.len()
            },
            Err(error) => plan.key_columns@.len() == 0 && error is Arrow,
        },
{
    let ghost all = record_texts(records@);
    let count: usize = records.len();
    let mut tables: Vec<Table> = Vec::new();
    let mut from: usize = 0;
    assert(all.len() == count);
    while tables.len() == 0 || from < count
        invariant
            all == record_texts(records@),
            all.len() == count,
            count == records@.len(),
            dataset.batches@.len() == 0,
            writable(*plan, *dataset, all),
            from == run_start(count as nat, tables@.len() as int),
            from < count ==> tables@.len() < run_count(count as nat),
            from == count && tables@.len() > 0 ==> tables@.len() == key_table_count(count as nat),
            tables@.len() > 0 ==> plan.key_columns@.len() > 0,
            are_key_tables(*plan, dataset.rows.rows@, all, tables@),
            tables_bounded(tables@),
            rows_before(tables@, tables@.len() as int) == from,
        decreases count - from, 1 - tables@.len(),
    {
        let to: usize = if from < count {
            run_end(from, count)
        } else {
            count
        };
        let run = copy_records(records, from, to);
        assert(record_texts(run@) == run_of(all, tables@.len() as int));
        match key_table(plan, &dataset.rows.rows, &run) {
            Ok(table) => {
                let ghost earlier = tables@;
                tables.push(table);
                proof {
                    assert(record_texts(run@).len() == run@.len());
                    assert forall|i: int| 0 <= i < tables@.len() implies batch_row_count(
                        #[trigger] tables@[i],
                    ) <= TABLE_ROWS by {
                        if i < earlier.len() {
                            assert(tables@[i] == earlier[i]);
                        }
                    }
                    assert forall|i: int| 0 <= i < tables@.len() implies {
                        &&& batch_row_count(#[trigger] tables@[i]) == run_of(all, i).len()
                        &&& batch_columns(tables@[i]) == key_table_columns(
                            dataset.rows.rows@,
                            run_of(all, i),
                            texts(plan.key_columns@),
                            plan.technical_columns,
                        )
                    } by {
                        if i < earlier.len() {
                            assert(tables@[i] == earlier[i]);
                        }
                    }
                    rows_before_agree(earlier, tables@, earlier.len() as int);
                }
            },
            Err(error) => return Err(error),
        }
        from = to;
    }
    Ok(tables)
}

/// What goes into the files of a partition, in tables that can be written at once: the
/// rows that records name where columns were kept, else the keys of these rows.
pub fn partition_tables(
    plan: &PartitionPlan,
    dataset: &InputDataset,
    records: &[RecordPartitionAssignment],
) -> (result: Result<Vec<Table>, Error>)
    requires
        writable(*plan, *dataset, record_texts(records@)),
    ensures
        match result {
            Ok(tables) => {
                &&& are_partition_tables(*plan, *dataset, record_texts(records@), tables@)
                &&& tables_bounded(tables@)
                &&& rows_before(tables@, tables@.len() as int) == records@.len()
                &&& if dataset.batches@.len() > 0 {
                    cursor(
                        dataset.batches@,
                        record_texts(records@),
                        dataset.batches@.len() as int,
                    ) == records@.len()
                } else {
                    plan.key_columns@.len() > 0
                }
            },
            Err(Error::MissingRetainedRow { row_index }) => {
                let end = cursor(
                    dataset.batches@,
                    record_texts(records@),
                    dataset.batches@.len() as int,
                );
                dataset.batches@.len() > 0 && end < records@.len() && row_index
                    == records@[end].row_index
            },
            Err(Error::Arrow(_)) => if dataset.batches@.len() > 0 {
                refuses_part(dataset.batches@, record_texts(records@))
            } else {
                plan.key_columns@.len() == 0
            },
            Err(_) => false,
        },
{
    if dataset.batches.len() > 0 {
        retained_tables(plan, dataset, records)
    } else {
        key_tables(plan, dataset, records)
    }
}

/// What goes into the files of a partition.
#[derive(Debug, PartialEq, Eq)]
pub struct PartitionFile {
    pub partition_id: usize,
    pub records: Vec<RecordPartitionAssignment>,
}

/// `files` holds one entry for each of the first `n` partitions that has records.
pub open spec fn are_files(records: Seq<RecordText>, n: int, files: Seq<PartitionFile>) -> bool {
    &&& files.len() == filled(records, n).len()
    &&& forall|i: int|
        0 <= i < files.len() ==> {
            &&& (#[trigger] files[i]).partition_id == filled(records, n)[i]
            &&& record_texts(files[i].records@) == bucket(records, filled(records, n)[i])
        }
}

/// What is to be written: one entry for each partition that has records, by
/// partition.
pub fn partition_files(
    output_partitions: usize,
    assignments: &PartitionAssignmentSummary,
) -> (files: Vec<PartitionFile>)
    ensures
        are_files(record_texts(assignments.records@), output_partitions as int, files@),
{
    let ghost all = record_texts(assignments.records@);
    let buckets = assignments_by_partition(output_partitions, &assignments.records);
    let mut files: Vec<PartitionFile> = Vec::new();
    let mut p: usize = 0;
    while p < output_partitions
        invariant
            all == record_texts(assignments.records@),
            buckets@.len() == output_partitions,
            p <= output_partitions,
            forall|q: int|
                p <= q < output_partitions ==> record_texts((#[trigger] buckets@[q])@) == bucket(
                    all,
                    q,
                ),
            are_files(all, p as int, files@),
            forall|i: int| 0 <= i < filled(all, p as int).len() ==> 0 <= #[trigger] filled(all, p as int)[i] < p,
        decreases output_partitions - p,
    {
        let ghost before = filled(all, p as int);
        let ghost earlier = files@;
        assert(record_texts(buckets@[p as int]@) == bucket(all, p as int));
        assert(record_texts(buckets@[p as int]@).len() == buckets@[p as int]@.len());
        if buckets[p].len() > 0 {
            let count: usize = buckets[p].len();
            let records = copy_records(&buckets[p], 0, count);
            assert(record_texts(buckets@[p as int]@).subrange(0, count as int) =~= bucket(
                all,
                p as int,
            ));
            files.push(PartitionFile { partition_id: p, records });
        }
        proof {
            let now = filled(all, p + 1);
            assert forall|i: int| 0 <= i < now.len() implies 0 <= #[trigger] now[i] < p + 1 by {
                if i < before.len() {
                    assert(now[i] == before[i]);
                }
            }
            assert forall|i: int| 0 <= i < files@.len() implies {
                &&& (#[trigger] files@[i]).partition_id == now[i]
                &&& record_texts(files@[i].records@) == bucket(all, now[i])
            } by {
                if i < earlier.len() {
                    assert(files@[i] == earlier[i]);
                    assert(now[i] == before[i]);
                }
            }
        }
        p += 1;
    }
    files
}

/// The rows of files.
pub open spec fn file_rows(files: Seq<PartitionFile>) -> nat
    decreases files.len(),
{
    if files.len() == 0 {
        0
    } else {
        file_rows(files.drop_last()) + files.last().records@.len()
    }
}

proof fn file_rows_counted(records: Seq<RecordText>, n: int, files: Seq<PartitionFile>)
    requires
        0 <= n,
        are_files(records, n, files),
    ensures
        file_rows(files) == sum_over(|p: int| partition_count(records, p), n as nat),
    decreases n,
{
    let counts = |p: int| partition_count(records, p);
    if n > 0 {
        let fewer = filled(records, n - 1);
        let now = filled(records, n);
        bucket_counted(records, n - 1);
        assert(counts(n - 1) == partition_count(records, n - 1));
        if bucket(records, n - 1).len() > 0 {
            let rest = files.drop_last();
            let last = files.len() - 1;
            assert forall|i: int| 0 <= i < rest.len() implies {
                &&& (#[trigger] rest[i]).partition_id == fewer[i]
                &&& record_texts(rest[i].records@) == bucket(records, fewer[i])
            } by {
                assert(rest[i] == files[i]);
                assert(fewer[i] == now[i]);
            }
            file_rows_counted(records, n - 1, rest);
            assert(now[last] == n - 1);
            assert(record_texts(files[last].records@) == bucket(records, n - 1));
            assert(record_texts(files[last].records@).len() == files[last].records@.len());
        } else {
            file_rows_counted(records, n - 1, files);
        }
    }
}

/// Every row of a dataset is written, and none twice: the files together have as
/// many records as the dataset has rows.
pub proof fn files_hold_all_rows(
    plan: PartitionPlan,
    keys: Seq<Option<Seq<char>>>,
    files: Seq<PartitionFile>,
)
    requires
        names_partitions(plan),
        are_files(assignments(plan, keys), plan.output_partitions as int, files),
    ensures
        file_rows(files) == keys.len(),
{
    partitions_hold_all_rows(plan, keys);
    file_rows_counted(assignments(plan, keys), plan.output_partitions as int, files);
}

/// The records of a file stand in row order, so that its rows are found.
pub proof fn file_records_ordered(plan: PartitionPlan, keys: Seq<Option<Seq<char>>>, p: int)
    requires
        keys.len() <= usize::MAX,
    ensures
        ascending_rows(bucket(assignments(plan, keys), p)),
        names_rows(bucket(assignments(plan, keys), p), 0, keys.len() as int),
{
    let records = assignments(plan, keys);
    rows_assigned_once(plan, keys);
    assert(names_rows(records, 0, keys.len() as int));
    bucket_names_rows(records, p, 0, keys.len() as int);
    assert forall|j: int, k: int| 0 <= j < k < records.len() implies (
    #[trigger] records[j]).row_index < (#[trigger] records[k]).row_index by {}
    bucket_ordered(records, p);
}

proof fn bucket_ordered(records: Seq<RecordText>, p: int)
    requires
        ascending_rows(records),
    ensures
        ascending_rows(bucket(records, p)),
    decreases records.len(),
{
    reveal(Seq::filter);
    if records.len() > 0 {
        let rest = records.drop_last();
        let keep = |record: RecordText| record.partition_id == p;
        assert forall|j: int, k: int| 0 <= j < k < rest.len() implies (
        #[trigger] rest[j]).row_index < (#[trigger] rest[k]).row_index by {
            assert(rest[j] == records[j] && rest[k] == records[k]);
        }
        bucket_ordered(rest, p);
        let before = bucket(rest, p);
        let after = bucket(records, p);
        if records.last().partition_id == p {
            assert forall|j: int, k: int| 0 <= j < k < after.len() implies (
            #[trigger] after[j]).row_index < (#[trigger] after[k]).row_index by {
                assert(after[j] == before[j]);
                if k < before.len() {
                    assert(after[k] == before[k]);
                } else {
                    assert(before.contains(before[j]));
                    rest.lemma_filter_contains_rev(keep, before[j]);
                    let x = choose|x: int| 0 <= x < rest.len() && rest[x] == before[j];
                    assert(records[x] == before[j]);
                    assert(records[records.len() - 1] == after[k]);
                }
            }
        }
    }
}

/// A part keeps names and values: what stood in a row of the table stands in the
/// row of its record.
pub proof fn part_keeps_cells(
    table: Table,
    records: Seq<RecordText>,
    start: int,
    technical: TechnicalColumns,
    part: Table,
    column: int,
    k: int,
)
    requires
        is_part(table, records, start, technical, part),
        0 <= column < batch_columns(table).len(),
        0 <= k < records.len(),
    ensures
        batch_columns(part)[column].0 == batch_columns(table)[column].0,
        cell_at(part, column, k) == cell_at(table, column, records[k].row_index - start),
{
    assert(batch_columns(part)[column] == chosen_columns(table, records, start)[column]);
}

/// The keys that are read back out of a part are the keys of the rows that went
/// into it.
pub proof fn part_keeps_keys(
    table: Table,
    records: Seq<RecordText>,
    start: int,
    technical: TechnicalColumns,
    part: Table,
    name: Seq<char>,
    k: int,
)
    requires
        is_part(table, records, start, technical, part),
        has_column(table, name),
        0 <= k < records.len(),
    ensures
        key_cell(part, name, k) == key_cell(table, name, records[k].row_index - start),
{
    let index = lowest_column(table, name, 0);
    let names = batch_columns(table);
    assert forall|i: int| 0 <= i < names.len() implies #[trigger] batch_columns(part)[i].0
        == names[i].0 by {
        part_keeps_cells(table, records, start, technical, part, i, k);
    }
    assert(first_column(part, name, index));
    column_of_is(table, name, index);
    column_of_is(part, name, index);
    part_keeps_cells(table, records, start, technical, part, index, k);
}

proof fn lowest_column(table: Table, name: Seq<char>, from: int) -> (index: int)
    requires
        has_column(table, name),
        0 <= from <= batch_columns(table).len(),
        forall|i: int| 0 <= i < from ==> #[trigger] batch_columns(table)[i].0 != name,
    ensures
        first_column(table, name, index),
    decreases batch_columns(table).len() - from,
{
    if from < batch_columns(table).len() && batch_columns(table)[from].0 == name {
        from
    } else {
        let i = choose|i: int|
            0 <= i < batch_columns(table).len() && #[trigger] batch_columns(table)[i].0 == name;
        assert(from < batch_columns(table).len());
        lowest_column(table, name, from + 1)
    }
}

/// Every row goes into the file of its partition.
pub proof fn row_in_its_file(plan: PartitionPlan, keys: Seq<Option<Seq<char>>>, r: int)
    requires
        0 <= r < keys.len(),
    ensures
        bucket(assignments(plan, keys), assignments(plan, keys)[r].partition_id as int).contains(
            assignments(plan, keys)[r],
        ),
{
    broadcast use vstd::seq_lib::group_filter_ensures;
    let records = assignments(plan, keys);
    let p = records[r].partition_id as int;
    let keep = |record: RecordText| record.partition_id == p;
    assert(keep(records[r]));
    assert(records.filter(keep).contains(records[r]));
}

/// In the file of a partition the technical columns name that partition, and a
/// salt exactly in rows of heavy keys.
pub proof fn technical_columns_tell(records: Seq<RecordText>, p: u32, k: int)
    requires
        0 <= k < bucket(records, p as int).len(),
    ensures
        partition_cells(bucket(records, p as int))[k] == CellDatum::Unsigned(p as u64),
        salt_cells(bucket(records, p as int))[k] is Null <==> heavy_cells(
            bucket(records, p as int),
        )[k] == CellDatum::Boolean(false),
{
    let kept = bucket(records, p as int);
    let keep = |record: RecordText| record.partition_id == p;
    assert(kept == records.filter(keep)) by {
        assert(keep =~= (|record: RecordText| record.partition_id == p as int));
    }
    assert(kept.contains(kept[k]));
    records.lemma_filter_pred(keep, k);
}

} // verus!
