//! What is written of a dataset, stated on its files, tables and manifest.

use vstd::prelude::*;
use crate::arith::total;
use crate::dataset::{texts, Row};
use crate::join::{is_join_side, listed_sizes};
use crate::key_encoding::plain_text;
use crate::manifest::{
    JoinSideStatistics, Manifest, OutputFile, PartitionPlan, StatsMetadata, TechnicalColumns,
};
use crate::partitioner::{record_texts, RecordText};
use crate::reader::{rows_before, InputDataset};
use crate::record_batch::{batch_columns, batch_row_count, cell_at, CellDatum, Table};
use crate::rolling::{padded, part_path};
use crate::text::decimal;
use crate::writer::{
    are_files, are_key_tables, are_partition_tables, ascending_rows, bucket, busy, busy_of_runs,
    cursor, cursor_bounds, file_count, filled, is_manifest, is_no_op_manifest, is_part, is_split,
    known_sizes, names_rows, ordered_records_found, part_keeps_cells, run_count, run_cursor, run_of,
    run_start, slice, split_runs, PartitionFile,
};

verus! {

/// A file belongs to a partition.
pub open spec fn belongs_to(p: int) -> spec_fn(OutputFile) -> bool {
    |file: OutputFile| file.partition_id == p
}

/// A file belongs to a partition and has a known size.
pub open spec fn weighs_on(p: int) -> spec_fn(OutputFile) -> bool {
    |file: OutputFile| file.partition_id == p && file.size_bytes is Some
}

/// The sizes of files whose sizes are known.
pub open spec fn weights(files: Seq<OutputFile>) -> Seq<u64> {
    Seq::new(files.len(), |i: int| files[i].size_bytes->0)
}

proof fn counted_files(files: Seq<OutputFile>, p: int)
    ensures
        file_count(files, p) == files.filter(belongs_to(p)).len(),
    decreases files.len(),
{
    reveal(Seq::filter);
    if files.len() > 0 {
        counted_files(files.drop_last(), p);
    }
}

proof fn weighed_files(files: Seq<OutputFile>, p: int)
    ensures
        known_sizes(files, p) == weights(files.filter(weighs_on(p))),
    decreases files.len(),
{
    reveal(Seq::filter);
    if files.len() > 0 {
        let rest = files.drop_last();
        weighed_files(rest, p);
        let kept = rest.filter(weighs_on(p));
        if weighs_on(p)(files.last()) {
            assert(files.filter(weighs_on(p)) == kept.push(files.last()));
            assert(weights(kept.push(files.last())) =~= weights(kept).push(
                files.last().size_bytes->0,
            ));
        } else {
            assert(files.filter(weighs_on(p)) == kept);
        }
    } else {
        assert(weights(files.filter(weighs_on(p))) =~= known_sizes(files, p));
    }
}

/// A manifest lists what was written: for each partition its rows, the number of its
/// files and their size, which adds up what is known and is unknown where nothing is.
pub proof fn manifests_describe_the_files(
    row_counts: Seq<u64>,
    location: Option<String>,
    files: Seq<OutputFile>,
    manifest: Manifest,
    p: int,
)
    requires
        is_manifest(row_counts, location, files, manifest),
        0 <= p < row_counts.len() <= usize::MAX,
        files.len() <= usize::MAX,
        total(weights(files.filter(weighs_on(p)))) <= u64::MAX,
    ensures
        manifest.version@ == "0.2.0"@,
        !manifest.input_reused,
        manifest.dataset_location == location,
        manifest.output_files@ == files,
        manifest.partitions@.len() == row_counts.len(),
        manifest.partitions@[p].partition_id == p,
        manifest.partitions@[p].row_count == row_counts[p],
        manifest.partitions@[p].file_count == files.filter(belongs_to(p)).len(),
        match manifest.partitions@[p].size_bytes {
            Some(bytes) => files.filter(weighs_on(p)).len() > 0 && bytes == total(
                weights(files.filter(weighs_on(p))),
            ),
            None => files.filter(weighs_on(p)).len() == 0,
        },
{
    counted_files(files, p);
    weighed_files(files, p);
    files.lemma_filter_len(belongs_to(p));
}

/// A dataset that stays where it is has no new files: its manifest points to it and
/// lists its partitions as they are.
pub proof fn kept_datasets_have_no_files(sizes: Seq<u64>, path: Seq<char>, manifest: Manifest, p: int)
    requires
        is_no_op_manifest(sizes, path, manifest),
        0 <= p < sizes.len() <= usize::MAX,
    ensures
        manifest.version@ == "0.2.0"@,
        manifest.input_reused,
        manifest.dataset_location is Some,
        manifest.dataset_location->0@ == path,
        manifest.output_files@.len() == 0,
        manifest.partitions@.len() == sizes.len(),
        manifest.partitions@[p].partition_id == p,
        manifest.partitions@[p].row_count == sizes[p],
        manifest.partitions@[p].file_count == 0,
        manifest.partitions@[p].size_bytes is None,
{
}

/// Where technical columns are asked for, a part ends with three: under the names that
/// are asked for they tell the partition of each row, its salt, which only rows of
/// heavy keys have, and whether its key is heavy. Elsewhere a part has the columns of
/// its table alone.
pub proof fn parts_tell_their_records(
    table: Table,
    records: Seq<RecordText>,
    start: int,
    technical: TechnicalColumns,
    part: Table,
    k: int,
)
    requires
        is_part(table, records, start, technical, part),
        0 <= k < records.len(),
        records[k].partition_id <= u32::MAX,
        records[k].salt_index matches Some(salt) ==> salt <= u32::MAX,
    ensures
        ({
            let n = batch_columns(table).len() as int;
            &&& batch_row_count(part) == records.len()
            &&& !technical.included ==> batch_columns(part).len() == n
            &&& technical.included ==> {
                &&& batch_columns(part).len() == n + 3
                &&& batch_columns(part)[n].0 == technical.partition_column@
                &&& batch_columns(part)[n + 1].0 == technical.salt_column@
                &&& batch_columns(part)[n + 2].0 == technical.heavy_key_column@
                &&& cell_at(part, n, k) matches CellDatum::Unsigned(id) && id
                    == records[k].partition_id
                &&& match records[k].salt_index {
                    Some(salt) => {
                        &&& cell_at(part, n + 1, k) matches CellDatum::Unsigned(s) && s == salt
                        &&& cell_at(part, n + 2, k) == CellDatum::Boolean(true)
                    },
                    None => {
                        &&& cell_at(part, n + 1, k) == CellDatum::Null
                        &&& cell_at(part, n + 2, k) == CellDatum::Boolean(false)
                    },
                }
            }
        }),
{
}

/// Where only keys were kept, a table holds them: under the name of each key column the
/// text of its value in the row of the record, or null where it is null or not there.
pub proof fn key_tables_hold_the_keys(
    plan: PartitionPlan,
    rows: Seq<Row>,
    records: Seq<RecordText>,
    tables: Seq<Table>,
    r: int,
    k: int,
    c: int,
)
    requires
        are_key_tables(plan, rows, records, tables),
        0 <= r < tables.len(),
        0 <= k < 1024,
        r * 1024 + k < records.len(),
        0 <= c < plan.key_columns@.len(),
    ensures
        ({
            let name = plan.key_columns@[c]@;
            let row = records[r * 1024 + k].row_index as int;
            &&& k < batch_row_count(tables[r])
            &&& batch_columns(tables[r])[c].0 == name
            &&& cell_at(tables[r], c, k) == if row < rows.len() && rows[row]@.contains_key(name) {
                match plain_text(rows[row]@[name]@) {
                    Some(text) => CellDatum::Text(text),
                    None => CellDatum::Null,
                }
            } else {
                CellDatum::Null
            }
        }),
{
    let run = run_of(records, r);
    run_is_a_slice(records, r, k);
    assert(run[k] == records[r * 1024 + k]);
    assert(batch_row_count(tables[r]) == run.len());
    assert(texts(plan.key_columns@)[c] == plan.key_columns@[c]@);
}

proof fn run_is_a_slice(records: Seq<RecordText>, r: int, k: int)
    requires
        0 <= r,
        0 <= k < 1024,
        r * 1024 + k < records.len(),
    ensures
        run_of(records, r).len() <= 1024,
        k < run_of(records, r).len(),
        run_of(records, r)[k] == records[r * 1024 + k],
        r < run_count(records.len()),
{
    assert((r + 1) * 1024 == r * 1024 + 1024);
}

/// Records go into runs of 1024, one after the other: each record stands in one run, at
/// one place.
pub proof fn runs_hold_their_records(records: Seq<RecordText>, j: int)
    requires
        0 <= j < records.len(),
    ensures
        0 <= j / 1024 < run_count(records.len()),
        j % 1024 < run_of(records, j / 1024).len() <= 1024,
        run_of(records, j / 1024)[j % 1024] == records[j],
{
    run_is_a_slice(records, j / 1024, j % 1024);
}

proof fn filled_holds(records: Seq<RecordText>, n: int)
    requires
        0 <= n,
    ensures
        forall|i: int|
            0 <= i < filled(records, n).len() ==> 0 <= #[trigger] filled(records, n)[i] < n,
        forall|i: int, j: int|
            0 <= i < j < filled(records, n).len() ==> #[trigger] filled(records, n)[i]
                < #[trigger] filled(records, n)[j],
        forall|p: int|
            0 <= p < n ==> (bucket(records, p).len() > 0 <==> #[trigger] filled(
                records,
                n,
            ).contains(p)),
    decreases n,
{
    if n > 0 {
        filled_holds(records, n - 1);
        let before = filled(records, n - 1);
        let now = filled(records, n);
        assert forall|p: int| 0 <= p < n implies (bucket(records, p).len() > 0
            <==> #[trigger] now.contains(p)) by {
            if p < n - 1 {
                assert(before.contains(p) <==> bucket(records, p).len() > 0);
                if before.contains(p) {
                    let i = choose|i: int| 0 <= i < before.len() && before[i] == p;
                    assert(now[i] == p);
                }
                if now.contains(p) {
                    let i = choose|i: int| 0 <= i < now.len() && now[i] == p;
                    assert(i < before.len() && before[i] == p);
                }
            } else {
                if bucket(records, p).len() > 0 {
                    assert(now[now.len() - 1] == p);
                }
                if now.contains(p) {
                    let i = choose|i: int| 0 <= i < now.len() && now[i] == p;
                    if now == before {
                        assert(before[i] < n - 1);
                    }
                }
            }
        }
    }
}

/// Each partition with records has one entry of what is to be written, in the order of
/// the partitions; the entry holds the records of its partition and no others, in
/// their order.
pub proof fn entries_hold_their_partition(records: Seq<RecordText>, n: int, files: Seq<PartitionFile>)
    requires
        0 <= n,
        are_files(records, n, files),
    ensures
        forall|i: int| 0 <= i < files.len() ==> (#[trigger] files[i]).partition_id < n,
        forall|i: int, j: int|
            0 <= i < j < files.len() ==> (#[trigger] files[i]).partition_id < (
            #[trigger] files[j]).partition_id,
        forall|i: int|
            #![trigger files[i]]
            0 <= i < files.len() ==> record_texts(files[i].records@) == records.filter(
                |record: RecordText| record.partition_id == files[i].partition_id,
            ),
        forall|k: int|
            #![trigger records[k]]
            0 <= k < records.len() && records[k].partition_id < n ==> exists|i: int|
                0 <= i < files.len() && (#[trigger] files[i]).partition_id
                    == records[k].partition_id,
{
    filled_holds(records, n);
    let ids = filled(records, n);
    assert forall|i: int|
        #![trigger files[i]]
        0 <= i < files.len() implies files[i].partition_id == ids[i] && record_texts(
        files[i].records@,
    ) == records.filter(|record: RecordText| record.partition_id == files[i].partition_id) by {
        assert(bucket(records, ids[i]) == records.filter(
            |record: RecordText| record.partition_id == files[i].partition_id,
        )) by {
            let kept = |record: RecordText| record.partition_id == ids[i];
            let same = |record: RecordText| record.partition_id == files[i].partition_id;
            assert(kept =~= same);
        }
    }
    assert forall|k: int|
        #![trigger records[k]]
        0 <= k < records.len() && records[k].partition_id < n implies exists|i: int|
        0 <= i < files.len() && (#[trigger] files[i]).partition_id == records[k].partition_id by {
        let p = records[k].partition_id as int;
        let keep = |record: RecordText| record.partition_id == p;
        records.lemma_filter_contains(keep, k);
        assert(bucket(records, p).len() > 0);
        assert(ids.contains(p));
        let i = choose|i: int| 0 <= i < ids.len() && ids[i] == p;
        assert(files[i].partition_id == p);
    }
}

proof fn split_runs_hold(records: Seq<RecordText>, n: int, p: int, r: int) -> (i: int)
    requires
        0 <= p < n,
        0 <= r < run_count(bucket(records, p).len()),
    ensures
        0 <= i < split_runs(records, n).len(),
        split_runs(records, n)[i] == (p, r),
    decreases n,
{
    let before = split_runs(records, n - 1);
    if p < n - 1 {
        split_runs_hold(records, n - 1, p, r)
    } else {
        before.len() + r
    }
}

/// A table that is split loses no row: each row that a record sends to one of the
/// partitions stands in a part of that partition, with all its cells, and no part has
/// more than 1024 rows.
pub proof fn split_tables_lose_no_row(
    table: Table,
    records: Seq<RecordText>,
    start: int,
    technical: TechnicalColumns,
    n: int,
    parts: Seq<(usize, Table)>,
    j: int,
) -> (place: (int, int))
    requires
        is_split(table, records, start, technical, n, parts),
        0 <= j < records.len(),
        records[j].partition_id < n,
    ensures
        0 <= place.0 < parts.len(),
        parts[place.0].0 == records[j].partition_id,
        0 <= place.1 < batch_row_count(parts[place.0].1) <= 1024,
        forall|c: int|
            0 <= c < batch_columns(table).len() ==> batch_columns(parts[place.0].1)[c].0
                == batch_columns(table)[c].0 && #[trigger] cell_at(parts[place.0].1, c, place.1)
                == cell_at(table, c, records[j].row_index - start),
{
    let p = records[j].partition_id as int;
    let mine = bucket(records, p);
    let keep = |record: RecordText| record.partition_id == p;
    records.lemma_filter_contains(keep, j);
    let at = choose|at: int| 0 <= at < mine.len() && mine[at] == records[j];
    runs_hold_their_records(mine, at);
    let i = split_runs_hold(records, n, p, at / 1024);
    let run = run_of(mine, at / 1024);
    assert(is_part(table, run, start, technical, parts[i].1)) by {
        assert(parts[i].0 == split_runs(records, n)[i].0);
    }
    assert forall|c: int| 0 <= c < batch_columns(table).len() implies batch_columns(
        parts[i].1,
    )[c].0 == batch_columns(table)[c].0 && #[trigger] cell_at(parts[i].1, c, at % 1024) == cell_at(
        table,
        c,
        records[j].row_index - start,
    ) by {
        part_keeps_cells(table, run, start, technical, parts[i].1, c, at % 1024);
    }
    (i, at % 1024)
}

proof fn table_of_record(tables: Seq<Table>, records: Seq<RecordText>, m: int, j: int) -> (b: int)
    requires
        0 <= m <= tables.len(),
        0 <= j < cursor(tables, records, m),
    ensures
        0 <= b < m,
        cursor(tables, records, b) <= j < cursor(tables, records, b + 1),
    decreases m,
{
    if j < cursor(tables, records, m - 1) {
        table_of_record(tables, records, m - 1, j)
    } else {
        m - 1
    }
}

proof fn busy_tables_hold(tables: Seq<Table>, records: Seq<RecordText>, m: int, b: int) -> (i: int)
    requires
        0 <= b < m,
        cursor(tables, records, b) < cursor(tables, records, b + 1),
    ensures
        0 <= i < busy(tables, records, m).len(),
        busy(tables, records, m)[i] == b,
    decreases m,
{
    if b < m - 1 {
        busy_tables_hold(tables, records, m - 1, b)
    } else {
        busy(tables, records, m - 1).len() as int
    }
}

proof fn busy_runs_hold(
    tables: Seq<Table>,
    records: Seq<RecordText>,
    runs: int,
    r: int,
    i: int,
) -> (place: int)
    requires
        0 <= r < runs,
        0 <= i < busy(tables, run_of(records, r), tables.len() as int).len(),
    ensures
        0 <= place < busy_of_runs(tables, records, runs).len(),
        busy_of_runs(tables, records, runs)[place] == (
            r,
            busy(tables, run_of(records, r), tables.len() as int)[i],
        ),
    decreases runs,
{
    if r < runs - 1 {
        busy_runs_hold(tables, records, runs - 1, r, i)
    } else {
        busy_of_runs(tables, records, runs - 1).len() + i
    }
}

/// Where columns were kept, no row of a partition is lost: the row that a record names,
/// counted over the tables one after the other, stands in a part with all its cells.
pub proof fn kept_tables_lose_no_row(
    plan: PartitionPlan,
    dataset: InputDataset,
    records: Seq<RecordText>,
    parts: Seq<Table>,
    j: int,
) -> (place: (int, int, int))
    requires
        dataset.batches@.len() > 0,
        are_partition_tables(plan, dataset, records, parts),
        ascending_rows(records),
        names_rows(records, 0, rows_before(dataset.batches@, dataset.batches@.len() as int) as int),
        0 <= j < records.len(),
    ensures
        ({
            let (i, k, b) = place;
            let tables = dataset.batches@;
            let row = records[j].row_index - rows_before(tables, b);
            &&& 0 <= i < parts.len()
            &&& 0 <= k < batch_row_count(parts[i])
            &&& 0 <= b < tables.len()
            &&& 0 <= row < batch_row_count(tables[b])
            &&& forall|c: int|
                0 <= c < batch_columns(tables[b]).len() ==> batch_columns(parts[i])[c].0
                    == batch_columns(tables[b])[c].0 && #[trigger] cell_at(parts[i], c, k) == cell_at(
                    tables[b],
                    c,
                    row,
                )
        }),
{
    let tables = dataset.batches@;
    let last = tables.len() as int;
    ordered_records_found(tables, records);
    runs_hold_their_records(records, j);
    let r = j / 1024;
    let at = j % 1024;
    let from = run_start(records.len(), r);
    let to = run_start(records.len(), r + 1);
    let run = run_of(records, r);
    run_cursor(tables, records, from, to, last);
    assert(cursor(tables, run, last) == run.len());
    let b = table_of_record(tables, run, last, at);
    run_cursor(tables, records, from, to, b);
    run_cursor(tables, records, from, to, b + 1);
    cursor_bounds(tables, run, b);
    cursor_bounds(tables, run, b + 1);
    let i = busy_tables_hold(tables, run, last, b);
    let place = busy_runs_hold(tables, records, run_count(records.len()) as int, r, i);
    let mine = slice(tables, run, b);
    let k = at - cursor(tables, run, b);
    assert(mine[k] == records[j]);
    assert(is_part(
        tables[b],
        mine,
        rows_before(tables, b) as int,
        plan.technical_columns,
        parts[place],
    ));
    cursor_bounds(tables, records, b);
    cursor_bounds(tables, records, b + 1);
    assert(cursor(tables, records, b) <= j < cursor(tables, records, b + 1));
    assert(rows_before(tables, b) <= records[j].row_index);
    assert(records[j].row_index < rows_before(tables, b + 1));
    assert forall|c: int| 0 <= c < batch_columns(tables[b]).len() implies batch_columns(
        parts[place],
    )[c].0 == batch_columns(tables[b])[c].0 && #[trigger] cell_at(parts[place], c, k) == cell_at(
        tables[b],
        c,
        records[j].row_index - rows_before(tables, b),
    ) by {
        part_keeps_cells(
            tables[b],
            mine,
            rows_before(tables, b) as int,
            plan.technical_columns,
            parts[place],
            c,
            k,
        );
    }
    (place, k, b)
}

/// A side of a join repeats the statistics of its dataset: its rows, the size of its
/// files where they hold anything, and its heavy keys.
pub proof fn join_sides_repeat_their_statistics(stats: StatsMetadata, side: JoinSideStatistics)
    requires
        is_join_side(stats, side),
        total(listed_sizes(stats.input.input_files@)) <= u64::MAX,
    ensures
        side.total_rows == stats.input.total_rows,
        side.estimated_size_mb == stats.resources.estimated_dataset_size_mb,
        match side.total_size_bytes {
            Some(bytes) => bytes > 0 && bytes == total(
                Seq::new(
                    stats.input.input_files@.len(),
                    |i: int| stats.input.input_files@[i].size_bytes,
                ),
            ),
            None => total(
                Seq::new(
                    stats.input.input_files@.len(),
                    |i: int| stats.input.input_files@[i].size_bytes,
                ),
            ) == 0,
        },
        side.heavy_keys@.len() == stats.input.heavy_hitters@.len(),
        forall|i: int|
            0 <= i < side.heavy_keys@.len() ==> (#[trigger] side.heavy_keys@[i])@
                == stats.input.heavy_hitters@[i].key@,
{
    assert(listed_sizes(stats.input.input_files@) =~= Seq::new(
        stats.input.input_files@.len(),
        |i: int| stats.input.input_files@[i].size_bytes,
    ));
    assert(texts(side.heavy_keys@).len() == side.heavy_keys@.len());
    assert forall|i: int| 0 <= i < side.heavy_keys@.len() implies (
    #[trigger] side.heavy_keys@[i])@ == stats.input.heavy_hitters@[i].key@ by {
        assert(texts(side.heavy_keys@)[i] == side.heavy_keys@[i]@);
    }
}

/// The path of a file names its partition and its number, which has five places at
/// least: the first file of a partition has the number of the partition, the next file
/// the next number.
pub proof fn paths_name_partition_and_number(id: nat, part: nat)
    ensures
        ({
            let head = "rp_partition="@ + decimal(id) + "/part-"@;
            let number = decimal(id + part);
            let places = if number.len() < 5 {
                5int
            } else {
                number.len() as int
            };
            let path = part_path(id, part);
            let end = head.len() + places;
            &&& path.take(head.len() as int) == head
            &&& path.subrange(end - number.len(), end) == number
            &&& forall|i: int| head.len() <= i < end - number.len() ==> #[trigger] path[i] == '0'
            &&& path.skip(end) == ".parquet"@
        }),
{
    let head = "rp_partition="@ + decimal(id) + "/part-"@;
    let number = decimal(id + part);
    let path = part_path(id, part);
    let end = head.len() + padded(id + part).len() as int;
    assert(path.take(head.len() as int) =~= head);
    assert(path.subrange(end - number.len(), end) =~= number);
    assert(path.skip(end) =~= ".parquet"@);
}

} // verus!
