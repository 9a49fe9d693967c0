//! What the statistics of a dataset say, stated on its rows and files.

use vstd::prelude::*;
use crate::arith::{largest, largest_bounds, total};
use crate::binary64::{count_exceeds, mean_value};
use crate::config::{Config, HeavyHitterMode};
use crate::dataset::{row_key, row_keys, texts, Row};
use crate::hashing::key_hash;
use crate::heavy_guarantees::candidates_are_above_the_mean;
use crate::heavy_hitters::{
    candidates, heavy_keys_of, occurrences, pair_values, space_saving_guarantees, space_saving_of,
    victim, victim_exists, HeavyHitterText,
};
use crate::key_encoding::{datum_type, plain_text, KeyValue};
use crate::keymap::{as_map_len, sorted_by_key};
use crate::manifest::{
    heavy_plan_texts, HeavyKeyPlanText, HeavyKeyReason, PartitionPlan, PlanKeyPartText, PlanKeyText,
    StatsMetadata,
};
use crate::planner::{is_plan, plan_rows, structured_in};
use crate::reader::InputFile;
use crate::rounding::{close, recorded_means_are_close, value};
use crate::statistics::{
    count_above, count_below, exceeds_memory, file_sizes, hashed_count, is_statistics,
    key_part_texts, placeholder, placeholders, plan_key_from_any_row, plan_key_of, present_keys,
    row_has_key, row_width, smallest,
};
use crate::targeting::target_rows;
use crate::text::{decimal, text_less, text_less_total};

verus! {

/// A row has a key exactly if it has a value in each key column.
pub proof fn rows_need_every_key_column(values: Map<Seq<char>, KeyValue>, columns: Seq<Seq<char>>)
    ensures
        row_key(values, columns) is Some <==> forall|i: int|
            0 <= i < columns.len() ==> values.contains_key(#[trigger] columns[i]),
{
}

proof fn present_are_counted(keys: Seq<Option<Seq<char>>>, key: Seq<char>)
    ensures
        occurrences(keys.filter_map(|k: Option<Seq<char>>| k), key) == keys.to_multiset().count(
            Some(key),
        ),
        keys.filter_map(|k: Option<Seq<char>>| k).len() == keys.filter(
            |k: Option<Seq<char>>| k is Some,
        ).len(),
    decreases keys.len(),
{
    broadcast use vstd::seq_lib::group_to_multiset_ensures;

    let f = |k: Option<Seq<char>>| k;
    reveal(Seq::filter_map);
    reveal(Seq::filter);
    keys.to_multiset_ensures();
    if keys.len() > 0 {
        let n = keys.len() - 1;
        let rest = keys.drop_last();
        present_are_counted(rest, key);
        rest.to_multiset_ensures();
        assert(keys =~= rest.push(keys.last()));
        keys.lemma_filter_map_take_succ(f, n);
        assert(keys.take(n) =~= rest);
        assert(keys.take(n + 1) =~= keys);
        if keys.last() is Some {
            assert(keys.filter_map(f).drop_last() =~= rest.filter_map(f));
        }
    }
}

/// Where all keys are counted, each key has as its frequency the number of rows that
/// have it, and the keys are those that rows have.
pub proof fn frequencies_count_rows(
    config: Config,
    files: Seq<InputFile>,
    rows: Seq<Row>,
    stats: StatsMetadata,
    key: Seq<char>,
)
    requires
        is_statistics(config, files, rows, stats),
        config.statistics.heavy_hitter_mode == HeavyHitterMode::Exact,
        rows.len() <= u64::MAX,
    ensures
        ({
            let keys = row_keys(rows, texts(config.partitioning.key_columns@));
            let count = keys.to_multiset().count(Some(key));
            &&& stats.input.total_rows == rows.len()
            &&& stats.input.key_frequencies@.contains_key(key) <==> count > 0
            &&& stats.input.key_frequencies@.contains_key(key) ==> stats.input.key_frequencies@[key]
                == count
        }),
        sorted_by_key(stats.input.key_frequencies.pairs()) ==> stats.input.distinct_keys == Some(
            stats.input.key_frequencies@.dom().len() as u64,
        ),
        stats.heavy_hitter_detection.key_frequencies_exact,
        stats.heavy_hitter_detection.normal_keys_materialized,
        !stats.heavy_hitter_detection.key_frequencies_truncated,
{
    let keys = row_keys(rows, texts(config.partitioning.key_columns@));
    present_are_counted(keys, key);
    crate::statistics::occurrences_bounded(
        present_keys(rows, texts(config.partitioning.key_columns@)),
        key,
    );
    keys.to_multiset_ensures();
    present_bounded(keys);
    if sorted_by_key(stats.input.key_frequencies.pairs()) {
        as_map_len(stats.input.key_frequencies.pairs());
    }
}

proof fn present_bounded(keys: Seq<Option<Seq<char>>>)
    ensures
        keys.filter_map(|k: Option<Seq<char>>| k).len() <= keys.len(),
    decreases keys.len(),
{
    let f = |k: Option<Seq<char>>| k;
    reveal(Seq::filter_map);
    if keys.len() > 0 {
        let n = keys.len() - 1;
        present_bounded(keys.drop_last());
        keys.lemma_filter_map_take_succ(f, n);
        assert(keys.take(n) =~= keys.drop_last());
        assert(keys.take(n + 1) =~= keys);
    }
}

/// A bounded summary says how far it may be off: the frequency of a key that it holds is
/// not below the number of its rows and at most that far above it, and a key that it
/// does not hold has no more rows than that. The summary holds no more keys than its
/// capacity, and is marked as incomplete.
pub proof fn bounded_summaries_state_their_error(
    config: Config,
    files: Seq<InputFile>,
    rows: Seq<Row>,
    stats: StatsMetadata,
)
    requires
        is_statistics(config, files, rows, stats),
        config.statistics.heavy_hitter_mode == HeavyHitterMode::Approximate,
        config.statistics.approximate_capacity@ > 0,
        rows.len() < u64::MAX,
    ensures
        exists|error: nat|
            stats.heavy_hitter_detection.error_bound@ == "space_saving_max_overestimate="@
                + #[trigger] decimal(error) && forall|key: Seq<char>|
                {
                    let count = row_keys(
                        rows,
                        texts(config.partitioning.key_columns@),
                    ).to_multiset().count(Some(key));
                    if #[trigger] stats.input.key_frequencies@.contains_key(key) {
                        count <= stats.input.key_frequencies@[key] <= count + error
                    } else {
                        count <= error
                    }
                },
        stats.input.key_frequencies@.dom().len() <= config.statistics.approximate_capacity@,
        stats.input.distinct_keys is None,
        !stats.heavy_hitter_detection.key_frequencies_exact,
        !stats.heavy_hitter_detection.normal_keys_materialized,
        stats.heavy_hitter_detection.key_frequencies_truncated,
{
    let keys = row_keys(rows, texts(config.partitioning.key_columns@));
    let present = present_keys(rows, texts(config.partitioning.key_columns@));
    let capacity = config.statistics.approximate_capacity@ as nat;
    present_bounded(keys);
    space_saving_guarantees(present, capacity);
    let error = space_saving_of(present, capacity).max_error;
    assert forall|key: Seq<char>| {
        let count = keys.to_multiset().count(Some(key));
        if #[trigger] stats.input.key_frequencies@.contains_key(key) {
            count <= stats.input.key_frequencies@[key] <= count + error
        } else {
            count <= error
        }
    } by {
        present_are_counted(keys, key);
    }
    assert(stats.heavy_hitter_detection.error_bound@ == "space_saving_max_overestimate="@ + decimal(
        error,
    ));
}

/// A key goes to a partition by its hash.
pub open spec fn hashes_to(key: Option<Seq<char>>, seed: u64, n: int, p: int) -> bool {
    key matches Some(text) && (key_hash(seed, text) as usize) as int % n == p
}

proof fn hashed_are_filtered(keys: Seq<Option<Seq<char>>>, n: usize, seed: u64, p: int)
    requires
        n > 0,
    ensures
        hashed_count(keys.filter_map(|k: Option<Seq<char>>| k), n, seed, p) == keys.filter(
            |k: Option<Seq<char>>| hashes_to(k, seed, n as int, p),
        ).len(),
    decreases keys.len(),
{
    let f = |k: Option<Seq<char>>| k;
    reveal(Seq::filter_map);
    reveal(Seq::filter);
    if keys.len() > 0 {
        let last = keys.len() - 1;
        let rest = keys.drop_last();
        hashed_are_filtered(rest, n, seed, p);
        keys.lemma_filter_map_take_succ(f, last);
        assert(keys.take(last) =~= rest);
        assert(keys.take(last + 1) =~= keys);
        if keys.last() is Some {
            assert(keys.filter_map(f).drop_last() =~= rest.filter_map(f));
        }
    }
}

/// The sizes before are those that hashing alone gives: each partition has the rows whose
/// key hashes to it. The skew is that of these sizes.
pub proof fn sizes_before_are_hashed(
    config: Config,
    files: Seq<InputFile>,
    rows: Seq<Row>,
    stats: StatsMetadata,
    p: int,
)
    requires
        is_statistics(config, files, rows, stats),
        rows.len() <= u64::MAX,
        0 <= p < stats.estimates.target_partitions,
    ensures
        stats.estimates.before_partition_sizes@.len() == stats.estimates.target_partitions,
        stats.estimates.before_partition_sizes@[p] == row_keys(
            rows,
            texts(config.partitioning.key_columns@),
        ).filter(
            |k: Option<Seq<char>>|
                hashes_to(
                    k,
                    config.partitioning.seed,
                    stats.estimates.target_partitions as int,
                    p,
                ),
        ).len(),
        stats.skew.max_partition_size >= stats.estimates.before_partition_sizes@[p],
        stats.estimates.before_partition_sizes@.contains(stats.skew.max_partition_size),
        crate::skew::is_skew(stats.estimates.before_partition_sizes@, stats.skew),
{
    let keys = row_keys(rows, texts(config.partitioning.key_columns@));
    let present = present_keys(rows, texts(config.partitioning.key_columns@));
    let n = stats.estimates.target_partitions;
    hashed_are_filtered(keys, n, config.partitioning.seed, p);
    present_bounded(keys);
    crate::statistics::hashed_count_bounded(present, n, config.partitioning.seed, p);
    largest_bounds(stats.estimates.before_partition_sizes@);
}

proof fn below_are_filtered(numbers: Seq<u64>, limit: u64)
    ensures
        count_below(numbers, limit) == numbers.filter(|x: u64| x < limit).len(),
        count_above(numbers, limit) == numbers.filter(|x: u64| x > limit).len(),
    decreases numbers.len(),
{
    reveal(Seq::filter);
    if numbers.len() > 0 {
        below_are_filtered(numbers.drop_last(), limit);
    }
}

proof fn smallest_bounds(numbers: Seq<u64>)
    requires
        numbers.len() > 0,
    ensures
        forall|i: int| 0 <= i < numbers.len() ==> smallest(numbers) <= #[trigger] numbers[i],
        numbers.contains(smallest(numbers)),
    decreases numbers.len(),
{
    if numbers.len() > 1 {
        let rest = numbers.drop_last();
        smallest_bounds(rest);
        assert forall|i: int| 0 <= i < numbers.len() implies smallest(numbers)
            <= #[trigger] numbers[i] by {
            if i < rest.len() {
                assert(rest[i] == numbers[i]);
            }
        }
        if smallest(rest) < numbers.last() {
            let j = choose|j: int| 0 <= j < rest.len() && rest[j] == smallest(rest);
            assert(numbers[j] == smallest(numbers));
        } else {
            assert(numbers[numbers.len() - 1] == smallest(numbers));
        }
    } else {
        assert(numbers[0] == smallest(numbers));
    }
}

/// The statistics of the files: each is listed, the smallest and the largest are such,
/// and files count as small below the one limit and as oversized above the other.
pub proof fn file_statistics_describe_the_files(
    config: Config,
    files: Seq<InputFile>,
    rows: Seq<Row>,
    stats: StatsMetadata,
)
    requires
        is_statistics(config, files, rows, stats),
    ensures
        ({
            let sizes = Seq::new(files.len(), |i: int| files[i].size_bytes);
            let input = stats.input;
            let small = config.storage.min_file_size_mb@ * 1_048_576;
            let large = config.storage.target_file_size_mb@ * 1_048_576;
            &&& input.input_file_count == files.len()
            &&& input.input_files@.len() == files.len()
            &&& forall|i: int|
                0 <= i < files.len() ==> (#[trigger] input.input_files@[i]).path@ == files[i].path@
                    && input.input_files@[i].size_bytes == files[i].size_bytes
            &&& input.min_file_size_bytes is Some <==> files.len() > 0
            &&& input.max_file_size_bytes is Some <==> files.len() > 0
            &&& files.len() > 0 ==> sizes.contains(input.min_file_size_bytes->0) && sizes.contains(
                input.max_file_size_bytes->0,
            )
            &&& forall|i: int|
                0 <= i < files.len() ==> input.min_file_size_bytes->0 <= (
                #[trigger] files[i]).size_bytes <= input.max_file_size_bytes->0
            &&& small <= u64::MAX ==> input.small_file_count == sizes.filter(
                |x: u64| x < small,
            ).len()
            &&& large <= u64::MAX ==> input.oversized_file_count == sizes.filter(
                |x: u64| x > large,
            ).len()
            &&& large <= u64::MAX ==> stats.storage.target_file_size_bytes == large
            &&& small <= u64::MAX ==> stats.storage.min_file_size_bytes == small
        }),
{
    let sizes = Seq::new(files.len(), |i: int| files[i].size_bytes);
    assert(sizes =~= file_sizes(files));
    let small = config.storage.min_file_size_mb@ * 1_048_576;
    let large = config.storage.target_file_size_mb@ * 1_048_576;
    if small <= u64::MAX {
        below_are_filtered(sizes, small as u64);
        assert((|x: u64| x < small as u64) =~= (|x: u64| x < small));
    }
    if large <= u64::MAX {
        below_are_filtered(sizes, large as u64);
        assert((|x: u64| x > large as u64) =~= (|x: u64| x > large));
    }
    if files.len() > 0 {
        smallest_bounds(sizes);
        largest_bounds(sizes);
        assert forall|i: int| 0 <= i < files.len() implies stats.input.min_file_size_bytes->0 <= (
        #[trigger] files[i]).size_bytes <= stats.input.max_file_size_bytes->0 by {
            assert(sizes[i] == files[i].size_bytes);
        }
    }
}

/// The width of a row is the least with which the rows hold all bytes of the files; it is
/// unknown exactly without rows or bytes.
pub proof fn row_width_covers_the_files(files: Seq<InputFile>, rows: nat)
    requires
        total(Seq::new(files.len(), |i: int| files[i].size_bytes)) <= u64::MAX,
    ensures
        ({
            let bytes = total(Seq::new(files.len(), |i: int| files[i].size_bytes));
            &&& row_width(files, rows) is Some <==> rows > 0 && bytes > 0
            &&& row_width(files, rows) matches Some(width) ==> {
                &&& width * rows >= bytes
                &&& (width - 1) * rows < bytes
                &&& width > 0
            }
        }),
{
    let sizes = Seq::new(files.len(), |i: int| files[i].size_bytes);
    assert(sizes =~= file_sizes(files));
    let bytes = total(sizes) as int;
    let r = rows as int;
    if rows > 0 && bytes > 0 {
        let q = (bytes + r - 1) / r;
        assert(q * r >= bytes && (q - 1) * r < bytes && 1 <= q <= bytes) by (nonlinear_arith)
            requires
                q == (bytes + r - 1) / r,
                bytes > 0,
                r > 0,
        ;
    }
}

/// A dataset exceeds the memory limit exactly if its files hold more bytes than the limit
/// has. Statistics of one that does carry a warning, and no other has one; where the
/// configuration is strict there are none.
pub proof fn memory_limit_counts_bytes(
    config: Config,
    files: Seq<InputFile>,
    rows: Seq<Row>,
    stats: StatsMetadata,
)
    requires
        total(Seq::new(files.len(), |i: int| files[i].size_bytes)) <= u64::MAX,
        is_statistics(config, files, rows, stats),
    ensures
        ({
            let bytes = total(Seq::new(files.len(), |i: int| files[i].size_bytes));
            let limit = config.resources.memory_limit_mb * 1_048_576;
            &&& stats.resources.memory_limit_exceeded <==> bytes > limit
            &&& exceeds_memory(config, files) <==> bytes > limit
            &&& bytes > limit ==> stats.resources.warnings@.len() == 1
                && stats.resources.warnings@[0]@
                == "estimated_dataset_size_exceeds_configured_memory_limit"@
            &&& bytes <= limit ==> stats.resources.warnings@.len() == 0
            &&& stats.resources.configured_memory_limit_mb == config.resources.memory_limit_mb
            &&& stats.resources.estimated_dataset_size_mb is Some <==> bytes > 0
            &&& stats.resources.estimated_dataset_size_mb matches Some(mb) ==> mb * 1_048_576
                >= bytes && (mb - 1) * 1_048_576 < bytes
        }),
{
    let sizes = Seq::new(files.len(), |i: int| files[i].size_bytes);
    assert(sizes =~= file_sizes(files));
    let warnings = texts(stats.resources.warnings@);
    assert(warnings.len() == stats.resources.warnings@.len());
    if warnings.len() > 0 {
        assert(warnings[0] == stats.resources.warnings@[0]@);
    }
}

/// The largest frequency is that of a key, and no key has a larger one.
pub proof fn largest_frequency_is_a_keys(
    config: Config,
    files: Seq<InputFile>,
    rows: Seq<Row>,
    stats: StatsMetadata,
)
    requires
        is_statistics(config, files, rows, stats),
    ensures
        forall|i: int|
            0 <= i < stats.input.key_frequencies.pairs().len() ==> (
            #[trigger] stats.input.key_frequencies.pairs()[i]).1 <= stats.input.max_key_frequency,
        stats.input.key_frequencies.pairs().len() > 0 ==> exists|i: int|
            0 <= i < stats.input.key_frequencies.pairs().len() && (
            #[trigger] stats.input.key_frequencies.pairs()[i]).1 == stats.input.max_key_frequency,
        stats.input.key_frequencies.pairs().len() == 0 ==> stats.input.max_key_frequency == 0,
{
    let pairs = stats.input.key_frequencies.pairs();
    let values = pair_values(pairs);
    largest_bounds(values);
    assert forall|i: int| 0 <= i < pairs.len() implies (#[trigger] pairs[i]).1
        <= stats.input.max_key_frequency by {
        assert(values[i] == pairs[i].1);
    }
    if pairs.len() > 0 {
        let i = choose|i: int| 0 <= i < values.len() && values[i] == largest(values);
        assert(pairs[i].1 == stats.input.max_key_frequency);
    }
}

/// A heavy key tells its values as they stand in the rows that have it: column by
/// column, with their types.
pub proof fn heavy_keys_tell_their_values(
    config: Config,
    files: Seq<InputFile>,
    rows: Seq<Row>,
    stats: StatsMetadata,
    j: int,
    r: int,
)
    requires
        is_statistics(config, files, rows, stats),
        0 <= j < stats.input.heavy_hitters@.len(),
        0 <= r < rows.len(),
        row_key(rows[r]@, texts(config.partitioning.key_columns@)) == Some(
            stats.input.heavy_hitters@[j].key@,
        ),
    ensures
        ({
            let heavy = stats.input.heavy_hitters@[j];
            let columns = config.partitioning.key_columns@;
            &&& heavy.structured_key is Some
            &&& heavy.structured_key->0.encoded@ == heavy.key@
            &&& heavy.structured_key->0.parts@.len() == columns.len()
            &&& forall|c: int|
                #![trigger columns[c]]
                0 <= c < columns.len() ==> {
                    let part = heavy.structured_key->0.parts@[c];
                    let value = rows[r]@[columns[c]@]@;
                    &&& part.column@ == columns[c]@
                    &&& part.value is None <==> value is Null
                    &&& part.value matches Some(text) ==> plain_text(value) == Some(text@)
                    &&& value is Null ==> part.value_type@ == "null"@
                    &&& value is Utf8 ==> part.value_type@ == "utf8"@
                    &&& value is Int64 ==> part.value_type@ == "int64"@
                    &&& value is UInt64 ==> part.value_type@ == "uint64"@
                    &&& value is Boolean ==> part.value_type@ == "boolean"@
                    &&& value is Date32 ==> part.value_type@ == "date32"@
                    &&& value is TimestampMicros ==> part.value_type@ == "timestamp_micros"@
                    &&& value is Decimal ==> part.value_type@ == "decimal"@
                }
        }),
{
    let heavy = stats.input.heavy_hitters@[j];
    let names = config.partitioning.key_columns@;
    let columns = texts(names);
    let key = heavy.key@;
    let listed = heavy_plan_texts(stats.input.heavy_hitters@);
    assert(listed[j] == heavy@);
    let hitters = heavy_keys_of(
        stats.input.key_frequencies.pairs(),
        config.partitioning.heavy_key_alpha,
        target_rows(config, rows.len() as u64, row_width(files, rows.len())) as u64,
    );
    assert(listed == placeholders(rows, columns, hitters));
    assert(listed.len() == hitters.len());
    assert(listed[j] == placeholder(rows, columns, hitters[j]));
    assert(row_has_key(rows, columns, key, r));
    plan_key_from_any_row(rows, columns, key, r);
    let told = heavy.structured_key->0;
    assert(told@.parts == key_part_texts(rows[r]@, columns));
    assert(told@.parts.len() == told.parts@.len());
    assert forall|c: int|
        #![trigger names[c]]
        0 <= c < names.len() implies ({
        let part = told.parts@[c];
        let value = rows[r]@[names[c]@]@;
        &&& part@ == (PlanKeyPartText {
            column: names[c]@,
            value_type: datum_type(value),
            value: plain_text(value),
        })
    }) by {
        assert(told@.parts[c] == told.parts@[c]@);
        assert(columns[c] == names[c]@);
    }
}

/// A plan spreads the keys that the statistics call heavy, with their frequencies, over
/// the partitions that the statistics were made for.
pub proof fn statistics_and_plans_agree(
    config: Config,
    files: Seq<InputFile>,
    rows: Seq<Row>,
    stats: StatsMetadata,
    unix_seconds: u64,
    plan: PartitionPlan,
)
    requires
        rows.len() <= u64::MAX,
        is_statistics(config, files, rows, stats),
        is_plan(config, stats, unix_seconds, plan),
    ensures
        plan.output_partitions == stats.estimates.target_partitions,
        stats.estimates.before_partition_sizes@.len() == plan.output_partitions,
        plan.heavy_keys@.len() == stats.input.heavy_hitters@.len(),
        forall|j: int|
            0 <= j < plan.heavy_keys@.len() ==> {
                let listed = stats.input.heavy_hitters@[j];
                &&& (#[trigger] plan.heavy_keys@[j]).key@ == listed.key@
                &&& plan.heavy_keys@[j].estimated_frequency == listed.estimated_frequency
                &&& plan.heavy_keys@[j].detection_reasons@ == listed.detection_reasons@
                &&& plan.heavy_keys@[j]@.structured_key == listed@.structured_key
            },
{
    let listed = stats.input.heavy_hitters@;
    let considered = stats.input.heavy_hitter_candidates@;
    let columns = texts(config.partitioning.key_columns@);
    let planned = plan.heavy_keys@;
    assert(heavy_plan_texts(planned).len() == planned.len());
    assert(heavy_plan_texts(listed).len() == listed.len());
    assert(plan_rows(config, stats) == target_rows(
        config,
        rows.len() as u64,
        row_width(files, rows.len()),
    ) as u64);
    assert forall|j: int| 0 <= j < planned.len() implies ({
        &&& (#[trigger] planned[j]).key@ == listed[j].key@
        &&& planned[j].estimated_frequency == listed[j].estimated_frequency
        &&& planned[j].detection_reasons@ == listed[j].detection_reasons@
        &&& planned[j]@.structured_key == listed[j]@.structured_key
    }) by {
        assert(heavy_plan_texts(planned)[j] == planned[j]@);
        assert(heavy_plan_texts(listed)[j] == listed[j]@);
        let key = listed[j].key@;
        let all = heavy_plan_texts(listed) + heavy_plan_texts(considered);
        assert(all[j].key == key);
        values_are_found(all, key, plan_key_of(rows, columns, key));
    }
}

proof fn values_are_found(
    plans: Seq<HeavyKeyPlanText>,
    key: Seq<char>,
    values: Option<PlanKeyText>,
)
    requires
        forall|i: int|
            0 <= i < plans.len() && (#[trigger] plans[i]).key == key ==> plans[i].structured_key
                == values,
    ensures
        values is None ==> structured_in(plans, key) is None,
        (exists|i: int| 0 <= i < plans.len() && (#[trigger] plans[i]).key == key)
            ==> structured_in(plans, key) == values,
    decreases plans.len(),
{
    if plans.len() > 0 {
        let rest = plans.drop_last();
        values_are_found(rest, key, values);
        if exists|i: int| 0 <= i < plans.len() && (#[trigger] plans[i]).key == key {
            let i = choose|i: int| 0 <= i < plans.len() && (#[trigger] plans[i]).key == key;
            if i < rest.len() {
                assert(rest[i].key == key);
            }
        }
    }
}

/// The candidates that the statistics list are the keys whose frequency exceeds the
/// factor times the mean frequency, each with its frequency and that reason alone.
pub proof fn candidates_exceed_the_mean(
    config: Config,
    files: Seq<InputFile>,
    rows: Seq<Row>,
    stats: StatsMetadata,
    pair: (Seq<char>, u64),
)
    requires
        is_statistics(config, files, rows, stats),
    ensures
        ({
            let pairs = stats.input.key_frequencies.pairs();
            let mean = mean_value(total(Seq::new(pairs.len(), |i: int| pairs[i].1)), pairs.len());
            let listed = stats.input.heavy_hitter_candidates@;
            &&& (exists|j: int|
                0 <= j < listed.len() && (#[trigger] listed[j]).key@ == pair.0
                    && listed[j].estimated_frequency == pair.1) <==> pairs.contains(pair)
                && count_exceeds(pair.1 as nat, config.partitioning.heavy_key_alpha, mean)
            &&& forall|j: int|
                0 <= j < listed.len() ==> (#[trigger] listed[j]).detection_reasons@ == seq![
                    HeavyKeyReason::AboveMeanThreshold,
                ] && listed[j].salt_count == 1 && listed[j].salt_partitions@.len() == 0
        }),
{
    let pairs = stats.input.key_frequencies.pairs();
    let alpha = config.partitioning.heavy_key_alpha;
    let columns = texts(config.partitioning.key_columns@);
    let listed = stats.input.heavy_hitter_candidates@;
    let found = candidates(pairs, alpha);
    candidates_are_above_the_mean(pairs, alpha, pair.0, pair.1);
    assert(Seq::new(pairs.len(), |i: int| pairs[i].1) =~= pair_values(pairs));
    assert(heavy_plan_texts(listed) == placeholders(rows, columns, found));
    assert(heavy_plan_texts(listed).len() == listed.len());
    let heavy = HeavyHitterText {
        key: pair.0,
        frequency: pair.1,
        reasons: seq![HeavyKeyReason::AboveMeanThreshold],
    };
    assert forall|j: int| 0 <= j < listed.len() implies (#[trigger] listed[j])@ == placeholder(
        rows,
        columns,
        found[j],
    ) by {
        assert(heavy_plan_texts(listed)[j] == listed[j]@);
    }
    if found.contains(heavy) {
        let j = choose|j: int| 0 <= j < found.len() && found[j] == heavy;
        assert(listed[j]@ == placeholder(rows, columns, heavy));
    }
    if exists|j: int|
        0 <= j < listed.len() && (#[trigger] listed[j]).key@ == pair.0
            && listed[j].estimated_frequency == pair.1 {
        let j = choose|j: int|
            0 <= j < listed.len() && (#[trigger] listed[j]).key@ == pair.0
                && listed[j].estimated_frequency == pair.1;
        assert(listed[j]@ == placeholder(rows, columns, found[j]));
        assert(found[j] == heavy);
        assert(found.contains(heavy));
    }
}

/// Before there is a plan, the sizes after are unknown: nothing is counted for any
/// partition, and neither a join nor times are recorded.
pub proof fn sizes_after_wait_for_a_plan(
    config: Config,
    files: Seq<InputFile>,
    rows: Seq<Row>,
    stats: StatsMetadata,
)
    requires
        is_statistics(config, files, rows, stats),
    ensures
        stats.version@ == "0.2.0"@,
        stats.estimates.after_partition_sizes@.len() == stats.estimates.target_partitions,
        forall|p: int|
            0 <= p < stats.estimates.after_partition_sizes@.len()
                ==> #[trigger] stats.estimates.after_partition_sizes@[p] == 0,
        stats.join is None,
        stats.timing is None,
        stats.storage.target_file_size_mb == config.storage.target_file_size_mb@,
        stats.storage.min_file_size_mb == config.storage.min_file_size_mb@,
        config.storage.target_file_size_mb@ * 1_048_576 <= u64::MAX
            ==> stats.storage.target_file_size_bytes == config.storage.target_file_size_mb@
            * 1_048_576,
        config.storage.min_file_size_mb@ * 1_048_576 <= u64::MAX
            ==> stats.storage.min_file_size_bytes == config.storage.min_file_size_mb@ * 1_048_576,
{
}

/// A bounded summary takes in one key after the other. A key that it holds counts one
/// more; a new key counts one while there is room. In a full summary a new key takes the
/// place of the key with the lowest count, of several the first, and counts one more than
/// it.
pub proof fn summaries_drop_the_lowest_count(keys: Seq<Seq<char>>, key: Seq<char>, capacity: nat)
    requires
        capacity > 0,
        keys.len() < u64::MAX,
    ensures
        ({
            let before = space_saving_of(keys, capacity).counts;
            let after = space_saving_of(keys.push(key), capacity).counts;
            &&& before.contains_key(key) ==> after == before.insert(key, (before[key] + 1) as u64)
            &&& !before.contains_key(key) && before.dom().len() < capacity ==> after
                == before.insert(key, 1)
            &&& !before.contains_key(key) && before.dom().len() >= capacity
                ==> exists|dropped: Seq<char>| #[trigger]
                before.contains_key(dropped) && after == before.remove(dropped).insert(
                    key,
                    (before[dropped] + 1) as u64,
                ) && forall|other: Seq<char>| #[trigger]
                    before.contains_key(other) && other != dropped ==> before[dropped]
                        < before[other] || (before[dropped] == before[other] && text_less(
                        dropped,
                        other,
                    ))
        }),
{
    let before = space_saving_of(keys, capacity).counts;
    assert(keys.push(key).drop_last() =~= keys);
    space_saving_guarantees(keys, capacity);
    if !before.contains_key(key) && before.dom().len() >= capacity {
        victim_exists(before);
        let dropped = victim(before);
        assert forall|other: Seq<char>| #[trigger]
            before.contains_key(other) && other != dropped implies before[dropped] < before[other]
            || (before[dropped] == before[other] && text_less(dropped, other)) by {
            if before[dropped] == before[other] {
                text_less_total(dropped, other);
            }
        }
    }
}

/// The means that the statistics record are means, but for one part in `2^50`: of the
/// sizes of the files, of the frequencies of the keys and of the sizes of the partitions.
pub proof fn recorded_means_are_means(
    config: Config,
    files: Seq<InputFile>,
    rows: Seq<Row>,
    stats: StatsMetadata,
)
    requires
        is_statistics(config, files, rows, stats),
        files.len() <= u64::MAX,
        stats.input.key_frequencies.pairs().len() <= u64::MAX,
        stats.estimates.before_partition_sizes@.len() <= u64::MAX,
    ensures
        ({
            let sizes = Seq::new(files.len(), |i: int| files[i].size_bytes);
            let parts = 0x4_0000_0000_0000 as real;
            &&& stats.input.mean_file_size_bytes is Some <==> files.len() > 0
            &&& 0 < total(sizes) <= u64::MAX ==> close(
                value(stats.input.mean_file_size_bytes->0.magnitude()) * (files.len() as real),
                total(sizes) as real,
                parts,
            )
        }),
        ({
            let pairs = stats.input.key_frequencies.pairs();
            let sum = total(Seq::new(pairs.len(), |i: int| pairs[i].1));
            let parts = 0x4_0000_0000_0000 as real;
            0 < sum <= u64::MAX ==> close(
                value(stats.input.mean_key_frequency.magnitude()) * (pairs.len() as real),
                sum as real,
                parts,
            )
        }),
        ({
            let sizes = stats.estimates.before_partition_sizes@;
            let parts = 0x4_0000_0000_0000 as real;
            0 < total(sizes) <= u64::MAX ==> close(
                value(stats.skew.mean_partition_size.magnitude()) * (sizes.len() as real),
                total(sizes) as real,
                parts,
            )
        }),
{
    let files_sizes = Seq::new(files.len(), |i: int| files[i].size_bytes);
    assert(files_sizes =~= file_sizes(files));
    if 0 < total(files_sizes) <= u64::MAX {
        recorded_means_are_close(
            total(files_sizes),
            files.len(),
            stats.input.mean_file_size_bytes->0,
        );
    }
    let pairs = stats.input.key_frequencies.pairs();
    let frequencies = Seq::new(pairs.len(), |i: int| pairs[i].1);
    assert(frequencies =~= pair_values(pairs));
    if 0 < total(frequencies) <= u64::MAX {
        recorded_means_are_close(total(frequencies), pairs.len(), stats.input.mean_key_frequency);
    }
    let sizes = stats.estimates.before_partition_sizes@;
    if 0 < total(sizes) <= u64::MAX {
        recorded_means_are_close(total(sizes), sizes.len(), stats.skew.mean_partition_size);
    }
}

} // verus!
