//! Statistics of a dataset: key frequencies, heavy keys, partition sizes and
//! what they need of the machine.

use vstd::prelude::*;
use crate::arith::{add_up, ceil_div, ceil_div_spec, largest, saturated, saturating_product, total};
use crate::binary64::{encoded, mean, mean_value, pack, Binary64};
use crate::config::{Config, HeavyHitterMode};
use crate::dataset::{row_key, row_keys, texts, Row};
use crate::error::Error;
use crate::hashing::{hashed_partition, partition_id};
use crate::heavy_hitters::{
    candidates, count_key, detect_final_heavy_keys, detect_heavy_hitter_candidates, heavy_keys_of,
    hitter_texts, mean_frequency_value, mean_of_frequencies, occurrences, pair_values, space_saving,
    space_saving_of, total_frequency, HeavyHitter, HeavyHitterText,
};
use crate::key_encoding::{
    datum_type, key_value_to_string, key_value_type_name, plain_text, KeyValue,
};
use crate::keymap::KeyMap;
use crate::manifest::{
    copy_reasons, heavy_plan_texts, HeavyHitterDetectionMetadata, HeavyKeyPlan, HeavyKeyPlanText,
    InputFileStats, InputStats, JoinStatisticsMetadata, PartitionEstimates, PlanKey, PlanKeyPart,
    PlanKeyPartText, PlanKeyText, ResourceEstimate, SaltPartitionPlan, StatsMetadata,
    StorageMetadata, TimingMetadata, METADATA_VERSION,
};
use crate::reader::{InputDataset, InputFile};
use crate::skew::{is_skew, skew_stats};
use crate::targeting::{compute_target_partitioning, output_partition_count, target_rows};
use crate::text::{decimal, push_decimal};

verus! {

/// The keys of the rows that have one, in row order.
pub open spec fn present_keys(rows: Seq<Row>, columns: Seq<Seq<char>>) -> Seq<Seq<char>> {
    row_keys(rows, columns).filter_map(|key: Option<Seq<char>>| key)
}

/// How often each key occurs.
pub open spec fn frequency_map(keys: Seq<Seq<char>>) -> Map<Seq<char>, u64> {
    Map::new(
        |k: Seq<char>| occurrences(keys, k) > 0,
        |k: Seq<char>| occurrences(keys, k) as u64,
    )
}

/// How many of the keys hashing puts into partition `p` of `n`.
pub open spec fn hashed_count(keys: Seq<Seq<char>>, n: usize, seed: u64, p: int) -> nat
    decreases keys.len(),
{
    if keys.len() == 0 {
        0
    } else {
        hashed_count(keys.drop_last(), n, seed, p) + if hashed_partition(keys.last(), n, seed) == p {
            1nat
        } else {
            0nat
        }
    }
}

/// The sizes of `n` partitions that hashing fills with the keys.
pub open spec fn hashed_sizes(keys: Seq<Seq<char>>, n: usize, seed: u64) -> Seq<u64> {
    Seq::new(n as nat, |p: int| hashed_count(keys, n, seed, p) as u64)
}

/// A key occurs no more often than there are keys.
pub proof fn occurrences_bounded(keys: Seq<Seq<char>>, key: Seq<char>)
    ensures
        occurrences(keys, key) <= keys.len(),
    decreases keys.len(),
{
    if keys.len() > 0 {
        occurrences_bounded(keys.drop_last(), key);
    }
}

/// A partition holds no more keys than there are.
pub proof fn hashed_count_bounded(keys: Seq<Seq<char>>, n: usize, seed: u64, p: int)
    ensures
        hashed_count(keys, n, seed, p) <= keys.len(),
    decreases keys.len(),
{
    if keys.len() > 0 {
        hashed_count_bounded(keys.drop_last(), n, seed, p);
    }
}

/// Collects the keys of the rows.
pub fn collect_keys(rows: &Vec<Row>, key_columns: &Vec<String>) -> (keys: Vec<String>)
    ensures
        texts(keys@) == present_keys(rows@, texts(key_columns@)),
{
    let ghost columns = texts(key_columns@);
    let ghost all = row_keys(rows@, columns);
    let ghost f = |key: Option<Seq<char>>| key;
    let mut keys: Vec<String> = Vec::new();
    let mut i: usize = 0;
    proof {
        reveal(Seq::filter_map);
        assert(all.take(0) =~= Seq::<Option<Seq<char>>>::empty());
        assert(texts(keys@) =~= all.take(0).filter_map(f));
    }
    while i < rows.len()
        invariant
            i <= rows@.len(),
            columns == texts(key_columns@),
            all == row_keys(rows@, columns),
            f == (|key: Option<Seq<char>>| key),
            texts(keys@) == all.take(i as int).filter_map(f),
        decreases rows.len() - i,
    {
        let ghost before = keys@;
        proof {
            all.lemma_filter_map_take_succ(f, i as int);
        }
        match rows[i].partition_key(key_columns.as_slice()) {
            Some(key) => {
                keys.push(key);
                assert(f(all[i as int]) == Some(keys@.last()@));
                assert(texts(keys@) =~= texts(before).push(keys@.last()@));
            },
            None => {
                assert(f(all[i as int]) is None);
            },
        }
        i += 1;
    }
    assert(all.take(i as int) =~= all);
    keys
}

/// Counts the keys.
pub fn key_frequencies(keys: &Vec<String>) -> (frequencies: KeyMap<u64>)
    ensures
        frequencies@ == frequency_map(texts(keys@)),
        total_frequency(frequencies.pairs()) == keys@.len(),
{
    let ghost all = texts(keys@);
    let mut frequencies: KeyMap<u64> = KeyMap::new();
    let mut i: usize = 0;
    proof {
        assert(all.take(0) =~= Seq::<Seq<char>>::empty());
        assert(frequencies@ =~= frequency_map(all.take(0)));
        assert(pair_values(frequencies.pairs()) =~= Seq::<u64>::empty());
    }
    while i < keys.len()
        invariant
            i <= keys@.len(),
            all == texts(keys@),
            frequencies@ == frequency_map(all.take(i as int)),
            total_frequency(frequencies.pairs()) == i,
        decreases keys.len() - i,
    {
        let ghost done = all.take(i as int);
        let ghost more = all.take(i + 1);
        let ghost k = keys@[i as int]@;
        proof {
            assert(more.drop_last() =~= done);
            assert(more.last() == k);
            occurrences_bounded(done, k);
            assert forall|x: Seq<char>| #[trigger] occurrences(more, x) == occurrences(done, x) + if x == k {
                1nat
            } else {
                0nat
            } by {}
        }
        count_key(&mut frequencies, keys[i].clone());
        assert(frequencies@ =~= frequency_map(more));
        i += 1;
    }
    assert(all.take(i as int) =~= all);
    frequencies
}

/// Sizes of the partitions that hashing alone gives.
pub fn base_partition_sizes(keys: &Vec<String>, partition_count: usize, seed: u64) -> (sizes: Vec<u64>)
    requires
        partition_count > 0,
    ensures
        sizes@ == hashed_sizes(texts(keys@), partition_count, seed),
        total(sizes@) == keys@.len(),
{
    let ghost all = texts(keys@);
    let mut sizes: Vec<u64> = vec![0u64; partition_count];
    let mut i: usize = 0;
    proof {
        assert(all.take(0) =~= Seq::<Seq<char>>::empty());
        crate::arith::total_zeros(sizes@);
        assert(sizes@ =~= hashed_sizes(all.take(0), partition_count, seed));
    }
    while i < keys.len()
        invariant
            i <= keys@.len(),
            partition_count > 0,
            all == texts(keys@),
            sizes@ == hashed_sizes(all.take(i as int), partition_count, seed),
            total(sizes@) == i,
        decreases keys.len() - i,
    {
        let ghost done = all.take(i as int);
        let ghost more = all.take(i + 1);
        let ghost before = sizes@;
        let id: usize = partition_id(&keys[i], partition_count, seed);
        proof {
            assert(more.drop_last() =~= done);
            assert(more.last() == keys@[i as int]@);
            hashed_count_bounded(done, partition_count, seed, id as int);
            crate::arith::total_bounds(before, id as int);
            crate::arith::total_update(before, id as int, (before[id as int] + 1) as u64);
        }
        sizes.set(id, sizes[id] + 1);
        proof {
            assert forall|p: int| 0 <= p < partition_count implies sizes@[p] == #[trigger] hashed_sizes(
                more,
                partition_count,
                seed,
            )[p] by {
                hashed_count_bounded(done, partition_count, seed, p);
            }
            assert(sizes@ =~= hashed_sizes(more, partition_count, seed));
        }
        i += 1;
    }
    assert(all.take(i as int) =~= all);
    sizes
}

/// The columns of a key with types and values.
pub open spec fn key_part_texts(
    values: Map<Seq<char>, KeyValue>,
    columns: Seq<Seq<char>>,
) -> Seq<PlanKeyPartText> {
    Seq::new(
        columns.len(),
        |i: int|
            PlanKeyPartText {
                column: columns[i],
                value_type: datum_type(values[columns[i]]@),
                value: plain_text(values[columns[i]]@),
            },
    )
}

/// Row `r` has the key.
pub open spec fn row_has_key(
    rows: Seq<Row>,
    columns: Seq<Seq<char>>,
    key: Seq<char>,
    r: int,
) -> bool {
    0 <= r < rows.len() && row_key(rows[r]@, columns) == Some(key)
}

/// A key with the values that it encodes, taken from a row that has it.
pub open spec fn plan_key_of(rows: Seq<Row>, columns: Seq<Seq<char>>, key: Seq<char>) -> Option<
    PlanKeyText,
> {
    if exists|r: int| row_has_key(rows, columns, key, r) {
        let r = choose|r: int| row_has_key(rows, columns, key, r);
        Some(PlanKeyText { encoded: key, parts: key_part_texts(rows[r]@, columns) })
    } else {
        None
    }
}

/// The values of a key do not depend on the row that they are taken from.
pub proof fn plan_key_from_any_row(
    rows: Seq<Row>,
    columns: Seq<Seq<char>>,
    key: Seq<char>,
    r: int,
)
    requires
        row_has_key(rows, columns, key, r),
    ensures
        plan_key_of(rows, columns, key) == Some(
            PlanKeyText { encoded: key, parts: key_part_texts(rows[r]@, columns) },
        ),
{
    let q = choose|q: int| row_has_key(rows, columns, key, q);
    crate::dataset::row_key_injective(rows[q]@, rows[r]@, columns);
    assert(key_part_texts(rows[q]@, columns) =~= key_part_texts(rows[r]@, columns));
}

fn row_plan_key(row: &Row, key_columns: &Vec<String>, key: String) -> (plan_key: PlanKey)
    requires
        crate::dataset::has_columns(row@, texts(key_columns@)),
    ensures
        plan_key@.encoded == key@,
        plan_key@.parts == key_part_texts(row@, texts(key_columns@)),
{
    let ghost columns = texts(key_columns@);
    let mut parts: Vec<PlanKeyPart> = Vec::new();
    let mut i: usize = 0;
    while i < key_columns.len()
        invariant
            columns == texts(key_columns@),
            crate::dataset::has_columns(row@, columns),
            i <= key_columns@.len(),
            parts@.len() == i,
            forall|j: int| 0 <= j < i ==> #[trigger] parts@[j]@ == key_part_texts(row@, columns)[j],
        decreases key_columns.len() - i,
    {
        assert(row@.contains_key(columns[i as int]));
        match row.key_values().get(&key_columns[i]) {
            Some(value) => {
                parts.push(
                    PlanKeyPart {
                        column: key_columns[i].clone(),
                        value_type: key_value_type_name(value).to_owned(),
                        value: key_value_to_string(value),
                    },
                );
            },
            None => {},
        }
        i += 1;
    }
    let plan_key = PlanKey { encoded: key, parts };
    assert(plan_key@.parts =~= key_part_texts(row@, columns));
    plan_key
}

/// Some heavy key is `key`.
pub open spec fn names_key(hitters: Seq<HeavyHitter>, key: Seq<char>) -> bool {
    exists|i: int| 0 <= i < hitters.len() && #[trigger] hitters[i].key@ == key
}

fn wanted_keys(hitters: &Vec<HeavyHitter>) -> (wanted: KeyMap<u64>)
    ensures
        forall|k: Seq<char>| #[trigger] wanted@.contains_key(k) <==> names_key(hitters@, k),
{
    let mut wanted: KeyMap<u64> = KeyMap::new();
    let mut i: usize = 0;
    while i < hitters.len()
        invariant
            i <= hitters@.len(),
            forall|k: Seq<char>| #[trigger]
                wanted@.contains_key(k) <==> names_key(hitters@.take(i as int), k),
        decreases hitters.len() - i,
    {
        wanted.insert(hitters[i].key.clone(), hitters[i].frequency);
        proof {
            let done = hitters@.take(i as int);
            let more = hitters@.take(i + 1);
            assert forall|k: Seq<char>| names_key(more, k) <==> names_key(done, k) || k == hitters@[i as int].key@ by {
                if names_key(more, k) && k != hitters@[i as int].key@ {
                    let j = choose|j: int| 0 <= j < more.len() && #[trigger] more[j].key@ == k;
                    assert(done[j].key@ == k);
                }
                if names_key(done, k) {
                    let j = choose|j: int| 0 <= j < done.len() && #[trigger] done[j].key@ == k;
                    assert(more[j].key@ == k);
                }
                assert(more[i as int].key@ == hitters@[i as int].key@);
            }
        }
        i += 1;
    }
    assert(hitters@.take(i as int) =~= hitters@);
    wanted
}

/// The values of heavy keys, by key.
fn structured_keys(rows: &Vec<Row>, key_columns: &Vec<String>, hitters: &Vec<HeavyHitter>) -> (structured: KeyMap<
    PlanKey,
>)
    ensures
        forall|k: Seq<char>| #[trigger]
            structured@.contains_key(k) ==> plan_key_of(rows@, texts(key_columns@), k) == Some(
                structured@[k]@,
            ),
        forall|k: Seq<char>|
            names_key(hitters@, k) && !(#[trigger] structured@.contains_key(k)) ==> plan_key_of(
                rows@,
                texts(key_columns@),
                k,
            ) is None,
{
    let ghost columns = texts(key_columns@);
    let wanted = wanted_keys(hitters);
    let mut structured: KeyMap<PlanKey> = KeyMap::new();
    let mut i: usize = 0;
    while i < rows.len()
        invariant
            columns == texts(key_columns@),
            forall|k: Seq<char>| #[trigger] wanted@.contains_key(k) <==> names_key(hitters@, k),
            i <= rows@.len(),
            forall|k: Seq<char>| #[trigger]
                structured@.contains_key(k) ==> plan_key_of(rows@, columns, k) == Some(
                    structured@[k]@,
                ),
            forall|k: Seq<char>, r: int|
                names_key(hitters@, k) && !structured@.contains_key(k) && 0 <= r < i
                    ==> !(#[trigger] row_has_key(rows@, columns, k, r)),
        decreases rows.len() - i,
    {
        let ghost before = structured@;
        match rows[i].partition_key(key_columns.as_slice()) {
            Some(key) => {
                let ghost k = key@;
                assert(row_has_key(rows@, columns, k, i as int));
                if wanted.contains_key(&key) && !structured.contains_key(&key) {
                    let plan_key = row_plan_key(&rows[i], key_columns, key.clone());
                    proof {
                        plan_key_from_any_row(rows@, columns, k, i as int);
                        assert(plan_key@ == (PlanKeyText {
                            encoded: k,
                            parts: key_part_texts(rows@[i as int]@, columns),
                        }));
                    }
                    structured.insert(key, plan_key);
                }
                proof {
                    assert forall|x: Seq<char>, r: int|
                        names_key(hitters@, x) && !structured@.contains_key(x) && 0 <= r < i + 1 implies !(#[trigger] row_has_key(
                        rows@,
                        columns,
                        x,
                        r,
                    )) by {
                        assert(!before.contains_key(x));
                    }
                }
            },
            None => {},
        }
        i += 1;
    }
    structured
}

/// A heavy key before its rows are spread.
pub open spec fn placeholder(rows: Seq<Row>, columns: Seq<Seq<char>>, heavy: HeavyHitterText) -> HeavyKeyPlanText {
    HeavyKeyPlanText {
        key: heavy.key,
        structured_key: plan_key_of(rows, columns, heavy.key),
        estimated_frequency: heavy.frequency,
        detection_reasons: heavy.reasons,
        salt_count: 1,
        salt_partitions: Seq::empty(),
    }
}

/// Heavy keys before their rows are spread.
pub open spec fn placeholders(
    rows: Seq<Row>,
    columns: Seq<Seq<char>>,
    hitters: Seq<HeavyHitterText>,
) -> Seq<HeavyKeyPlanText> {
    Seq::new(hitters.len(), |i: int| placeholder(rows, columns, hitters[i]))
}

fn heavy_key_plan_placeholders(
    rows: &Vec<Row>,
    key_columns: &Vec<String>,
    hitters: &Vec<HeavyHitter>,
) -> (plans: Vec<HeavyKeyPlan>)
    ensures
        heavy_plan_texts(plans@) == placeholders(
            rows@,
            texts(key_columns@),
            hitter_texts(hitters@),
        ),
{
    let ghost columns = texts(key_columns@);
    let structured = structured_keys(rows, key_columns, hitters);
    let mut plans: Vec<HeavyKeyPlan> = Vec::new();
    let mut i: usize = 0;
    while i < hitters.len()
        invariant
            columns == texts(key_columns@),
            forall|k: Seq<char>| #[trigger]
                structured@.contains_key(k) ==> plan_key_of(rows@, columns, k) == Some(
                    structured@[k]@,
                ),
            forall|k: Seq<char>|
                names_key(hitters@, k) && !(#[trigger] structured@.contains_key(k)) ==> plan_key_of(
                    rows@,
                    columns,
                    k,
                ) is None,
            i <= hitters@.len(),
            plans@.len() == i,
            forall|j: int|
                0 <= j < i ==> #[trigger] plans@[j]@ == placeholder(rows@, columns, hitters@[j]@),
        decreases hitters.len() - i,
    {
        let heavy = &hitters[i];
        assert(names_key(hitters@, hitters@[i as int].key@));
        let structured_key = match structured.get(&heavy.key) {
            Some(key) => Some(key.clone()),
            None => None,
        };
        plans.push(
            HeavyKeyPlan {
                key: heavy.key.clone(),
                structured_key,
                estimated_frequency: heavy.frequency,
                detection_reasons: copy_reasons(&heavy.detection_reasons),
                salt_count: 1,
                salt_partitions: Vec::new(),
            },
        );
        assert(plans@[i as int]@.salt_partitions =~= Seq::<SaltPartitionPlan>::empty());
        assert(plans@[i as int]@ == placeholder(rows@, columns, hitters@[i as int]@));
        i += 1;
    }
    assert(heavy_plan_texts(plans@) =~= placeholders(rows@, columns, hitter_texts(hitters@)));
    plans
}

/// The sizes of files.
pub open spec fn file_sizes(files: Seq<InputFile>) -> Seq<u64> {
    Seq::new(files.len(), |i: int| files[i].size_bytes)
}

/// How many numbers are below a limit.
pub open spec fn count_below(numbers: Seq<u64>, limit: u64) -> nat
    decreases numbers.len(),
{
    if numbers.len() == 0 {
        0
    } else {
        count_below(numbers.drop_last(), limit) + if numbers.last() < limit {
            1nat
        } else {
            0nat
        }
    }
}

/// How many numbers are above a limit.
pub open spec fn count_above(numbers: Seq<u64>, limit: u64) -> nat
    decreases numbers.len(),
{
    if numbers.len() == 0 {
        0
    } else {
        count_above(numbers.drop_last(), limit) + if numbers.last() > limit {
            1nat
        } else {
            0nat
        }
    }
}

/// The smallest number of a sequence that is not empty.
pub open spec fn smallest(numbers: Seq<u64>) -> u64
    decreases numbers.len(),
{
    if numbers.len() <= 1 {
        numbers.last()
    } else if smallest(numbers.drop_last()) < numbers.last() {
        smallest(numbers.drop_last())
    } else {
        numbers.last()
    }
}

/// Megabytes in bytes.
pub open spec fn mb_bytes(mb: u64) -> u64 {
    saturated(mb * 1_048_576)
}

/// The size of all files in MB, rounded up; unknown where they hold nothing.
pub open spec fn size_mb(files: Seq<InputFile>) -> Option<u64> {
    let bytes = total(file_sizes(files));
    if bytes > 0 {
        Some(ceil_div_spec(bytes as int, 1_048_576) as u64)
    } else {
        None
    }
}

/// The width of a row: the size of all files spread over the rows, rounded up;
/// unknown without rows or bytes.
pub open spec fn row_width(files: Seq<InputFile>, rows: nat) -> Option<u64> {
    let bytes = total(file_sizes(files));
    if rows > 0 && bytes > 0 {
        Some(ceil_div_spec(bytes as int, rows as int) as u64)
    } else {
        None
    }
}

struct FileSizeSummary {
    min_file_size_bytes: Option<u64>,
    max_file_size_bytes: Option<u64>,
    mean_file_size_bytes: Option<Binary64>,
    small_file_count: usize,
    oversized_file_count: usize,
}

fn mb_to_bytes(value: u64) -> (bytes: u64)
    ensures
        bytes == mb_bytes(value),
{
    saturating_product(value, 1_048_576)
}

fn collect_file_sizes(files: &Vec<InputFile>) -> (sizes: Vec<u64>)
    ensures
        sizes@ == file_sizes(files@),
{
    let mut sizes: Vec<u64> = Vec::new();
    let mut i: usize = 0;
    while i < files.len()
        invariant
            i <= files@.len(),
            sizes@.len() == i,
            forall|j: int| 0 <= j < i ==> #[trigger] sizes@[j] == files@[j].size_bytes,
        decreases files.len() - i,
    {
        sizes.push(files[i].size_bytes);
        i += 1;
    }
    assert(sizes@ =~= file_sizes(files@));
    sizes
}

fn file_size_summary(config: &Config, sizes: &Vec<u64>) -> (summary: FileSizeSummary)
    requires
        total(sizes@) <= u64::MAX,
    ensures
        sizes@.len() == 0 ==> summary.min_file_size_bytes is None && summary.max_file_size_bytes is None
            && summary.mean_file_size_bytes is None,
        sizes@.len() > 0 ==> summary.min_file_size_bytes == Some(smallest(sizes@))
            && summary.max_file_size_bytes == Some(largest(sizes@)) && (
        summary.mean_file_size_bytes matches Some(m) && m.bits == encoded(
            mean_value(total(sizes@), sizes@.len()),
        )),
        summary.small_file_count == count_below(
            sizes@,
            mb_bytes(config.storage.min_file_size_mb@),
        ),
        summary.oversized_file_count == count_above(
            sizes@,
            mb_bytes(config.storage.target_file_size_mb@),
        ),
{
    if sizes.len() == 0 {
        return FileSizeSummary {
            min_file_size_bytes: None,
            max_file_size_bytes: None,
            mean_file_size_bytes: None,
            small_file_count: 0,
            oversized_file_count: 0,
        };
    }
    let small_limit: u64 = mb_to_bytes(config.storage.min_file_size_mb.get());
    let large_limit: u64 = mb_to_bytes(config.storage.target_file_size_mb.get());
    let mut min: u64 = sizes[0];
    let mut small_file_count: usize = 0;
    let mut oversized_file_count: usize = 0;
    let mut i: usize = 0;
    assert(sizes@.take(0) =~= Seq::<u64>::empty());
    while i < sizes.len()
        invariant
            i <= sizes@.len(),
            sizes@.len() > 0,
            i == 0 ==> min == sizes@[0],
            i > 0 ==> min == smallest(sizes@.take(i as int)),
            small_file_count == count_below(sizes@.take(i as int), small_limit),
            oversized_file_count == count_above(sizes@.take(i as int), large_limit),
            small_file_count <= i,
            oversized_file_count <= i,
        decreases sizes.len() - i,
    {
        let size: u64 = sizes[i];
        assert(sizes@.take(i + 1).drop_last() =~= sizes@.take(i as int));
        if !(min < size) {
            min = size;
        }
        if size < small_limit {
            small_file_count = small_file_count + 1;
        }
        if size > large_limit {
            oversized_file_count = oversized_file_count + 1;
        }
        i += 1;
    }
    assert(sizes@.take(i as int) =~= sizes@);
    let sum: u64 = add_up(sizes);
    FileSizeSummary {
        min_file_size_bytes: Some(min),
        max_file_size_bytes: Some(crate::arith::find_largest(sizes)),
        mean_file_size_bytes: Some(pack(mean(sum, sizes.len() as u64))),
        small_file_count,
        oversized_file_count,
    }
}

/// The estimated size is above the configured limit.
pub open spec fn exceeds_memory(config: Config, files: Seq<InputFile>) -> bool {
    size_mb(files) matches Some(mb) && mb > config.resources.memory_limit_mb
}

/// `resources` is what the files need of the machine.
pub open spec fn is_resource_estimate(
    config: Config,
    files: Seq<InputFile>,
    resources: ResourceEstimate,
) -> bool {
    &&& resources.configured_memory_limit_mb == config.resources.memory_limit_mb
    &&& resources.estimated_dataset_size_mb == size_mb(files)
    &&& resources.in_memory_processing_used
    &&& resources.memory_limit_exceeded == exceeds_memory(config, files)
    &&& texts(resources.warnings@) == if exceeds_memory(config, files) {
        seq!["estimated_dataset_size_exceeds_configured_memory_limit"@]
    } else {
        seq![]
    }
}

fn estimated_size_mb(total_bytes: u64) -> (size: Option<u64>)
    ensures
        size == if total_bytes > 0 {
            Some(ceil_div_spec(total_bytes as int, 1_048_576) as u64)
        } else {
            None
        },
{
    if total_bytes > 0 {
        Some(ceil_div(total_bytes, 1_048_576))
    } else {
        None
    }
}

fn resource_estimate(config: &Config, total_bytes: u64, files: &Vec<InputFile>) -> (result: Result<
    ResourceEstimate,
    Error,
>)
    requires
        total_bytes == total(file_sizes(files@)),
    ensures
        match result {
            Ok(resources) => !(exceeds_memory(*config, files@)
                && config.resources.fail_on_memory_limit) && is_resource_estimate(
                *config,
                files@,
                resources,
            ),
            Err(error) => exceeds_memory(*config, files@) && config.resources.fail_on_memory_limit
                && error == (Error::ResourceLimitExceeded {
                configured_memory_limit_mb: config.resources.memory_limit_mb,
                estimated_dataset_size_mb: size_mb(files@)->0,
            }),
        },
{
    let limit: u64 = config.resources.memory_limit_mb;
    let estimated = estimated_size_mb(total_bytes);
    let size: u64 = estimated.unwrap_or(0);
    let exceeded = estimated.is_some() && size > limit;
    if exceeded && config.resources.fail_on_memory_limit {
        return Err(
            Error::ResourceLimitExceeded {
                configured_memory_limit_mb: limit,
                estimated_dataset_size_mb: size,
            },
        );
    }
    let mut warnings: Vec<String> = Vec::new();
    if exceeded {
        warnings.push("estimated_dataset_size_exceeds_configured_memory_limit".to_owned());
    }
    assert(texts(warnings@) =~= if exceeded {
        seq!["estimated_dataset_size_exceeds_configured_memory_limit"@]
    } else {
        seq![]
    });
    Ok(
        ResourceEstimate {
            configured_memory_limit_mb: limit,
            estimated_dataset_size_mb: estimated,
            in_memory_processing_used: true,
            memory_limit_exceeded: exceeded,
            warnings,
        },
    )
}

/// The key frequencies that the configuration asks for: all of them, or a bounded
/// summary.
pub open spec fn expected_frequencies(config: Config, keys: Seq<Seq<char>>) -> Map<Seq<char>, u64> {
    match config.statistics.heavy_hitter_mode {
        HeavyHitterMode::Exact => frequency_map(keys),
        HeavyHitterMode::Approximate => space_saving_of(
            keys,
            config.statistics.approximate_capacity@ as nat,
        ).counts,
    }
}

/// `detection` says how the frequencies were counted.
pub open spec fn is_detection(
    config: Config,
    keys: Seq<Seq<char>>,
    detection: HeavyHitterDetectionMetadata,
) -> bool {
    &&& detection.capacity == config.statistics.approximate_capacity@
    &&& match config.statistics.heavy_hitter_mode {
        HeavyHitterMode::Exact => {
            &&& detection.mode@ == "exact"@
            &&& detection.error_bound@ == "0"@
            &&& detection.key_frequencies_exact
            &&& !detection.key_frequencies_truncated
            &&& detection.normal_keys_materialized
        },
        HeavyHitterMode::Approximate => {
            &&& detection.mode@ == "approximate"@
            &&& detection.error_bound@ == "space_saving_max_overestimate="@ + decimal(
                space_saving_of(keys, config.statistics.approximate_capacity@ as nat).max_error,
            )
            &&& !detection.key_frequencies_exact
            &&& detection.key_frequencies_truncated
            &&& !detection.normal_keys_materialized
        },
    }
}

struct KeyFrequencySummary {
    frequencies: KeyMap<u64>,
    detection_metadata: HeavyHitterDetectionMetadata,
}

fn key_frequency_summary(keys: &Vec<String>, config: &Config) -> (summary: KeyFrequencySummary)
    ensures
        summary.frequencies@ == expected_frequencies(*config, texts(keys@)),
        total_frequency(summary.frequencies.pairs()) == keys@.len(),
        is_detection(*config, texts(keys@), summary.detection_metadata),
{
    let capacity: usize = config.statistics.approximate_capacity.get();
    match config.statistics.heavy_hitter_mode {
        HeavyHitterMode::Exact => KeyFrequencySummary {
            frequencies: key_frequencies(keys),
            detection_metadata: HeavyHitterDetectionMetadata {
                mode: "exact".to_owned(),
                capacity,
                error_bound: "0".to_owned(),
                key_frequencies_exact: true,
                key_frequencies_truncated: false,
                normal_keys_materialized: true,
            },
        },
        HeavyHitterMode::Approximate => {
            let summary = space_saving(keys, capacity);
            let mut error_bound = "space_saving_max_overestimate=".to_owned();
            push_decimal(&mut error_bound, summary.max_error as u128);
            KeyFrequencySummary {
                frequencies: summary.frequencies,
                detection_metadata: HeavyHitterDetectionMetadata {
                    mode: "approximate".to_owned(),
                    capacity,
                    error_bound,
                    key_frequencies_exact: false,
                    key_frequencies_truncated: true,
                    normal_keys_materialized: false,
                },
            }
        },
    }
}

fn max_frequency(key_frequencies: &KeyMap<u64>) -> (max: u64)
    ensures
        max == largest(pair_values(key_frequencies.pairs())),
{
    let ghost values = pair_values(key_frequencies.pairs());
    let count: usize = key_frequencies.len();
    let mut max: u64 = 0;
    let mut i: usize = 0;
    while i < count
        invariant
            i <= count == key_frequencies.pairs().len(),
            values == pair_values(key_frequencies.pairs()),
            max == largest(values.take(i as int)),
        decreases count - i,
    {
        proof {
            crate::arith::total_step(values, i as int);
        }
        let value: u64 = *key_frequencies.value_at(i);
        if value >= max {
            max = value;
        }
        i += 1;
    }
    assert(values.take(i as int) =~= values);
    max
}

fn input_file_stats(files: &Vec<InputFile>) -> (stats: Vec<InputFileStats>)
    ensures
        lists_files(files@, stats@),
{
    let mut stats: Vec<InputFileStats> = Vec::new();
    let mut i: usize = 0;
    while i < files.len()
        invariant
            i <= files@.len(),
            stats@.len() == i,
            forall|j: int|
                0 <= j < i ==> (#[trigger] stats@[j]).path@ == files@[j].path@
                    && stats@[j].size_bytes == files@[j].size_bytes,
        decreases files.len() - i,
    {
        stats.push(
            InputFileStats { path: files[i].path.clone(), size_bytes: files[i].size_bytes },
        );
        i += 1;
    }
    stats
}

/// `stats` lists the files.
pub open spec fn lists_files(files: Seq<InputFile>, stats: Seq<InputFileStats>) -> bool {
    &&& stats.len() == files.len()
    &&& forall|j: int|
        0 <= j < files.len() ==> (#[trigger] stats[j]).path@ == files[j].path@
            && stats[j].size_bytes == files[j].size_bytes
}

/// `input` describes the input.
pub open spec fn is_input_stats(
    config: Config,
    files: Seq<InputFile>,
    rows: Seq<Row>,
    input: InputStats,
) -> bool {
    let columns = texts(config.partitioning.key_columns@);
    let keys = present_keys(rows, columns);
    let sizes = file_sizes(files);
    let pairs = input.key_frequencies.pairs();
    let alpha = config.partitioning.heavy_key_alpha;
    let width = row_width(files, rows.len());
    &&& input.total_rows == rows.len()
    &&& input.input_file_count == files.len()
    &&& lists_files(files, input.input_files@)
    &&& input.min_file_size_bytes == if files.len() == 0 {
        None
    } else {
        Some(smallest(sizes))
    }
    &&& input.max_file_size_bytes == if files.len() == 0 {
        None
    } else {
        Some(largest(sizes))
    }
    &&& match input.mean_file_size_bytes {
        None => files.len() == 0,
        Some(m) => files.len() > 0 && m.bits == encoded(mean_value(total(sizes), sizes.len())),
    }
    &&& input.small_file_count == count_below(sizes, mb_bytes(config.storage.min_file_size_mb@))
    &&& input.oversized_file_count == count_above(
        sizes,
        mb_bytes(config.storage.target_file_size_mb@),
    )
    &&& input.estimated_row_width_bytes == width
    &&& input.key_frequencies@ == expected_frequencies(config, keys)
    &&& input.distinct_keys == match config.statistics.heavy_hitter_mode {
        HeavyHitterMode::Exact => Some(pairs.len() as u64),
        HeavyHitterMode::Approximate => None,
    }
    &&& input.mean_key_frequency.bits == encoded(mean_frequency_value(pairs))
    &&& input.max_key_frequency == largest(pair_values(pairs))
    &&& heavy_plan_texts(input.heavy_hitter_candidates@) == placeholders(
        rows,
        columns,
        candidates(pairs, alpha),
    )
    &&& heavy_plan_texts(input.heavy_hitters@) == placeholders(
        rows,
        columns,
        heavy_keys_of(pairs, alpha, target_rows(config, rows.len() as u64, width) as u64),
    )
}

/// `stats` describes a dataset.
pub open spec fn is_statistics(
    config: Config,
    files: Seq<InputFile>,
    rows: Seq<Row>,
    stats: StatsMetadata,
) -> bool {
    let keys = present_keys(rows, texts(config.partitioning.key_columns@));
    let width = row_width(files, rows.len());
    let n = output_partition_count(config, rows.len() as u64, width) as usize;
    &&& stats.version@ == METADATA_VERSION@
    &&& is_input_stats(config, files, rows, stats.input)
    &&& is_detection(config, keys, stats.heavy_hitter_detection)
    &&& stats.storage.target_file_size_mb == config.storage.target_file_size_mb@
    &&& stats.storage.min_file_size_mb == config.storage.min_file_size_mb@
    &&& stats.storage.target_file_size_bytes == mb_bytes(config.storage.target_file_size_mb@)
    &&& stats.storage.min_file_size_bytes == mb_bytes(config.storage.min_file_size_mb@)
    &&& stats.join is None
    &&& is_skew(hashed_sizes(keys, n, config.partitioning.seed), stats.skew)
    &&& stats.estimates.target_partitions == n
    &&& stats.estimates.before_partition_sizes@ == hashed_sizes(keys, n, config.partitioning.seed)
    &&& stats.estimates.after_partition_sizes@ == Seq::new(n as nat, |p: int| 0u64)
    &&& is_resource_estimate(config, files, stats.resources)
    &&& stats.timing is None
}

/// The statistics of a dataset.
#[derive(Debug, Clone, PartialEq, Eq)]
pub struct ComputedStatistics {
    pub metadata: StatsMetadata,
}

/// Computes the statistics of a dataset. A dataset above the memory limit is
/// refused where the configuration says so.
pub fn compute_statistics(config: &Config, dataset: &InputDataset) -> (result: Result<
    ComputedStatistics,
    Error,
>)
    requires
        total(file_sizes(dataset.files@)) <= u64::MAX,
        row_width(dataset.files@, dataset.rows.rows@.len()) is Some
            ==> config.partitioning.min_partitions@ <= config.partitioning.max_partitions@,
    ensures
        match result {
            Ok(statistics) => {
                &&& !(exceeds_memory(*config, dataset.files@)
                    && config.resources.fail_on_memory_limit)
                &&& is_statistics(
                    *config,
                    dataset.files@,
                    dataset.rows.rows@,
                    statistics.metadata,
                )
                &&& total_frequency(statistics.metadata.input.key_frequencies.pairs())
                    == present_keys(
                    dataset.rows.rows@,
                    texts(config.partitioning.key_columns@),
                ).len()
                &&& total(statistics.metadata.estimates.before_partition_sizes@) == present_keys(
                    dataset.rows.rows@,
                    texts(config.partitioning.key_columns@),
                ).len()
            },
            Err(error) => exceeds_memory(*config, dataset.files@)
                && config.resources.fail_on_memory_limit && error == (
            Error::ResourceLimitExceeded {
                configured_memory_limit_mb: config.resources.memory_limit_mb,
                estimated_dataset_size_mb: size_mb(dataset.files@)->0,
            }),
        },
{
    let rows = &dataset.rows.rows;
    let key_columns = &config.partitioning.key_columns;
    let alpha = config.partitioning.heavy_key_alpha;
    let sizes = collect_file_sizes(&dataset.files);
    let total_bytes: u64 = add_up(&sizes);
    let resources = match resource_estimate(config, total_bytes, &dataset.files) {
        Ok(resources) => resources,
        Err(error) => return Err(error),
    };
    let file_summary = file_size_summary(config, &sizes);
    let keys = collect_keys(rows, key_columns);
    assert(keys@.len() == keys.len());
    let summary = key_frequency_summary(&keys, config);
    let frequencies = summary.frequencies;
    let total_rows: u64 = dataset.rows.row_count();
    let width = if total_rows > 0 && total_bytes > 0 {
        Some(ceil_div(total_bytes, total_rows))
    } else {
        None
    };
    let target = compute_target_partitioning(config, total_rows, width);
    let candidate_hitters = detect_heavy_hitter_candidates(&frequencies, alpha);
    let final_hitters = detect_final_heavy_keys(
        &frequencies,
        alpha,
        target.target_partition_rows,
    );
    let before = base_partition_sizes(
        &keys,
        target.output_partitions,
        config.partitioning.seed,
    );
    let skew = skew_stats(&before);
    let mean_key_frequency = pack(mean_of_frequencies(&frequencies));
    let max_key_frequency: u64 = max_frequency(&frequencies);
    let distinct_keys = match config.statistics.heavy_hitter_mode {
        HeavyHitterMode::Exact => Some(frequencies.len() as u64),
        HeavyHitterMode::Approximate => None,
    };
    let after: Vec<u64> = vec![0u64; target.output_partitions];
    proof {
        assert(after@ =~= Seq::new(target.output_partitions as nat, |p: int| 0u64));
        assert(keys@.len() == texts(keys@).len());
    }
    let metadata = StatsMetadata {
        version: METADATA_VERSION.to_owned(),
        input: InputStats {
            total_rows,
            input_file_count: dataset.files.len(),
            input_files: input_file_stats(&dataset.files),
            min_file_size_bytes: file_summary.min_file_size_bytes,
            max_file_size_bytes: file_summary.max_file_size_bytes,
            mean_file_size_bytes: file_summary.mean_file_size_bytes,
            small_file_count: file_summary.small_file_count,
            oversized_file_count: file_summary.oversized_file_count,
            estimated_row_width_bytes: width,
            distinct_keys,
            mean_key_frequency,
            max_key_frequency,
            heavy_hitter_candidates: heavy_key_plan_placeholders(
                rows,
                key_columns,
                &candidate_hitters,
            ),
            heavy_hitters: heavy_key_plan_placeholders(rows, key_columns, &final_hitters),
            key_frequencies: frequencies,
        },
        heavy_hitter_detection: summary.detection_metadata,
        storage: StorageMetadata {
            target_file_size_mb: config.storage.target_file_size_mb.get(),
            min_file_size_mb: config.storage.min_file_size_mb.get(),
            target_file_size_bytes: mb_to_bytes(config.storage.target_file_size_mb.get()),
            min_file_size_bytes: mb_to_bytes(config.storage.min_file_size_mb.get()),
        },
        join: None,
        skew,
        estimates: PartitionEstimates {
            target_partitions: target.output_partitions,
            before_partition_sizes: before,
            after_partition_sizes: after,
        },
        resources,
        timing: None,
    };
    Ok(ComputedStatistics { metadata })
}

impl ComputedStatistics {
    /// Records the partition sizes after the rows were assigned.
    pub fn set_after_partition_sizes(&mut self, partition_sizes: Vec<u64>)
        ensures
            *final(self) == (ComputedStatistics {
                metadata: StatsMetadata {
                    estimates: PartitionEstimates {
                        after_partition_sizes: partition_sizes,
                        ..old(self).metadata.estimates
                    },
                    ..old(self).metadata
                },
            }),
    {
        self.metadata.estimates.after_partition_sizes = partition_sizes;
    }

    /// Records how long the stages took.
    pub fn set_timing(&mut self, timing: TimingMetadata)
        ensures
            *final(self) == (ComputedStatistics {
                metadata: StatsMetadata { timing: Some(timing), ..old(self).metadata },
            }),
    {
        self.metadata.timing = Some(timing);
    }

    /// Records what was found out about the two sides of a join.
    pub fn set_join_statistics(&mut self, join: JoinStatisticsMetadata)
        ensures
            *final(self) == (ComputedStatistics {
                metadata: StatsMetadata { join: Some(join), ..old(self).metadata },
            }),
    {
        self.metadata.join = Some(join);
    }
}

} // verus!
