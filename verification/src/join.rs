//! Statistics of the two sides of a join.

use vstd::prelude::*;
use crate::arith::{add_up, total};
use crate::config::{same_config, Config, DatasetConfig, JobType, PartitioningConfig};
use crate::dataset::texts;
use crate::manifest::{
    copy_strings, heavy_plan_texts, plan_key_texts, HeavyKeyPlan, HeavyKeyPlanText, InputFileStats,
    JoinSideStatistics, JoinStatisticsMetadata, PlanKey, PlanKeyText, StatsMetadata,
};
use crate::statistics::ComputedStatistics;

verus! {

/// The sizes of listed files.
pub open spec fn listed_sizes(files: Seq<InputFileStats>) -> Seq<u64> {
    Seq::new(files.len(), |i: int| files[i].size_bytes)
}

/// The size of all listed files; unknown where they hold nothing.
pub open spec fn listed_bytes(files: Seq<InputFileStats>) -> Option<u64> {
    let bytes = total(listed_sizes(files));
    if bytes > 0 {
        Some(bytes as u64)
    } else {
        None
    }
}

/// The keys of heavy keys.
pub open spec fn heavy_key_texts(plans: Seq<HeavyKeyPlan>) -> Seq<Seq<char>> {
    Seq::new(plans.len(), |i: int| plans[i].key@)
}

/// The heavy keys whose values are known, with their values.
pub open spec fn known_values(plans: Seq<HeavyKeyPlan>) -> Seq<PlanKeyText> {
    heavy_plan_texts(plans).filter_map(|plan: HeavyKeyPlanText| plan.structured_key)
}

/// `side` is what the statistics of one side say.
pub open spec fn is_join_side(stats: StatsMetadata, side: JoinSideStatistics) -> bool {
    &&& side.total_rows == stats.input.total_rows
    &&& side.total_size_bytes == listed_bytes(stats.input.input_files@)
    &&& side.estimated_size_mb == stats.resources.estimated_dataset_size_mb
    &&& texts(side.heavy_keys@) == heavy_key_texts(stats.input.heavy_hitters@)
    &&& plan_key_texts(side.heavy_key_values@) == known_values(stats.input.heavy_hitters@)
}

/// The size of all listed files; nothing where they hold nothing.
pub fn total_listed_bytes(files: &Vec<InputFileStats>) -> (bytes: Option<u64>)
    requires
        total(listed_sizes(files@)) <= u64::MAX,
    ensures
        bytes == listed_bytes(files@),
{
    let mut sizes: Vec<u64> = Vec::new();
    let mut i: usize = 0;
    while i < files.len()
        invariant
            i <= files@.len(),
            sizes@.len() == i,
            forall|j: int| 0 <= j < i ==> #[trigger] sizes@[j] == files@[j].size_bytes,
        decreases files.len() - i,
    {
        sizes.push(files[i].size_bytes);
        i += 1;
    }
    assert(sizes@ =~= listed_sizes(files@));
    let sum: u64 = add_up(&sizes);
    if sum > 0 {
        Some(sum)
    } else {
        None
    }
}

fn heavy_key_names(plans: &Vec<HeavyKeyPlan>) -> (keys: Vec<String>)
    ensures
        texts(keys@) == heavy_key_texts(plans@),
{
    let mut keys: Vec<String> = Vec::new();
    let mut i: usize = 0;
    while i < plans.len()
        invariant
            i <= plans@.len(),
            keys@.len() == i,
            forall|j: int| 0 <= j < i ==> #[trigger] keys@[j]@ == plans@[j].key@,
        decreases plans.len() - i,
    {
        keys.push(plans[i].key.clone());
        i += 1;
    }
    assert(texts(keys@) =~= heavy_key_texts(plans@));
    keys
}

fn heavy_key_values(plans: &Vec<HeavyKeyPlan>) -> (values: Vec<PlanKey>)
    ensures
        plan_key_texts(values@) == known_values(plans@),
{
    let ghost all = heavy_plan_texts(plans@);
    let ghost f = |plan: HeavyKeyPlanText| plan.structured_key;
    let mut values: Vec<PlanKey> = Vec::new();
    let mut i: usize = 0;
    proof {
        reveal(Seq::filter_map);
        assert(all.take(0) =~= Seq::<HeavyKeyPlanText>::empty());
        assert(plan_key_texts(values@) =~= all.take(0).filter_map(f));
    }
    while i < plans.len()
        invariant
            i <= plans@.len(),
            all == heavy_plan_texts(plans@),
            f == (|plan: HeavyKeyPlanText| plan.structured_key),
            plan_key_texts(values@) == all.take(i as int).filter_map(f),
        decreases plans.len() - i,
    {
        let ghost before = values@;
        proof {
            all.lemma_filter_map_take_succ(f, i as int);
        }
        match &plans[i].structured_key {
            Some(key) => {
                values.push(key.clone());
                assert(f(all[i as int]) == Some(values@.last()@));
                assert(plan_key_texts(values@) =~= plan_key_texts(before).push(values@.last()@));
            },
            None => {
                assert(f(all[i as int]) is None);
            },
        }
        i += 1;
    }
    assert(all.take(i as int) =~= all);
    values
}

fn join_side(statistics: &ComputedStatistics) -> (side: JoinSideStatistics)
    requires
        total(listed_sizes(statistics.metadata.input.input_files@)) <= u64::MAX,
    ensures
        is_join_side(statistics.metadata, side),
{
    let input = &statistics.metadata.input;
    JoinSideStatistics {
        total_rows: input.total_rows,
        total_size_bytes: total_listed_bytes(&input.input_files),
        estimated_size_mb: statistics.metadata.resources.estimated_dataset_size_mb,
        heavy_keys: heavy_key_names(&input.heavy_hitters),
        heavy_key_values: heavy_key_values(&input.heavy_hitters),
    }
}

/// Puts the statistics of the two sides of a join together.
pub fn build_join_statistics(
    join_keys: Vec<String>,
    left: &ComputedStatistics,
    right: Option<&ComputedStatistics>,
) -> (join: JoinStatisticsMetadata)
    requires
        total(listed_sizes(left.metadata.input.input_files@)) <= u64::MAX,
        right matches Some(r) ==> total(listed_sizes(r.metadata.input.input_files@)) <= u64::MAX,
    ensures
        join.join_keys == join_keys,
        is_join_side(left.metadata, join.left),
        match (right, join.right) {
            (Some(r), Some(side)) => is_join_side(r.metadata, side),
            (None, None) => true,
            _ => false,
        },
{
    let right_side = match right {
        Some(statistics) => Some(join_side(statistics)),
        None => None,
    };
    JoinStatisticsMetadata { join_keys, left: join_side(left), right: right_side }
}

/// The join that a configuration asks for.
pub open spec fn wants_join(config: Config) -> bool {
    config.job.job_type == JobType::Join && config.join is Some
}

/// Reads the left side of the join that is asked for: its path and its keys take
/// the place of the input and the key columns.
pub fn apply_join_inputs(config: &mut Config)
    ensures
        wants_join(*old(config)) ==> {
            &&& final(config).dataset.input == old(config).join->0.left_input
            &&& final(config).partitioning.key_columns@ == old(config).join->0.join_keys@
        },
        !wants_join(*old(config)) ==> {
            &&& final(config).dataset.input == old(config).dataset.input
            &&& final(config).partitioning.key_columns == old(config).partitioning.key_columns
        },
        final(config).dataset.input_format == old(config).dataset.input_format,
        final(config).partitioning == (PartitioningConfig {
            key_columns: final(config).partitioning.key_columns,
            ..old(config).partitioning
        }),
        final(config).statistics == old(config).statistics,
        final(config).storage == old(config).storage,
        final(config).output == old(config).output,
        final(config).job == old(config).job,
        final(config).join == old(config).join,
        final(config).resources == old(config).resources,
{
    if config.job.job_type != JobType::Join {
        return ;
    }
    let (input, keys) = match &config.join {
        Some(join) => (join.left_input.clone(), copy_strings(&join.join_keys)),
        None => return ,
    };
    config.dataset.input = input;
    config.partitioning.key_columns = keys;
}

/// The configuration for the right side of the join that is asked for: its path
/// and the join keys take the place of the input and the key columns.
pub fn right_side_config(config: &Config) -> (right: Option<Config>)
    ensures
        match right {
            Some(side) => {
                &&& wants_join(*config)
                &&& side.partitioning.key_columns@ == config.join->0.join_keys@
                &&& same_config(
                    side,
                    Config {
                        dataset: DatasetConfig {
                            input: config.join->0.right_input,
                            ..config.dataset
                        },
                        partitioning: PartitioningConfig {
                            key_columns: side.partitioning.key_columns,
                            ..config.partitioning
                        },
                        ..*config
                    },
                )
            },
            None => !wants_join(*config),
        },
{
    if config.job.job_type != JobType::Join {
        return None;
    }
    match &config.join {
        Some(join) => {
            let mut side = config.clone();
            side.dataset.input = join.right_input.clone();
            side.partitioning.key_columns = copy_strings(&join.join_keys);
            Some(side)
        },
        None => None,
    }
}

} // verus!
