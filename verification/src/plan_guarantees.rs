//! What a plan promises, stated on the plan itself.

use vstd::prelude::*;
use crate::arith::{largest, largest_bounds, sum_over, total};
use crate::binary64::{max_mean_ratio, scaled_less, value_exceeds};
use crate::config::{Config, JobType, NormalKeyAssignment, RightSideMode};
use crate::dataset::texts;
use crate::hashing::key_hash;
use crate::heavy_hitters::{total_frequency, HeavyHitterText};
use crate::manifest::{
    plan_key_texts, HeavyKeyPlan, NormalKeyPlan, PartitionPlan, PlanAction, PlanKeyText,
    SaltPartitionPlan, StatsMetadata,
};
use crate::placement::{
    heavies_placed, heavy_loads, heavy_salt_partitions, hitter_bounded, is_least_loaded,
    least_loaded_in_range, least_loaded_partition, load_total, normal_partition, normal_plans,
    normals_placed, place_normals, place_salts, placement_order, placement_order_total, salt_plans,
    salts_of, salts_placed, salts_positive, taken_before,
};
use crate::planner::{
    improves_skew, is_plan, lists_encoded, load_numbers, plan_heavies, plan_lists, plan_loads,
    plan_normal_loads, plan_normals, plan_partitions, plan_partitions_positive, plan_rows,
    plannable, planned_heavy, right_values, valid_limits,
};
use crate::rounding::{
    larger_maximum_is_no_less_uneven, less_means_less, ratios_are_close, real_product, value,
};
use crate::skew::imbalance_value;
use crate::targeting::{
    is_target, missed_targets_have_a_reason, partitions_aim_at_their_share,
    partitions_hold_the_dataset, target_within_limits, unknown_width_takes_the_upper_limit,
    TargetPartitioning,
};
use crate::text::{decimal, text_less};

verus! {

/// A plan lists the keys that are not heavy by falling frequency, and keys of one
/// frequency in their own order.
pub proof fn normal_keys_fall_in_frequency(
    config: Config,
    stats: StatsMetadata,
    seconds: u64,
    plan: PartitionPlan,
    i: int,
    j: int,
)
    requires
        is_plan(config, stats, seconds, plan),
        0 <= i < j < plan.normal_keys@.len(),
    ensures
        plan.normal_keys@[i].estimated_frequency >= plan.normal_keys@[j].estimated_frequency,
        plan.normal_keys@[i].estimated_frequency == plan.normal_keys@[j].estimated_frequency
            ==> plan.normal_keys@[i].key@ == plan.normal_keys@[j].key@ || text_less(
            plan.normal_keys@[i].key@,
            plan.normal_keys@[j].key@,
        ),
{
    plan_lists(config, stats, plan);
    let normals = plan_normals(config, stats);
    let pairs = stats.input.key_frequencies.pairs();
    let kept = pairs.filter(
        |pair: (Seq<char>, u64)|
            crate::heavy_hitters::heavy_of(
                pairs,
                config.partitioning.heavy_key_alpha,
                plan_rows(config, stats),
                pair,
            ) is None,
    );
    let leq = placement_order();
    placement_order_total();
    kept.lemma_sort_by_ensures(leq);
    assert(leq(normals[i], normals[j]));
    assert(plan.normal_keys@[i]@.key == normals[i].0);
    assert(plan.normal_keys@[j]@.key == normals[j].0);
}

/// The rows that listed keys bring to a partition.
pub open spec fn listed_on(keys: Seq<NormalKeyPlan>, p: int) -> nat
    decreases keys.len(),
{
    if keys.len() == 0 {
        0
    } else {
        listed_on(keys.drop_last(), p) + if keys.last().partition_id == p {
            keys.last().estimated_frequency as nat
        } else {
            0
        }
    }
}

proof fn listed_is_placed(
    keys: Seq<(Seq<char>, u64)>,
    mode: NormalKeyAssignment,
    n: usize,
    seed: u64,
    plans: Seq<NormalKeyPlan>,
)
    requires
        n > 0,
        plans.len() == keys.len(),
        forall|k: int|
            0 <= k < keys.len() ==> {
                &&& (#[trigger] plans[k]).estimated_frequency == keys[k].1
                &&& plans[k].partition_id == place_normals(keys, mode, n, seed).partitions[k]
            },
    ensures
        forall|p: int|
            0 <= p < n ==> #[trigger] place_normals(keys, mode, n, seed).loads[p] == listed_on(
                plans,
                p,
            ),
    decreases keys.len(),
{
    if keys.len() > 0 {
        let rest = keys.drop_last();
        let fewer = plans.drop_last();
        let last = keys.len() - 1;
        normals_placed(rest, mode, n, seed);
        normals_placed(keys, mode, n, seed);
        let before = place_normals(rest, mode, n, seed);
        let after = place_normals(keys, mode, n, seed);
        assert forall|k: int| 0 <= k < rest.len() implies {
            &&& (#[trigger] fewer[k]).estimated_frequency == rest[k].1
            &&& fewer[k].partition_id == before.partitions[k]
        } by {
            assert(fewer[k] == plans[k]);
            assert(after.partitions[k] == before.partitions[k]);
        }
        listed_is_placed(rest, mode, n, seed, fewer);
        assert(plans[last].partition_id == after.partitions[last]);
        assert forall|p: int| 0 <= p < n implies #[trigger] after.loads[p] == listed_on(plans, p) by {
            assert(before.loads[p] == listed_on(fewer, p));
        }
    }
}

proof fn plan_normals_listed(config: Config, stats: StatsMetadata, seconds: u64, plan: PartitionPlan)
    requires
        valid_limits(config),
        is_plan(config, stats, seconds, plan),
    ensures
        plan_normal_loads(config, stats).len() == plan.output_partitions,
        forall|p: int|
            0 <= p < plan.output_partitions ==> #[trigger] plan_normal_loads(config, stats)[p]
                == listed_on(plan.normal_keys@, p),
{
    plan_lists(config, stats, plan);
    plan_partitions_positive(config, stats);
    let normals = plan_normals(config, stats);
    let mode = config.partitioning.normal_key_assignment;
    let n = plan_partitions(config, stats);
    let seed = config.partitioning.seed;
    normals_placed(normals, mode, n, seed);
    let placed = place_normals(normals, mode, n, seed);
    assert forall|k: int| 0 <= k < normals.len() implies {
        &&& (#[trigger] plan.normal_keys@[k]).estimated_frequency == normals[k].1
        &&& plan.normal_keys@[k].partition_id == placed.partitions[k]
    } by {
        assert(plan.normal_keys@[k]@ == normal_plans(normals, placed.partitions)[k]);
    }
    listed_is_placed(normals, mode, n, seed, plan.normal_keys@);
}

proof fn placed_prefix(
    keys: Seq<(Seq<char>, u64)>,
    mode: NormalKeyAssignment,
    n: usize,
    seed: u64,
    k: int,
)
    requires
        n > 0,
        0 <= k < keys.len(),
    ensures
        place_normals(keys, mode, n, seed).partitions[k] == normal_partition(
            keys[k].0,
            mode,
            place_normals(keys.take(k), mode, n, seed).loads,
            seed,
        ),
        place_normals(keys, mode, n, seed).partitions.take(k) == place_normals(
            keys.take(k),
            mode,
            n,
            seed,
        ).partitions,
    decreases keys.len(),
{
    let rest = keys.drop_last();
    normals_placed(rest, mode, n, seed);
    normals_placed(keys, mode, n, seed);
    if k == keys.len() - 1 {
        assert(keys.take(k) =~= rest);
        assert(place_normals(keys, mode, n, seed).partitions.take(k) =~= place_normals(
            rest,
            mode,
            n,
            seed,
        ).partitions);
    } else {
        placed_prefix(rest, mode, n, seed, k);
        assert(rest.take(k) =~= keys.take(k));
        assert(place_normals(keys, mode, n, seed).partitions.take(k) =~= place_normals(
            rest,
            mode,
            n,
            seed,
        ).partitions.take(k));
    }
}

/// Placed by load, each key goes to a partition that the keys listed before it load
/// least; of several, to the one whose hash with the key is lowest, and of these to the
/// first.
pub proof fn normal_keys_go_where_least_is(
    config: Config,
    stats: StatsMetadata,
    seconds: u64,
    plan: PartitionPlan,
    k: int,
    q: int,
)
    requires
        valid_limits(config),
        is_plan(config, stats, seconds, plan),
        config.partitioning.normal_key_assignment == NormalKeyAssignment::LoadAware,
        0 <= k < plan.normal_keys@.len(),
        0 <= q < plan.output_partitions,
    ensures
        ({
            let p = plan.normal_keys@[k].partition_id as int;
            let earlier = plan.normal_keys@.take(k);
            let stem = plan.normal_keys@[k].key@ + "|candidate="@;
            let p_hash = key_hash(plan.seed, stem + decimal(p as nat));
            let q_hash = key_hash(plan.seed, stem + decimal(q as nat));
            &&& listed_on(earlier, p) <= listed_on(earlier, q)
            &&& listed_on(earlier, p) == listed_on(earlier, q) ==> p_hash <= q_hash
            &&& listed_on(earlier, p) == listed_on(earlier, q) && p_hash == q_hash ==> p <= q
        }),
{
    plan_lists(config, stats, plan);
    plan_partitions_positive(config, stats);
    let normals = plan_normals(config, stats);
    let mode = config.partitioning.normal_key_assignment;
    let n = plan_partitions(config, stats);
    let seed = config.partitioning.seed;
    normals_placed(normals, mode, n, seed);
    let placed = place_normals(normals, mode, n, seed);
    let done = normals.take(k);
    normals_placed(done, mode, n, seed);
    placed_prefix(normals, mode, n, seed, k);
    let before = place_normals(done, mode, n, seed);
    let earlier = plan.normal_keys@.take(k);
    assert forall|i: int| 0 <= i < done.len() implies {
        &&& (#[trigger] earlier[i]).estimated_frequency == done[i].1
        &&& earlier[i].partition_id == before.partitions[i]
    } by {
        assert(plan.normal_keys@[i]@ == normal_plans(normals, placed.partitions)[i]);
        assert(placed.partitions.take(k)[i] == placed.partitions[i]);
    }
    listed_is_placed(done, mode, n, seed, earlier);
    assert(plan.normal_keys@[k]@ == normal_plans(normals, placed.partitions)[k]);
    least_loaded_in_range(before.loads, normals[k].0, None, seed);
    let p = plan.normal_keys@[k].partition_id as int;
    assert(is_least_loaded(before.loads, normals[k].0, None, seed, p));
    assert(before.loads[p] == listed_on(earlier, p));
    assert(before.loads[q] == listed_on(earlier, q));
    if p != q {
        assert(taken_before(before.loads, normals[k].0, None, seed, p, q));
    }
}

/// Placed by hash, each key goes to the partition that its hash selects.
pub proof fn normal_keys_go_where_their_hash_is(
    config: Config,
    stats: StatsMetadata,
    seconds: u64,
    plan: PartitionPlan,
    k: int,
)
    requires
        valid_limits(config),
        is_plan(config, stats, seconds, plan),
        config.partitioning.normal_key_assignment == NormalKeyAssignment::Hash,
        0 <= k < plan.normal_keys@.len(),
    ensures
        plan.normal_keys@[k].partition_id == (key_hash(
            plan.seed,
            plan.normal_keys@[k].key@,
        ) as usize) % plan.output_partitions,
{
    plan_lists(config, stats, plan);
    plan_partitions_positive(config, stats);
    let normals = plan_normals(config, stats);
    let mode = config.partitioning.normal_key_assignment;
    let n = plan_partitions(config, stats);
    let seed = config.partitioning.seed;
    normals_placed(normals.take(k), mode, n, seed);
    placed_prefix(normals, mode, n, seed, k);
    let placed = place_normals(normals, mode, n, seed);
    assert(plan.normal_keys@[k]@ == normal_plans(normals, placed.partitions)[k]);
}

proof fn total_is_sum(loads: Seq<nat>, f: spec_fn(int) -> nat)
    requires
        forall|p: int| 0 <= p < loads.len() ==> #[trigger] loads[p] == f(p),
    ensures
        load_total(loads) == sum_over(f, loads.len()),
    decreases loads.len(),
{
    if loads.len() > 0 {
        let rest = loads.drop_last();
        assert forall|p: int| 0 <= p < rest.len() implies #[trigger] rest[p] == f(p) by {
            assert(rest[p] == loads[p]);
        }
        total_is_sum(rest, f);
        assert(loads[loads.len() - 1] == f(loads.len() - 1));
    }
}

proof fn unsalted_loads(config: Config, stats: StatsMetadata, seconds: u64, plan: PartitionPlan)
    requires
        valid_limits(config),
        plannable(config, stats),
        is_plan(config, stats, seconds, plan),
        plan.heavy_keys@.len() == 0,
    ensures
        ({
            let planned = load_numbers(plan_loads(config, stats));
            &&& planned.len() == plan.output_partitions
            &&& forall|p: int|
                0 <= p < planned.len() ==> #[trigger] planned[p] == listed_on(
                    plan.normal_keys@,
                    p,
                )
            &&& total(planned) == sum_over(
                |p: int| listed_on(plan.normal_keys@, p),
                plan.output_partitions as nat,
            )
        }),
{
    plan_lists(config, stats, plan);
    plan_normals_listed(config, stats, seconds, plan);
    plan_partitions_positive(config, stats);
    let loads = plan_loads(config, stats);
    assert(plan_heavies(config, stats).len() == 0);
    assert(loads == plan_normal_loads(config, stats));
    normals_placed(
        plan_normals(config, stats),
        config.partitioning.normal_key_assignment,
        plan_partitions(config, stats),
        config.partitioning.seed,
    );
    crate::placement::frequencies_split(
        stats.input.key_frequencies.pairs(),
        config.partitioning.heavy_key_alpha,
        plan_rows(config, stats),
    );
    if !stats.heavy_hitter_detection.normal_keys_materialized {
        assert(crate::heavy_hitters::pair_values(plan_normals(config, stats)) =~= Seq::<
            u64,
        >::empty());
    }
    assert(load_total(loads) <= u64::MAX);
    assert forall|p: int| 0 <= p < loads.len() implies #[trigger] loads[p] <= u64::MAX by {
        load_bounded(loads, p);
    }
    let planned = load_numbers(loads);
    assert(crate::placement::load_values(planned) =~= loads);
    crate::placement::load_total_values(planned);
    total_is_sum(loads, |p: int| listed_on(plan.normal_keys@, p));
}

proof fn load_bounded(loads: Seq<nat>, p: int)
    requires
        0 <= p < loads.len(),
    ensures
        loads[p] <= load_total(loads),
    decreases loads.len(),
{
    if p < loads.len() - 1 {
        load_bounded(loads.drop_last(), p);
    }
}

/// No number is above a limit.
pub open spec fn none_above(numbers: Seq<u64>, limit: nat) -> bool {
    forall|i: int| 0 <= i < numbers.len() ==> #[trigger] numbers[i] <= limit
}

/// A dataset with partitions that are too large or too uneven is left as it is only if
/// the plan has as many rows as there were and does not lower the largest partition:
/// some planned partition is as large as each of those before.
pub proof fn no_lower_maximum_is_turned_down(
    config: Config,
    stats: StatsMetadata,
    seconds: u64,
    plan: PartitionPlan,
)
    requires
        valid_limits(config),
        plannable(config, stats),
        is_plan(config, stats, seconds, plan),
        !plan.rewrite_required,
        stats.skew.max_partition_size > plan.target_partition_rows || value_exceeds(
            stats.skew.max_mean_imbalance_ratio,
            config.partitioning.no_op_max_imbalance_ratio,
        ),
    ensures
        plan.heavy_keys@.len() == 0,
        sum_over(
            |p: int| listed_on(plan.normal_keys@, p),
            plan.output_partitions as nat,
        ) == total(stats.estimates.before_partition_sizes@),
        exists|p: int|
            0 <= p < plan.output_partitions && none_above(
                stats.estimates.before_partition_sizes@,
                #[trigger] listed_on(plan.normal_keys@, p),
            ),
{
    plan_lists(config, stats, plan);
    plan_partitions_positive(config, stats);
    unsalted_loads(config, stats, seconds, plan);
    let before = stats.estimates.before_partition_sizes@;
    let planned = load_numbers(plan_loads(config, stats));
    largest_bounds(before);
    largest_bounds(planned);
    let p = choose|p: int| 0 <= p < planned.len() && planned[p] == largest(planned);
    assert(planned[p] == listed_on(plan.normal_keys@, p));
    assert(none_above(before, listed_on(plan.normal_keys@, p)));
}

/// A rewrite has a cause: it is forced, a key is heavy, or a partition is too large or
/// too uneven. The plan names the first of these that holds.
pub proof fn rewrites_have_a_cause(
    config: Config,
    stats: StatsMetadata,
    seconds: u64,
    plan: PartitionPlan,
)
    requires
        plannable(config, stats),
        is_plan(config, stats, seconds, plan),
        plan.rewrite_required,
    ensures
        ({
            let large = stats.skew.max_partition_size > plan.target_partition_rows;
            let uneven = value_exceeds(
                stats.skew.max_mean_imbalance_ratio,
                config.partitioning.no_op_max_imbalance_ratio,
            );
            let reason = plan.cost_estimate.reason@;
            &&& config.partitioning.force_rewrite || plan.heavy_keys@.len() > 0 || large || uneven
            &&& config.partitioning.force_rewrite ==> reason == "force_rewrite"@
            &&& !config.partitioning.force_rewrite && plan.heavy_keys@.len() > 0 ==> reason
                == "heavy_keys_detected"@
            &&& !config.partitioning.force_rewrite && plan.heavy_keys@.len() == 0 && large
                ==> reason == "max_partition_exceeds_target_rows"@
            &&& !config.partitioning.force_rewrite && plan.heavy_keys@.len() == 0 && !large
                ==> reason == "imbalance_ratio_exceeds_no_op_threshold"@
        }),
        plan.skip_reason is None,
        plan.cost_estimate.rewrite_required,
        plan.cost_estimate.estimated_rows_read == stats.input.total_rows,
        plan.cost_estimate.estimated_rows_written == stats.input.total_rows,
        plan.cost_estimate.estimated_bytes_read == plan.cost_estimate.estimated_bytes_written,
        plan.cost_estimate.estimated_bytes_read is None <==> total(
            Seq::new(
                stats.input.input_files@.len(),
                |i: int| stats.input.input_files@[i].size_bytes,
            ),
        ) == 0,
        plan.cost_estimate.estimated_bytes_read matches Some(bytes) ==> bytes > 0 && bytes == total(
            Seq::new(
                stats.input.input_files@.len(),
                |i: int| stats.input.input_files@[i].size_bytes,
            ),
        ),
{
    plan_lists(config, stats, plan);
    assert(crate::join::listed_sizes(stats.input.input_files@) =~= Seq::new(
        stats.input.input_files@.len(),
        |i: int| stats.input.input_files@[i].size_bytes,
    ));
}

/// A dataset with partitions that are neither too large nor too uneven is left as it
/// is, unless a rewrite is forced or a key is heavy.
pub proof fn even_datasets_are_left(
    config: Config,
    stats: StatsMetadata,
    seconds: u64,
    plan: PartitionPlan,
)
    requires
        is_plan(config, stats, seconds, plan),
        !config.partitioning.force_rewrite,
        plan.heavy_keys@.len() == 0,
        stats.skew.max_partition_size <= plan.target_partition_rows,
        !value_exceeds(
            stats.skew.max_mean_imbalance_ratio,
            config.partitioning.no_op_max_imbalance_ratio,
        ),
    ensures
        !plan.rewrite_required,
        plan.action == PlanAction::NoOp,
        plan.skip_reason matches Some(reason) && reason@ == "no_rewrite_needed"@,
{
    plan_lists(config, stats, plan);
}

/// A join is planned exactly where one is asked for and its statistics are known. The
/// plan repeats the heavy keys of both sides, and a key is shared exactly if it is heavy
/// on both.
pub proof fn shared_keys_are_heavy_on_both_sides(
    config: Config,
    stats: StatsMetadata,
    seconds: u64,
    plan: PartitionPlan,
    key: Seq<char>,
)
    requires
        is_plan(config, stats, seconds, plan),
    ensures
        plan.join_plan is Some <==> config.job.job_type == JobType::Join && config.join is Some
            && stats.join is Some,
        plan.join_plan matches Some(join) ==> {
            &&& texts(join.left_heavy_keys@) == texts(stats.join->0.left.heavy_keys@)
            &&& stats.join->0.right matches Some(right) ==> texts(join.right_heavy_keys@) == texts(
                right.heavy_keys@,
            ) && join.right_side_size_mb == right.estimated_size_mb
            &&& stats.join->0.right is None ==> join.right_heavy_keys@.len() == 0
                && join.right_side_size_mb is None
            &&& texts(join.shared_heavy_keys@).contains(key) <==> texts(
                join.left_heavy_keys@,
            ).contains(key) && texts(join.right_heavy_keys@).contains(key)
        },
{
    if plan.join_plan is Some {
        let join = plan.join_plan->0;
        let known = stats.join->0;
        let left = texts(known.left.heavy_keys@);
        let right = crate::planner::right_heavy(known);
        let keep = |k: Seq<char>| right.contains(k);
        let shared = left.filter(keep);
        assert(shared == crate::planner::shared_heavy(known)) by {
            assert(keep =~= (|k: Seq<char>| crate::planner::right_heavy(known).contains(k)));
        }
        assert(texts(join.right_heavy_keys@).len() == join.right_heavy_keys@.len());
        if shared.contains(key) {
            left.lemma_filter_contains_rev(keep, key);
            let i = choose|i: int| 0 <= i < shared.len() && shared[i] == key;
            left.lemma_filter_pred(keep, i);
        }
        if left.contains(key) && right.contains(key) {
            broadcast use vstd::seq_lib::group_filter_ensures;

            let i = choose|i: int| 0 <= i < left.len() && left[i] == key;
            assert(keep(left[i]));
            assert(left.filter(keep).contains(left[i]));
        }
    }
}

proof fn join_strategies_differ()
    ensures
        "broadcast_join_recommendation"@.len() == 29,
        "salted_heavy_key_join"@.len() == 21,
        "heavy_key_isolation_join"@.len() == 24,
        "physical_only"@.len() == 13,
        "broadcast_join"@.len() == 14,
        "physical_repartitioning"@.len() == 23,
        "physical_repartitioning_with_filter_awareness"@.len() == 45,
        "two_stage_group_by"@.len() == 18,
        "generic_join_repartitioning"@.len() == 27,
{
    reveal_strlit("broadcast_join_recommendation");
    reveal_strlit("salted_heavy_key_join");
    reveal_strlit("heavy_key_isolation_join");
    reveal_strlit("physical_only");
    reveal_strlit("broadcast_join");
    reveal_strlit("physical_repartitioning");
    reveal_strlit("physical_repartitioning_with_filter_awareness");
    reveal_strlit("two_stage_group_by");
    reveal_strlit("generic_join_repartitioning");
}

/// The join that is recommended follows from the two sides: the right side is sent to
/// all exactly if the configuration allows it and the side is known to be small; else
/// keys that are heavy on both sides are salted; else heavy keys of one side are set
/// apart; else nothing is asked of the join.
pub proof fn join_strategy_fits_the_sides(
    config: Config,
    stats: StatsMetadata,
    seconds: u64,
    plan: PartitionPlan,
)
    requires
        is_plan(config, stats, seconds, plan),
        plan.join_plan is Some,
    ensures
        ({
            let join = plan.join_plan->0;
            let strategy = join.recommended_strategy@;
            let small = config.join->0.right_side_mode == RightSideMode::BroadcastIfSmall
                && join.right_side_size_mb is Some && join.right_side_size_mb->0
                <= config.join->0.broadcast_threshold_mb;
            let shared = join.shared_heavy_keys@.len() > 0;
            let heavy = join.left_heavy_keys@.len() > 0 || join.right_heavy_keys@.len() > 0;
            let advised = plan.recommended_downstream_plan;
            &&& join.broadcast_threshold_mb == Some(config.join->0.broadcast_threshold_mb)
            &&& small <==> strategy == "broadcast_join_recommendation"@
            &&& !small && shared <==> strategy == "salted_heavy_key_join"@
            &&& !small && !shared && heavy <==> strategy == "heavy_key_isolation_join"@
            &&& !small && !shared && !heavy <==> strategy == "physical_only"@
            &&& small <==> advised.strategy@ == "broadcast_join"@
            &&& !small && shared <==> advised.strategy@ == "salted_heavy_key_join"@
            &&& !small && !shared && heavy <==> advised.strategy@ == "heavy_key_isolation_join"@
            &&& !small && !shared && !heavy <==> advised.strategy@ == "physical_repartitioning"@
            &&& advised.requires_operator_rewrite <==> small || shared || heavy
        }),
{
    join_strategies_differ();
    let join = plan.join_plan->0;
    assert(texts(join.shared_heavy_keys@).len() == join.shared_heavy_keys@.len());
    assert(texts(join.left_heavy_keys@).len() == join.left_heavy_keys@.len());
    assert(texts(join.right_heavy_keys@).len() == join.right_heavy_keys@.len());
    assert(texts(stats.join->0.left.heavy_keys@).len() == stats.join->0.left.heavy_keys@.len());
    if join.shared_heavy_keys@.len() > 0 {
        let key = texts(join.shared_heavy_keys@)[0];
        assert(texts(join.shared_heavy_keys@).contains(key));
        shared_keys_are_heavy_on_both_sides(config, stats, seconds, plan, key);
        assert(texts(join.left_heavy_keys@).len() > 0);
    }
}

/// Where the configuration asks for a shuffle of the right side, no plan sends it to
/// all.
pub proof fn shuffled_sides_are_not_broadcast(
    config: Config,
    stats: StatsMetadata,
    seconds: u64,
    plan: PartitionPlan,
)
    requires
        is_plan(config, stats, seconds, plan),
        config.join matches Some(join) && join.right_side_mode == RightSideMode::Shuffle,
    ensures
        plan.join_plan matches Some(join) ==> join.recommended_strategy@
            != "broadcast_join_recommendation"@,
        plan.recommended_downstream_plan.strategy@ != "broadcast_join"@,
{
    join_strategies_differ();
    if plan.join_plan is Some {
        join_strategy_fits_the_sides(config, stats, seconds, plan);
    }
}

/// A group-by is told to aggregate twice: first by the technical columns and the keys,
/// where these columns are written, then by the keys. Other jobs get no group keys, and
/// joins alone get join keys.
pub proof fn group_by_is_done_in_two_stages(
    config: Config,
    stats: StatsMetadata,
    seconds: u64,
    plan: PartitionPlan,
)
    requires
        is_plan(config, stats, seconds, plan),
    ensures
        ({
            let advised = plan.recommended_downstream_plan;
            let keys = texts(config.partitioning.key_columns@);
            let first = texts(advised.partial_group_keys@);
            let last = texts(advised.final_group_keys@);
            let included = config.output.include_technical_columns;
            &&& advised.job_type == config.job.job_type
            &&& config.job.job_type == JobType::GroupBy <==> advised.strategy@
                == "two_stage_group_by"@
            &&& config.job.job_type == JobType::GroupBy ==> {
                &&& last == keys
                &&& included ==> first.len() == keys.len() + 2 && first[0]
                    == config.output.partition_column@ && first[1] == config.output.salt_column@
                    && first.skip(2) == keys
                &&& !included ==> first == keys
                &&& advised.requires_operator_rewrite
            }
            &&& config.job.job_type != JobType::GroupBy ==> first.len() == 0 && last.len() == 0
            &&& config.job.job_type == JobType::Join ==> texts(advised.join_keys@) == match config.join {
                Some(join) => texts(join.join_keys@),
                None => keys,
            }
            &&& config.job.job_type != JobType::Join ==> advised.join_keys@.len() == 0
            &&& config.job.job_type == JobType::Scan || config.job.job_type == JobType::Generic
                || config.job.job_type == JobType::Filter ==> !advised.requires_operator_rewrite
            &&& advised.partition_column is Some <==> included
            &&& advised.salt_column is Some <==> included
            &&& advised.heavy_key_column is Some <==> included
            &&& included ==> advised.partition_column->0@ == config.output.partition_column@
                && advised.salt_column->0@ == config.output.salt_column@
                && advised.heavy_key_column->0@ == config.output.heavy_key_column@
            &&& !included <==> texts(advised.notes@).contains("technical_columns_disabled"@)
        }),
{
    join_strategies_differ();
    reveal_strlit("technical_columns_disabled");
    reveal_strlit("filter_selectivity_unknown");
    reveal_strlit("method_aware_group_by_requires_technical_columns");
    reveal_strlit("join_plan_missing");
    reveal_strlit("right_side_broadcastable");
    reveal_strlit("shared_heavy_keys_detected");
    reveal_strlit("one_sided_heavy_keys_detected");
    reveal_strlit("no_join_heavy_keys_detected");
    let advised = plan.recommended_downstream_plan;
    let keys = texts(config.partitioning.key_columns@);
    let first = texts(advised.partial_group_keys@);
    let notes = texts(advised.notes@);
    assert(texts(advised.join_keys@).len() == advised.join_keys@.len());
    assert(texts(advised.partial_group_keys@).len() == advised.partial_group_keys@.len());
    assert(Seq::<Seq<char>>::empty().len() == 0);
    if config.job.job_type == JobType::GroupBy && config.output.include_technical_columns {
        assert(first.skip(2) =~= keys);
    }
    if !config.output.include_technical_columns {
        assert(notes[0] == "technical_columns_disabled"@);
    } else {
        let disabled = "technical_columns_disabled"@;
        assert(disabled[0] == 't');
        assert("filter_selectivity_unknown"@[0] == 'f');
        assert("join_plan_missing"@[0] == 'j');
        assert("right_side_broadcastable"@[0] == 'r');
        assert("shared_heavy_keys_detected"@[0] == 's');
        assert("one_sided_heavy_keys_detected"@[0] == 'o');
        assert("no_join_heavy_keys_detected"@[0] == 'n');
    }
}

/// A rewrite that is neither forced nor due to heavy keys, with as many rows and
/// partitions as before, lowers the largest partition: some partition before was larger
/// than each that is planned.
pub proof fn rewrites_lower_the_maximum(
    config: Config,
    stats: StatsMetadata,
    seconds: u64,
    plan: PartitionPlan,
)
    requires
        valid_limits(config),
        plannable(config, stats),
        is_plan(config, stats, seconds, plan),
        plan.rewrite_required,
        !config.partitioning.force_rewrite,
        plan.heavy_keys@.len() == 0,
        stats.estimates.before_partition_sizes@.len() == plan.output_partitions,
        sum_over(
            |p: int| listed_on(plan.normal_keys@, p),
            plan.output_partitions as nat,
        ) == total(stats.estimates.before_partition_sizes@),
    ensures
        exists|b: int|
            0 <= b < stats.estimates.before_partition_sizes@.len() && forall|p: int|
                0 <= p < plan.output_partitions ==> #[trigger] listed_on(plan.normal_keys@, p)
                    < #[trigger] stats.estimates.before_partition_sizes@[b],
{
    plan_lists(config, stats, plan);
    plan_partitions_positive(config, stats);
    unsalted_loads(config, stats, seconds, plan);
    let before = stats.estimates.before_partition_sizes@;
    let planned = load_numbers(plan_loads(config, stats));
    largest_bounds(before);
    largest_bounds(planned);
    if largest(planned) >= largest(before) {
        larger_maximum_is_no_less_uneven(
            largest(before) as nat,
            largest(planned) as nat,
            total(before),
            before.len(),
        );
    }
    let b = choose|b: int| 0 <= b < before.len() && before[b] == largest(before);
    assert forall|p: int| 0 <= p < plan.output_partitions implies #[trigger] listed_on(
        plan.normal_keys@,
        p,
    ) < before[b] by {
        assert(planned[p] == listed_on(plan.normal_keys@, p));
    }
}

/// A heavy key has as many salts as partitions of the rows that one should hold are
/// needed for its rows, at least one, and each salt once.
pub proof fn salts_are_as_many_as_needed(
    config: Config,
    stats: StatsMetadata,
    seconds: u64,
    plan: PartitionPlan,
    j: int,
)
    requires
        valid_limits(config),
        is_plan(config, stats, seconds, plan),
        0 <= j < plan.heavy_keys@.len(),
        plan.heavy_keys@[j].estimated_frequency <= usize::MAX,
    ensures
        ({
            let heavy = plan.heavy_keys@[j];
            &&& heavy.salt_count >= 1
            &&& heavy.salt_count * plan.target_partition_rows >= heavy.estimated_frequency
            &&& heavy.salt_count == 1 || (heavy.salt_count - 1) * plan.target_partition_rows
                < heavy.estimated_frequency
            &&& heavy.salt_partitions@.len() == heavy.salt_count
            &&& forall|s: int|
                0 <= s < heavy.salt_count ==> (#[trigger] heavy.salt_partitions@[s]).salt_index == s
        }),
{
    crate::planner::plan_salts_heavy_keys(config, stats, seconds, plan, j);
    crate::targeting::target_within_limits(
        config,
        stats.input.total_rows,
        stats.input.estimated_row_width_bytes,
    );
    let f = plan.heavy_keys@[j].estimated_frequency as int;
    let r = plan.target_partition_rows as int;
    let c = (f + r - 1) / r;
    assert(c * r >= f && (c - 1) * r < f) by (nonlinear_arith)
        requires
            c == (f + r - 1) / r,
            f >= 0,
            r >= 1,
    ;
    if c < 1 {
        assert(1 * r >= c * r) by (nonlinear_arith)
            requires
                c < 1,
                r >= 1,
        ;
    }
}

/// The rows of share `s` where `number` rows are shared out as evenly as can be.
pub open spec fn share_of(number: nat, shares: nat, s: int) -> nat {
    number / shares + if s < number % shares {
        1nat
    } else {
        0nat
    }
}

/// The rows that salts of a heavy key bring to a partition.
pub open spec fn salts_on(salts: Seq<SaltPartitionPlan>, frequency: nat, shares: nat, p: int) -> nat
    decreases salts.len(),
{
    if salts.len() == 0 {
        0
    } else {
        salts_on(salts.drop_last(), frequency, shares, p) + if salts.last().partition_id == p {
            share_of(frequency, shares, salts.len() - 1)
        } else {
            0
        }
    }
}

/// The rows that heavy keys bring to a partition.
pub open spec fn heavies_on(keys: Seq<HeavyKeyPlan>, p: int) -> nat
    decreases keys.len(),
{
    if keys.len() == 0 {
        0
    } else {
        heavies_on(keys.drop_last(), p) + salts_on(
            keys.last().salt_partitions@,
            keys.last().estimated_frequency as nat,
            keys.last().salt_count as nat,
            p,
        )
    }
}

/// The rows that a plan gives a partition.
pub open spec fn planned_on(plan: PartitionPlan, p: int) -> nat {
    listed_on(plan.normal_keys@, p) + heavies_on(plan.heavy_keys@, p)
}

proof fn salts_on_is_placed(
    loads: Seq<nat>,
    key: Seq<char>,
    frequency: u64,
    salt_count: usize,
    salts: nat,
    seed: u64,
    plans: Seq<SaltPartitionPlan>,
)
    requires
        0 < loads.len() <= usize::MAX,
        0 < salt_count,
        salts <= salt_count,
        plans.len() == salts,
        forall|s: int|
            0 <= s < salts ==> (#[trigger] plans[s]).partition_id == place_salts(
                loads,
                key,
                frequency,
                salt_count,
                salts,
                seed,
            ).partitions[s],
    ensures
        forall|p: int|
            0 <= p < loads.len() ==> #[trigger] place_salts(
                loads,
                key,
                frequency,
                salt_count,
                salts,
                seed,
            ).loads[p] == loads[p] + salts_on(plans, frequency as nat, salt_count as nat, p),
    decreases salts,
{
    if salts > 0 {
        let fewer = (salts - 1) as nat;
        let rest = plans.drop_last();
        salts_placed(loads, key, frequency, salt_count, fewer, seed);
        salts_placed(loads, key, frequency, salt_count, salts, seed);
        let before = place_salts(loads, key, frequency, salt_count, fewer, seed);
        let after = place_salts(loads, key, frequency, salt_count, salts, seed);
        assert forall|s: int| 0 <= s < fewer implies (#[trigger] rest[s]).partition_id
            == before.partitions[s] by {
            assert(rest[s] == plans[s]);
            assert(after.partitions[s] == before.partitions[s]);
        }
        salts_on_is_placed(loads, key, frequency, salt_count, fewer, seed, rest);
        assert(plans[salts - 1].partition_id == after.partitions[salts - 1]);
        least_loaded_in_range(before.loads, key, Some(fewer as usize), seed);
        assert forall|p: int| 0 <= p < loads.len() implies #[trigger] after.loads[p] == loads[p]
            + salts_on(plans, frequency as nat, salt_count as nat, p) by {
            assert(before.loads[p] == loads[p] + salts_on(
                rest,
                frequency as nat,
                salt_count as nat,
                p,
            ));
        }
    }
}

proof fn salts_prefix(
    loads: Seq<nat>,
    key: Seq<char>,
    frequency: u64,
    salt_count: usize,
    salts: nat,
    seed: u64,
    s: nat,
)
    requires
        0 < loads.len() <= usize::MAX,
        salts <= salt_count,
        s < salts,
    ensures
        ({
            let all = place_salts(loads, key, frequency, salt_count, salts, seed);
            let some = place_salts(loads, key, frequency, salt_count, s, seed);
            &&& all.partitions[s as int] == least_loaded_partition(
                some.loads,
                key,
                Some(s as usize),
                seed,
            ) as usize
            &&& all.partitions.take(s as int) == some.partitions
        }),
    decreases salts,
{
    let fewer = (salts - 1) as nat;
    salts_placed(loads, key, frequency, salt_count, fewer, seed);
    salts_placed(loads, key, frequency, salt_count, salts, seed);
    let all = place_salts(loads, key, frequency, salt_count, salts, seed);
    let rest = place_salts(loads, key, frequency, salt_count, fewer, seed);
    if s == fewer {
        assert(all.partitions.take(s as int) =~= rest.partitions);
    } else {
        salts_prefix(loads, key, frequency, salt_count, fewer, seed, s);
        assert(all.partitions.take(s as int) =~= rest.partitions.take(s as int));
    }
}

/// `plans` are heavy keys with their salts.
spec fn salts_heavies(
    loads: Seq<nat>,
    heavies: Seq<HeavyHitterText>,
    rows: u64,
    seed: u64,
    plans: Seq<HeavyKeyPlan>,
) -> bool {
    &&& plans.len() == heavies.len()
    &&& forall|j: int|
        0 <= j < heavies.len() ==> {
            &&& (#[trigger] plans[j]).estimated_frequency == heavies[j].frequency
            &&& plans[j].key@ == heavies[j].key
            &&& plans[j].salt_count == salts_of(heavies[j].frequency, rows)
            &&& plans[j].salt_count > 0
            &&& plans[j].salt_partitions@ == salt_plans(
                heavy_salt_partitions(loads, heavies, rows, seed, j),
            )
        }
}

proof fn heavies_on_is_placed(
    loads: Seq<nat>,
    heavies: Seq<HeavyHitterText>,
    rows: u64,
    seed: u64,
    plans: Seq<HeavyKeyPlan>,
)
    requires
        0 < loads.len() <= usize::MAX,
        salts_heavies(loads, heavies, rows, seed, plans),
    ensures
        heavy_loads(loads, heavies, rows, seed).len() == loads.len(),
        forall|p: int|
            0 <= p < loads.len() ==> #[trigger] heavy_loads(loads, heavies, rows, seed)[p]
                == loads[p] + heavies_on(plans, p),
    decreases heavies.len(),
{
    heavies_placed(loads, heavies, rows, seed);
    if heavies.len() > 0 {
        let rest = heavies.drop_last();
        let fewer = plans.drop_last();
        let last = heavies.len() - 1;
        assert forall|j: int| 0 <= j < rest.len() implies {
            &&& (#[trigger] fewer[j]).estimated_frequency == rest[j].frequency
            &&& fewer[j].key@ == rest[j].key
            &&& fewer[j].salt_count == salts_of(rest[j].frequency, rows)
            &&& fewer[j].salt_count > 0
            &&& fewer[j].salt_partitions@ == salt_plans(
                heavy_salt_partitions(loads, rest, rows, seed, j),
            )
        } by {
            assert(fewer[j] == plans[j]);
            assert(rest.take(j) =~= heavies.take(j));
        }
        heavies_on_is_placed(loads, rest, rows, seed, fewer);
        heavies_placed(loads, rest, rows, seed);
        let heavy = heavies[last];
        let count = salts_of(heavy.frequency, rows);
        let before = heavy_loads(loads, rest, rows, seed);
        assert(heavies.take(last) =~= rest);
        assert(plans[last].salt_count == count);
        salts_placed(before, heavy.key, heavy.frequency, count, count as nat, seed);
        let placed = place_salts(before, heavy.key, heavy.frequency, count, count as nat, seed);
        let salts = plans[last].salt_partitions@;
        assert(salts == salt_plans(placed.partitions));
        salts_on_is_placed(
            before,
            heavy.key,
            heavy.frequency,
            count,
            count as nat,
            seed,
            salts,
        );
        assert forall|p: int| 0 <= p < loads.len() implies #[trigger] heavy_loads(
            loads,
            heavies,
            rows,
            seed,
        )[p] == loads[p] + heavies_on(plans, p) by {
            assert(before[p] == loads[p] + heavies_on(fewer, p));
            assert(placed.loads[p] == before[p] + salts_on(
                salts,
                heavy.frequency as nat,
                count as nat,
                p,
            ));
        }
    }
}

proof fn plan_salts_heavies(config: Config, stats: StatsMetadata, seconds: u64, plan: PartitionPlan)
    requires
        valid_limits(config),
        is_plan(config, stats, seconds, plan),
        forall|j: int|
            0 <= j < plan.heavy_keys@.len() ==> (
            #[trigger] plan.heavy_keys@[j]).estimated_frequency <= usize::MAX,
    ensures
        salts_heavies(
            plan_normal_loads(config, stats),
            plan_heavies(config, stats),
            plan_rows(config, stats),
            config.partitioning.seed,
            plan.heavy_keys@,
        ),
        0 < plan_normal_loads(config, stats).len() <= usize::MAX,
{
    plan_lists(config, stats, plan);
    plan_partitions_positive(config, stats);
    plan_normals_listed(config, stats, seconds, plan);
    let heavies = plan_heavies(config, stats);
    let rows = plan_rows(config, stats);
    assert forall|j: int| 0 <= j < heavies.len() implies {
        &&& (#[trigger] plan.heavy_keys@[j]).estimated_frequency == heavies[j].frequency
        &&& plan.heavy_keys@[j].key@ == heavies[j].key
        &&& plan.heavy_keys@[j].salt_count == salts_of(heavies[j].frequency, rows)
        &&& plan.heavy_keys@[j].salt_count > 0
        &&& plan.heavy_keys@[j].salt_partitions@ == salt_plans(
            heavy_salt_partitions(
                plan_normal_loads(config, stats),
                heavies,
                rows,
                config.partitioning.seed,
                j,
            ),
        )
    } by {
        assert(plan.heavy_keys@[j]@ == planned_heavy(config, stats, j));
        salts_positive(heavies[j].frequency, rows);
    }
}

/// What a plan lists for a partition is the load that the plan was made for.
pub proof fn planned_loads_are_listed(
    config: Config,
    stats: StatsMetadata,
    seconds: u64,
    plan: PartitionPlan,
    p: int,
)
    requires
        valid_limits(config),
        is_plan(config, stats, seconds, plan),
        forall|j: int|
            0 <= j < plan.heavy_keys@.len() ==> (
            #[trigger] plan.heavy_keys@[j]).estimated_frequency <= usize::MAX,
        0 <= p < plan.output_partitions,
    ensures
        plan_loads(config, stats)[p] == planned_on(plan, p),
        plan_loads(config, stats).len() == plan.output_partitions,
{
    plan_normals_listed(config, stats, seconds, plan);
    plan_salts_heavies(config, stats, seconds, plan);
    let loads = plan_normal_loads(config, stats);
    heavies_on_is_placed(
        loads,
        plan_heavies(config, stats),
        plan_rows(config, stats),
        config.partitioning.seed,
        plan.heavy_keys@,
    );
    assert(loads[p] == listed_on(plan.normal_keys@, p));
    assert(heavy_loads(
        loads,
        plan_heavies(config, stats),
        plan_rows(config, stats),
        config.partitioning.seed,
    )[p] == loads[p] + heavies_on(plan.heavy_keys@, p));
}

/// Each salt of a heavy key goes to a partition that the other keys, the heavy keys
/// before it and its earlier salts load least; of several, to the one whose hash with
/// key and salt is lowest, and of these to the first.
pub proof fn salts_go_where_least_is(
    config: Config,
    stats: StatsMetadata,
    seconds: u64,
    plan: PartitionPlan,
    j: int,
    s: int,
    q: int,
)
    requires
        valid_limits(config),
        is_plan(config, stats, seconds, plan),
        forall|j: int|
            0 <= j < plan.heavy_keys@.len() ==> (
            #[trigger] plan.heavy_keys@[j]).estimated_frequency <= usize::MAX,
        0 <= j < plan.heavy_keys@.len(),
        0 <= s < plan.heavy_keys@[j].salt_partitions@.len(),
        0 <= q < plan.output_partitions,
    ensures
        ({
            let heavy = plan.heavy_keys@[j];
            let p = heavy.salt_partitions@[s].partition_id as int;
            let load = |x: int|
                listed_on(plan.normal_keys@, x) + heavies_on(plan.heavy_keys@.take(j), x)
                    + salts_on(
                    heavy.salt_partitions@.take(s),
                    heavy.estimated_frequency as nat,
                    heavy.salt_count as nat,
                    x,
                );
            let stem = heavy.key@ + "|salt="@ + decimal(s as nat) + "|candidate="@;
            let p_hash = key_hash(plan.seed, stem + decimal(p as nat));
            let q_hash = key_hash(plan.seed, stem + decimal(q as nat));
            &&& 0 <= p < plan.output_partitions
            &&& load(p) <= load(q)
            &&& load(p) == load(q) ==> p_hash <= q_hash
            &&& load(p) == load(q) && p_hash == q_hash ==> p <= q
        }),
{
    plan_normals_listed(config, stats, seconds, plan);
    plan_salts_heavies(config, stats, seconds, plan);
    let loads = plan_normal_loads(config, stats);
    let heavies = plan_heavies(config, stats);
    let rows = plan_rows(config, stats);
    let seed = config.partitioning.seed;
    let done = heavies.take(j);
    let earlier = plan.heavy_keys@.take(j);
    assert forall|i: int| 0 <= i < done.len() implies {
        &&& (#[trigger] earlier[i]).estimated_frequency == done[i].frequency
        &&& earlier[i].key@ == done[i].key
        &&& earlier[i].salt_count == salts_of(done[i].frequency, rows)
        &&& earlier[i].salt_count > 0
        &&& earlier[i].salt_partitions@ == salt_plans(
            heavy_salt_partitions(loads, done, rows, seed, i),
        )
    } by {
        assert(earlier[i] == plan.heavy_keys@[i]);
        assert(done.take(i) =~= heavies.take(i));
    }
    heavies_on_is_placed(loads, done, rows, seed, earlier);
    let before = heavy_loads(loads, done, rows, seed);
    let heavy = plan.heavy_keys@[j];
    let count = salts_of(heavies[j].frequency, rows);
    let key = heavies[j].key;
    let frequency = heavies[j].frequency;
    salts_placed(before, key, frequency, count, count as nat, seed);
    let placed = place_salts(before, key, frequency, count, count as nat, seed);
    assert(heavy.salt_partitions@ == salt_plans(placed.partitions));
    salts_prefix(before, key, frequency, count, count as nat, seed, s as nat);
    salts_placed(before, key, frequency, count, s as nat, seed);
    let some = place_salts(before, key, frequency, count, s as nat, seed);
    let salts = heavy.salt_partitions@.take(s);
    assert forall|t: int| 0 <= t < s implies (#[trigger] salts[t]).partition_id
        == some.partitions[t] by {
        assert(placed.partitions.take(s)[t] == placed.partitions[t]);
    }
    salts_on_is_placed(before, key, frequency, count, s as nat, seed, salts);
    least_loaded_in_range(some.loads, key, Some(s as usize), seed);
    let p = heavy.salt_partitions@[s].partition_id as int;
    assert(is_least_loaded(some.loads, key, Some(s as usize), seed, p));
    assert(some.loads[p] == before[p] + salts_on(salts, frequency as nat, count as nat, p));
    assert(some.loads[q] == before[q] + salts_on(salts, frequency as nat, count as nat, q));
    assert(before[p] == loads[p] + heavies_on(earlier, p));
    assert(before[q] == loads[q] + heavies_on(earlier, q));
    assert(loads[p] == listed_on(plan.normal_keys@, p));
    assert(loads[q] == listed_on(plan.normal_keys@, q));
    if p != q {
        assert(taken_before(some.loads, key, Some(s as usize), seed, p, q));
    }
}

/// Placement by load prevents skew: no partition is planned to hold more rows than the
/// mean of all and the rows that one should hold together.
pub proof fn planned_partitions_are_even(
    config: Config,
    stats: StatsMetadata,
    seconds: u64,
    plan: PartitionPlan,
    p: int,
)
    requires
        valid_limits(config),
        is_plan(config, stats, seconds, plan),
        config.partitioning.normal_key_assignment == NormalKeyAssignment::LoadAware,
        total_frequency(stats.input.key_frequencies.pairs()) <= usize::MAX,
        0 <= p < plan.output_partitions,
    ensures
        plan.output_partitions * planned_on(plan, p) <= sum_over(
            |x: int| planned_on(plan, x),
            plan.output_partitions as nat,
        ) + plan.output_partitions * plan.target_partition_rows,
{
    heavies_fit(config, stats, seconds, plan);
    crate::balance::load_aware_plan_is_even(config, stats);
    let loads = plan_loads(config, stats);
    planned_loads_are_listed(config, stats, seconds, plan, p);
    assert forall|x: int| 0 <= x < loads.len() implies #[trigger] loads[x] == (|x: int|
        planned_on(plan, x))(x) by {
        planned_loads_are_listed(config, stats, seconds, plan, x);
    }
    total_is_sum(loads, |x: int| planned_on(plan, x));
    assert(loads.len() * loads[p] <= load_total(loads) + loads.len() * plan_rows(config, stats));
}

proof fn heavies_fit(config: Config, stats: StatsMetadata, seconds: u64, plan: PartitionPlan)
    requires
        is_plan(config, stats, seconds, plan),
        total_frequency(stats.input.key_frequencies.pairs()) <= usize::MAX,
    ensures
        forall|j: int|
            0 <= j < plan.heavy_keys@.len() ==> (
            #[trigger] plan.heavy_keys@[j]).estimated_frequency <= usize::MAX,
{
    plan_lists(config, stats, plan);
    let heavies = plan_heavies(config, stats);
    crate::placement::frequencies_split(
        stats.input.key_frequencies.pairs(),
        config.partitioning.heavy_key_alpha,
        plan_rows(config, stats),
    );
    assert forall|j: int| 0 <= j < plan.heavy_keys@.len() implies (
    #[trigger] plan.heavy_keys@[j]).estimated_frequency <= usize::MAX by {
        assert(plan.heavy_keys@[j]@ == planned_heavy(config, stats, j));
        hitter_bounded(heavies, j);
    }
}

/// With all keys known, the plan has a place for every row that has a key: the
/// partitions together are planned to hold as many rows as the keys have.
pub proof fn planned_rows_add_up(
    config: Config,
    stats: StatsMetadata,
    seconds: u64,
    plan: PartitionPlan,
)
    requires
        valid_limits(config),
        is_plan(config, stats, seconds, plan),
        stats.heavy_hitter_detection.normal_keys_materialized,
        total_frequency(stats.input.key_frequencies.pairs()) <= usize::MAX,
    ensures
        sum_over(|x: int| planned_on(plan, x), plan.output_partitions as nat) == total_frequency(
            stats.input.key_frequencies.pairs(),
        ),
{
    heavies_fit(config, stats, seconds, plan);
    plan_partitions_positive(config, stats);
    crate::planner::plan_loads_add_up(config, stats);
    let loads = plan_loads(config, stats);
    assert forall|x: int| 0 <= x < loads.len() implies #[trigger] loads[x] == (|x: int|
        planned_on(plan, x))(x) by {
        planned_loads_are_listed(config, stats, seconds, plan, x);
    }
    total_is_sum(loads, |x: int| planned_on(plan, x));
}

/// A plan has partitions of the target size, where the limits allow it: they hold the
/// whole dataset, and with one partition less they would not, unless the lower limit
/// asks for it. Where the upper limit forbids it, or the width of rows is not known, as
/// many partitions are planned as are allowed, and the plan says why.
pub proof fn plans_fit_the_target(
    config: Config,
    stats: StatsMetadata,
    unix_seconds: u64,
    plan: PartitionPlan,
)
    requires
        is_plan(config, stats, unix_seconds, plan),
        valid_limits(config),
    ensures
        ({
            let min = config.partitioning.min_partitions@ as int;
            let max = config.partitioning.max_partitions@ as int;
            let megabytes = config.partitioning.target_partition_size_mb@ as int;
            let bytes = if megabytes * 1_048_576 > u64::MAX {
                u64::MAX as int
            } else {
                megabytes * 1_048_576
            };
            let rows = stats.input.total_rows as int;
            let required = plan.required_partitions_by_size as int;
            let output = plan.output_partitions as int;
            let met = plan.feasibility.target_partition_size_satisfied;
            let share = plan.target_partition_rows as int;
            &&& min <= output <= max
            &&& share >= 1
            &&& share == 1 || (share - 1) * output < rows
            &&& met <==> plan.feasibility.reason is None
            &&& match stats.input.estimated_row_width_bytes {
                None => {
                    &&& output == max
                    &&& required == max
                    &&& share * output >= rows
                    &&& plan.feasibility.reason matches Some(reason) && reason@
                        == "estimated_row_width_unavailable"@
                },
                Some(width) => {
                    let dataset = if rows * width > u64::MAX {
                        u64::MAX as int
                    } else {
                        rows * width
                    };
                    &&& required == 1 || (required - 1) * bytes < dataset
                    &&& required < usize::MAX ==> required * bytes >= dataset
                    &&& met <==> required <= max
                    &&& met && required < usize::MAX ==> output * bytes >= dataset
                    &&& met ==> output == min || (output - 1) * bytes < dataset
                    &&& !met ==> output == max && max * bytes < dataset
                    &&& share == 1 || share * width <= bytes
                    &&& share * output >= rows || (share + 1) * (if width == 0 {
                        1
                    } else {
                        width as int
                    }) > bytes
                    &&& plan.feasibility.reason matches Some(reason) ==> reason@
                        == "required_partitions_exceed_max_partitions"@
                },
            }
        }),
{
    let rows = stats.input.total_rows;
    let width = stats.input.estimated_row_width_bytes;
    let target = choose|target: TargetPartitioning| #[trigger]
        is_target(config, rows, width, target) && plan.required_partitions_by_size
            == target.required_partitions_by_size
            && plan.feasibility.target_partition_size_satisfied == target.target_size_satisfied
            && plan.feasibility.reason == target.reason;
    target_within_limits(config, rows, width);
    partitions_aim_at_their_share(config, rows, width, target);
    match width {
        Some(w) => {
            partitions_hold_the_dataset(config, rows, w, target);
            missed_targets_have_a_reason(config, rows, w, target);
        },
        None => {
            unknown_width_takes_the_upper_limit(config, rows, target);
        },
    }
}

/// A plan repeats what it was asked for.
pub proof fn plans_repeat_their_configuration(
    config: Config,
    stats: StatsMetadata,
    unix_seconds: u64,
    plan: PartitionPlan,
)
    requires
        is_plan(config, stats, unix_seconds, plan),
    ensures
        plan.version@ == "0.2.0"@,
        plan.hash_function@ == "fnv1a64_seeded"@,
        plan.created_at@ == "unix_seconds:"@ + decimal(unix_seconds as nat),
        plan.strategy == config.partitioning.strategy,
        plan.key_columns@ == config.partitioning.key_columns@,
        plan.seed == config.partitioning.seed,
        plan.job_type == config.job.job_type,
        plan.downstream_engine == config.job.downstream_engine,
        plan.target_partition_size_mb == config.partitioning.target_partition_size_mb@,
        plan.min_partitions == config.partitioning.min_partitions@,
        plan.max_partitions == config.partitioning.max_partitions@,
        plan.normal_key_assignment == config.partitioning.normal_key_assignment,
        plan.technical_columns.included == config.output.include_technical_columns,
        plan.technical_columns.partition_column == config.output.partition_column,
        plan.technical_columns.salt_column == config.output.salt_column,
        plan.technical_columns.heavy_key_column == config.output.heavy_key_column,
        plan.rewrite_required <==> plan.action == PlanAction::Rewrite,
        plan.rewrite_required <==> plan.skip_reason is None,
{
}

/// A dataset that is left as it is costs nothing: no row and no byte is read or
/// written. The plan says why, and the cost names the same reason.
pub proof fn skipped_rewrites_cost_nothing(
    config: Config,
    stats: StatsMetadata,
    seconds: u64,
    plan: PartitionPlan,
)
    requires
        is_plan(config, stats, seconds, plan),
        !plan.rewrite_required,
    ensures
        !config.partitioning.force_rewrite,
        plan.heavy_keys@.len() == 0,
        plan.action == PlanAction::NoOp,
        !plan.cost_estimate.rewrite_required,
        plan.cost_estimate.estimated_rows_read == 0,
        plan.cost_estimate.estimated_rows_written == 0,
        plan.cost_estimate.estimated_bytes_read == Some(0u64),
        plan.cost_estimate.estimated_bytes_written == Some(0u64),
        plan.skip_reason is Some,
        plan.cost_estimate.reason@ == plan.skip_reason->0@,
        stats.skew.max_partition_size > plan.target_partition_rows || value_exceeds(
            stats.skew.max_mean_imbalance_ratio,
            config.partitioning.no_op_max_imbalance_ratio,
        ) ==> plan.skip_reason->0@ == "planned_distribution_does_not_improve_skew"@,
{
    plan_lists(config, stats, plan);
}

/// The values of a heavy key of the left side are shared exactly if the right side
/// lists the same key with values; the plan repeats the values of both sides.
pub proof fn shared_values_are_listed_on_both_sides(
    config: Config,
    stats: StatsMetadata,
    seconds: u64,
    plan: PartitionPlan,
    values: PlanKeyText,
)
    requires
        is_plan(config, stats, seconds, plan),
        plan.join_plan is Some,
    ensures
        ({
            let join = plan.join_plan->0;
            let left = plan_key_texts(join.left_heavy_key_values@);
            let right = plan_key_texts(join.right_heavy_key_values@);
            &&& left == plan_key_texts(stats.join->0.left.heavy_key_values@)
            &&& stats.join->0.right matches Some(side) ==> right == plan_key_texts(
                side.heavy_key_values@,
            )
            &&& stats.join->0.right is None ==> right.len() == 0
            &&& plan_key_texts(join.shared_heavy_key_values@).contains(values) <==> left.contains(
                values,
            ) && exists|i: int| 0 <= i < right.len() && #[trigger] right[i].encoded == values.encoded
        }),
{
    let known = stats.join->0;
    let left = plan_key_texts(known.left.heavy_key_values@);
    let right = right_values(known);
    let keep = |key: PlanKeyText| lists_encoded(right_values(known), key.encoded);
    let shared = left.filter(keep);
    assert(shared == plan_key_texts(plan.join_plan->0.shared_heavy_key_values@));
    if shared.contains(values) {
        left.lemma_filter_contains_rev(keep, values);
        let i = choose|i: int| 0 <= i < shared.len() && shared[i] == values;
        left.lemma_filter_pred(keep, i);
    }
    if left.contains(values) && lists_encoded(right, values.encoded) {
        let i = choose|i: int| 0 <= i < left.len() && left[i] == values;
        left.lemma_filter_contains(keep, i);
    }
}

/// The notes say what the advice rests on: first whether technical columns are missing,
/// then what is special about the job.
pub proof fn notes_say_what_the_advice_rests_on(
    config: Config,
    stats: StatsMetadata,
    seconds: u64,
    plan: PartitionPlan,
)
    requires
        is_plan(config, stats, seconds, plan),
    ensures
        ({
            let notes = texts(plan.recommended_downstream_plan.notes@);
            let included = config.output.include_technical_columns;
            let missing = if included {
                0int
            } else {
                1int
            };
            let job = config.job.job_type;
            let strategy = plan.recommended_downstream_plan.strategy@;
            &&& !included ==> notes[0] == "technical_columns_disabled"@
            &&& job == JobType::Scan || job == JobType::Generic ==> notes.len() == missing
                && strategy == "physical_repartitioning"@
            &&& job == JobType::Filter ==> notes.len() == missing + 1 && notes[missing]
                == "filter_selectivity_unknown"@ && strategy
                == "physical_repartitioning_with_filter_awareness"@
            &&& job == JobType::GroupBy && included ==> notes.len() == 0
            &&& job == JobType::GroupBy && !included ==> notes.len() == 2 && notes[1]
                == "method_aware_group_by_requires_technical_columns"@
            &&& job == JobType::Join ==> notes.len() == missing + 1
            &&& job == JobType::Join && plan.join_plan is None ==> notes[missing]
                == "join_plan_missing"@ && strategy == "generic_join_repartitioning"@
                && plan.recommended_downstream_plan.requires_operator_rewrite
            &&& plan.join_plan matches Some(join) ==> {
                let recommended = join.recommended_strategy@;
                &&& recommended == "broadcast_join_recommendation"@ ==> notes[missing]
                    == "right_side_broadcastable"@
                &&& recommended == "salted_heavy_key_join"@ ==> notes[missing]
                    == "shared_heavy_keys_detected"@
                &&& recommended == "heavy_key_isolation_join"@ ==> notes[missing]
                    == "one_sided_heavy_keys_detected"@
                &&& recommended == "physical_only"@ ==> notes[missing]
                    == "no_join_heavy_keys_detected"@
            }
        }),
{
    join_strategies_differ();
}

/// Sizes with another sum than before count as an improvement, and so do sizes that all
/// lie below one of those before.
pub proof fn lower_sizes_improve(before: Seq<u64>, after: Seq<u64>, b: int)
    requires
        total(after) != total(before) || (0 <= b < before.len() && before[b] > 0 && forall|a: int|
            0 <= a < after.len() ==> #[trigger] after[a] < before[b]),
    ensures
        improves_skew(before, after),
{
    largest_bounds(before);
    largest_bounds(after);
}

/// As many sizes with the same sum are no improvement if one of them is as large as each
/// before.
pub proof fn no_lower_size_is_no_improvement(before: Seq<u64>, after: Seq<u64>, a: int)
    requires
        total(after) == total(before),
        after.len() == before.len(),
        0 <= a < after.len(),
        forall|b: int| 0 <= b < before.len() ==> #[trigger] before[b] <= after[a],
    ensures
        !improves_skew(before, after),
{
    largest_bounds(before);
    largest_bounds(after);
    assert(largest(before) <= after[a] <= largest(after));
    larger_maximum_is_no_less_uneven(
        largest(before) as nat,
        largest(after) as nat,
        total(before),
        before.len(),
    );
}

/// Whatever their number, sizes with the same sum improve on those before if the largest
/// is clearly smaller in terms of the mean: by more than one part in `2^46`.
pub proof fn lower_ratio_improves(before: Seq<u64>, after: Seq<u64>, b: int)
    requires
        total(after) == total(before),
        total(before) > 0,
        0 <= b < before.len(),
        forall|a: int|
            0 <= a < after.len() ==> (#[trigger] after[a] * after.len()) * 0x8000_0000_0001 < (
            before[b] * before.len()) * 0x7FFF_FFFF_FFFF,
    ensures
        improves_skew(before, after),
{
    largest_bounds(before);
    largest_bounds(after);
    some_size_is_positive(after);
    some_size_is_positive(before);
    let a = choose|a: int| 0 <= a < after.len() && after[a] == largest(after);
    let x = largest(after) as int * after.len();
    let y = largest(before) as int * before.len();
    assert(after[a] as int * after.len() == x);
    assert(before[b] as int * before.len() <= y) by (nonlinear_arith)
        requires
            before[b] as int <= largest(before) as int,
            y == largest(before) as int * before.len(),
    ;
    clearly_ordered(
        largest(after) as nat,
        after.len(),
        largest(before) as nat,
        before.len(),
        total(before),
    );
}

/// Whatever their number, sizes with the same sum are no improvement if one of them is as
/// large as each before and clearly larger in terms of the mean: by more than one part
/// in `2^46`.
pub proof fn higher_ratio_is_no_improvement(before: Seq<u64>, after: Seq<u64>, a: int)
    requires
        total(after) == total(before),
        total(before) > 0,
        0 <= a < after.len(),
        forall|b: int| 0 <= b < before.len() ==> #[trigger] before[b] <= after[a],
        forall|b: int|
            0 <= b < before.len() ==> (#[trigger] before[b] * before.len()) * 0x8000_0000_0001 < (
            after[a] * after.len()) * 0x7FFF_FFFF_FFFF,
    ensures
        !improves_skew(before, after),
{
    largest_bounds(before);
    largest_bounds(after);
    some_size_is_positive(after);
    some_size_is_positive(before);
    let b = choose|b: int| 0 <= b < before.len() && before[b] == largest(before);
    let x = largest(after) as int * after.len();
    let y = largest(before) as int * before.len();
    assert(before[b] as int * before.len() == y);
    assert(after[a] as int * after.len() <= x) by (nonlinear_arith)
        requires
            after[a] as int <= largest(after) as int,
            x == largest(after) as int * after.len(),
    ;
    clearly_ordered(
        largest(before) as nat,
        before.len(),
        largest(after) as nat,
        after.len(),
        total(before),
    );
    less_means_less(imbalance_value(after), imbalance_value(before));
    less_means_less(imbalance_value(before), imbalance_value(after));
}

proof fn some_size_is_positive(sizes: Seq<u64>)
    requires
        total(sizes) > 0,
    ensures
        sizes.len() > 0,
        largest(sizes) > 0,
    decreases sizes.len(),
{
    if sizes.last() == 0 {
        some_size_is_positive(sizes.drop_last());
    }
    largest_bounds(sizes);
    largest_bounds(sizes.drop_last());
}

proof fn clearly_ordered(a: nat, m: nat, b: nat, n: nat, sum: nat)
    requires
        a > 0,
        m > 0,
        b > 0,
        n > 0,
        sum > 0,
        (a * m) * 0x8000_0000_0001 < (b * n) * 0x7FFF_FFFF_FFFF,
    ensures
        scaled_less(max_mean_ratio(a, sum, m), max_mean_ratio(b, sum, n)),
{
    ratios_are_close(a, sum, m);
    ratios_are_close(b, sum, n);
    less_means_less(max_mean_ratio(a, sum, m), max_mean_ratio(b, sum, n));
    real_product(a as int, m as int);
    real_product(b as int, n as int);
    let x = (a as real) * (m as real);
    let y = (b as real) * (n as real);
    assert(x == (a * m) as real && y == (b * n) as real);
    assert(x * (0x8000_0000_0001 as real) < y * (0x7FFF_FFFF_FFFF as real));
    let t = sum as real;
    let u = value(max_mean_ratio(a, sum, m));
    let v = value(max_mean_ratio(b, sum, n));
    assert(u * t < v * t);
    assert(u < v) by (nonlinear_arith)
        requires
            u * t < v * t,
            t > (0 as real),
    ;
}

} // verus!
