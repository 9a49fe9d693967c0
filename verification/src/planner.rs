//! The plan: which keys go where, whether a rewrite is worth its cost, and what
//! the job that follows should do.

use vstd::prelude::*;
use crate::arith::{add_up, find_largest, largest, total};
use crate::binary64::{greater, imbalance, less, scaled_less, value_exceeds};
use crate::config::{Config, JobType, JoinConfig, PartitioningStrategy, RightSideMode};
use crate::dataset::texts;
use crate::error::Error;
use crate::hashing::HASH_FUNCTION_NAME;
use crate::heavy_hitters::{
    detect_final_heavy_keys, heavy_keys_of, hitter_texts, total_frequency, HeavyHitter,
    HeavyHitterText,
};
use crate::join::{listed_bytes, listed_sizes, total_listed_bytes};
use crate::keymap::KeyMap;
use crate::manifest::{
    copy_plan_keys, copy_reasons, copy_strings, heavy_plan_texts, normal_plan_texts, plan_key_texts,
    CostEstimate, HeavyKeyPlan, HeavyKeyPlanText, JoinPlan, JoinStatisticsMetadata, PartitionPlan,
    PartitionPlanFeasibility, PlanAction, PlanKey, PlanKeyText, RecommendedDownstreamPlan,
    StatsMetadata, TechnicalColumns, METADATA_VERSION,
};
use crate::placement::{
    heavy_loads, heavy_salt_partitions, load_total, load_values, no_loads, normal_keys_in_order,
    normal_plans, order_normal_keys, pairs_at, place_heavy_key, place_normal_keys, place_normals,
    salt_count, salt_plans, salts_of,
};
use crate::skew::imbalance_value;
use crate::statistics::ComputedStatistics;
use crate::targeting::{compute_target_partitioning, is_target, output_partition_count, target_rows};
use crate::text::{decimal, push_decimal, same_text};

verus! {

/// A plan for a dataset.
#[derive(Debug, Clone, PartialEq, Eq)]
pub struct Plan {
    pub metadata: PartitionPlan,
}

/// The number of partitions of a plan.
pub open spec fn plan_partitions(config: Config, stats: StatsMetadata) -> usize {
    output_partition_count(
        config,
        stats.input.total_rows,
        stats.input.estimated_row_width_bytes,
    ) as usize
}

/// The rows that a partition of a plan should hold.
pub open spec fn plan_rows(config: Config, stats: StatsMetadata) -> u64 {
    target_rows(config, stats.input.total_rows, stats.input.estimated_row_width_bytes) as u64
}

/// The heavy keys of a plan, in key order.
pub open spec fn plan_heavies(config: Config, stats: StatsMetadata) -> Seq<HeavyHitterText> {
    heavy_keys_of(
        stats.input.key_frequencies.pairs(),
        config.partitioning.heavy_key_alpha,
        plan_rows(config, stats),
    )
}

/// The keys of a plan that are not heavy, in the order in which they are placed.
/// A truncated summary does not know them.
pub open spec fn plan_normals(config: Config, stats: StatsMetadata) -> Seq<(Seq<char>, u64)> {
    if stats.heavy_hitter_detection.normal_keys_materialized {
        normal_keys_in_order(
            stats.input.key_frequencies.pairs(),
            config.partitioning.heavy_key_alpha,
            plan_rows(config, stats),
        )
    } else {
        Seq::empty()
    }
}

/// The loads once the keys that are not heavy are placed.
pub open spec fn plan_normal_loads(config: Config, stats: StatsMetadata) -> Seq<nat> {
    place_normals(
        plan_normals(config, stats),
        config.partitioning.normal_key_assignment,
        plan_partitions(config, stats),
        config.partitioning.seed,
    ).loads
}

/// The loads once all keys are placed.
pub open spec fn plan_loads(config: Config, stats: StatsMetadata) -> Seq<nat> {
    heavy_loads(
        plan_normal_loads(config, stats),
        plan_heavies(config, stats),
        plan_rows(config, stats),
        config.partitioning.seed,
    )
}

/// The values of a key in a list of heavy keys; of several, the last.
pub open spec fn structured_in(plans: Seq<HeavyKeyPlanText>, key: Seq<char>) -> Option<PlanKeyText>
    decreases plans.len(),
{
    if plans.len() == 0 {
        None
    } else if plans.last().key == key && plans.last().structured_key is Some {
        plans.last().structured_key
    } else {
        structured_in(plans.drop_last(), key)
    }
}

/// The values of a key as the statistics know them.
pub open spec fn structured_for(stats: StatsMetadata, key: Seq<char>) -> Option<PlanKeyText> {
    structured_in(
        heavy_plan_texts(stats.input.heavy_hitters@) + heavy_plan_texts(
            stats.input.heavy_hitter_candidates@,
        ),
        key,
    )
}

/// Heavy key `j` of a plan with its salts.
pub open spec fn planned_heavy(config: Config, stats: StatsMetadata, j: int) -> HeavyKeyPlanText {
    let heavy = plan_heavies(config, stats)[j];
    HeavyKeyPlanText {
        key: heavy.key,
        structured_key: structured_for(stats, heavy.key),
        estimated_frequency: heavy.frequency,
        detection_reasons: heavy.reasons,
        salt_count: salts_of(heavy.frequency, plan_rows(config, stats)),
        salt_partitions: salt_plans(
            heavy_salt_partitions(
                plan_normal_loads(config, stats),
                plan_heavies(config, stats),
                plan_rows(config, stats),
                config.partitioning.seed,
                j,
            ),
        ),
    }
}

/// Loads as machine numbers.
pub open spec fn load_numbers(loads: Seq<nat>) -> Seq<u64> {
    Seq::new(loads.len(), |p: int| loads[p] as u64)
}

/// The planned sizes are less uneven than those before: another sum, a lower ratio
/// of the largest to the mean, or a lower maximum.
pub open spec fn improves_skew(before: Seq<u64>, after: Seq<u64>) -> bool {
    total(after) != total(before) || scaled_less(imbalance_value(after), imbalance_value(before))
        || largest(after) < largest(before)
}

/// Whether a rewrite is planned, and why.
pub struct Decision {
    pub rewrite: bool,
    pub reason: Seq<char>,
}

/// The decision to rewrite: when it is forced, for heavy keys, and for partitions
/// that are too large or too uneven, if the plan makes them less uneven.
pub open spec fn decision(
    config: Config,
    stats: StatsMetadata,
    target_partition_rows: u64,
    heavy_keys: nat,
    planned: Seq<u64>,
) -> Decision {
    let improves = improves_skew(stats.estimates.before_partition_sizes@, planned);
    if config.partitioning.force_rewrite {
        Decision { rewrite: true, reason: "force_rewrite"@ }
    } else if heavy_keys > 0 {
        Decision { rewrite: true, reason: "heavy_keys_detected"@ }
    } else if stats.skew.max_partition_size > target_partition_rows {
        if improves {
            Decision { rewrite: true, reason: "max_partition_exceeds_target_rows"@ }
        } else {
            Decision { rewrite: false, reason: "planned_distribution_does_not_improve_skew"@ }
        }
    } else if value_exceeds(
        stats.skew.max_mean_imbalance_ratio,
        config.partitioning.no_op_max_imbalance_ratio,
    ) {
        if improves {
            Decision { rewrite: true, reason: "imbalance_ratio_exceeds_no_op_threshold"@ }
        } else {
            Decision { rewrite: false, reason: "planned_distribution_does_not_improve_skew"@ }
        }
    } else {
        Decision { rewrite: false, reason: "no_rewrite_needed"@ }
    }
}

struct RewriteDecision {
    rewrite_required: bool,
    action: PlanAction,
    skip_reason: Option<String>,
    cost_reason: String,
}

/// `made` carries out a decision.
spec fn follows_decision(decision: Decision, made: RewriteDecision) -> bool {
    &&& made.rewrite_required == decision.rewrite
    &&& made.action == if decision.rewrite {
        PlanAction::Rewrite
    } else {
        PlanAction::NoOp
    }
    &&& made.cost_reason@ == decision.reason
    &&& match made.skip_reason {
        Some(reason) => !decision.rewrite && reason@ == decision.reason,
        None => decision.rewrite,
    }
}

fn no_rewrite(reason: &str) -> (made: RewriteDecision)
    ensures
        follows_decision(Decision { rewrite: false, reason: reason@ }, made),
{
    RewriteDecision {
        rewrite_required: false,
        action: PlanAction::NoOp,
        skip_reason: Some(reason.to_owned()),
        cost_reason: reason.to_owned(),
    }
}

fn rewrite(reason: &str) -> (made: RewriteDecision)
    ensures
        follows_decision(Decision { rewrite: true, reason: reason@ }, made),
{
    RewriteDecision {
        rewrite_required: true,
        action: PlanAction::Rewrite,
        skip_reason: None,
        cost_reason: reason.to_owned(),
    }
}

/// Whether the planned sizes are less uneven than those before.
pub fn planned_distribution_improves_skew(before: &Vec<u64>, planned: &Vec<u64>) -> (improves: bool)
    requires
        total(before@) <= u64::MAX,
        total(planned@) <= u64::MAX,
    ensures
        improves == improves_skew(before@, planned@),
{
    let before_sum: u64 = add_up(before);
    let after_sum: u64 = add_up(planned);
    if after_sum != before_sum {
        return true;
    }
    let before_max: u64 = find_largest(before);
    let after_max: u64 = find_largest(planned);
    let before_ratio = imbalance(before_max, before_sum, before.len() as u64);
    let after_ratio = imbalance(after_max, after_sum, planned.len() as u64);
    less(after_ratio, before_ratio) || after_max < before_max
}

fn rewrite_decision(
    config: &Config,
    statistics: &ComputedStatistics,
    target_partition_rows: u64,
    heavy_keys: usize,
    planned: &Vec<u64>,
) -> (made: RewriteDecision)
    requires
        total(statistics.metadata.estimates.before_partition_sizes@) <= u64::MAX,
        total(planned@) <= u64::MAX,
    ensures
        follows_decision(
            decision(
                *config,
                statistics.metadata,
                target_partition_rows,
                heavy_keys as nat,
                planned@,
            ),
            made,
        ),
{
    if config.partitioning.force_rewrite {
        return rewrite("force_rewrite");
    }
    if heavy_keys > 0 {
        return rewrite("heavy_keys_detected");
    }
    let before = &statistics.metadata.estimates.before_partition_sizes;
    let skew = &statistics.metadata.skew;
    if skew.max_partition_size > target_partition_rows {
        if !planned_distribution_improves_skew(before, planned) {
            return no_rewrite("planned_distribution_does_not_improve_skew");
        }
        return rewrite("max_partition_exceeds_target_rows");
    }
    if greater(skew.max_mean_imbalance_ratio, config.partitioning.no_op_max_imbalance_ratio) {
        if !planned_distribution_improves_skew(before, planned) {
            return no_rewrite("planned_distribution_does_not_improve_skew");
        }
        return rewrite("imbalance_ratio_exceeds_no_op_threshold");
    }
    no_rewrite("no_rewrite_needed")
}

/// `cost` is what the decision costs: all rows and bytes once in and once out, or
/// nothing.
pub open spec fn is_cost(stats: StatsMetadata, decision: Decision, cost: CostEstimate) -> bool {
    &&& cost.rewrite_required == decision.rewrite
    &&& cost.reason@ == decision.reason
    &&& if decision.rewrite {
        &&& cost.estimated_rows_read == stats.input.total_rows
        &&& cost.estimated_rows_written == stats.input.total_rows
        &&& cost.estimated_bytes_read == listed_bytes(stats.input.input_files@)
        &&& cost.estimated_bytes_written == listed_bytes(stats.input.input_files@)
    } else {
        &&& cost.estimated_rows_read == 0
        &&& cost.estimated_rows_written == 0
        &&& cost.estimated_bytes_read == Some(0u64)
        &&& cost.estimated_bytes_written == Some(0u64)
    }
}

fn cost_estimate(
    statistics: &ComputedStatistics,
    rewrite_required: bool,
    reason: String,
) -> (cost: CostEstimate)
    requires
        total(listed_sizes(statistics.metadata.input.input_files@)) <= u64::MAX,
    ensures
        is_cost(
            statistics.metadata,
            Decision { rewrite: rewrite_required, reason: reason@ },
            cost,
        ),
{
    if !rewrite_required {
        return CostEstimate {
            estimated_rows_read: 0,
            estimated_rows_written: 0,
            estimated_bytes_read: Some(0),
            estimated_bytes_written: Some(0),
            rewrite_required,
            reason,
        };
    }
    let input_bytes = total_listed_bytes(&statistics.metadata.input.input_files);
    CostEstimate {
        estimated_rows_read: statistics.metadata.input.total_rows,
        estimated_rows_written: statistics.metadata.input.total_rows,
        estimated_bytes_read: input_bytes,
        estimated_bytes_written: input_bytes,
        rewrite_required,
        reason,
    }
}

/// The heavy keys of the right side of a join.
pub open spec fn right_heavy(join: JoinStatisticsMetadata) -> Seq<Seq<char>> {
    match join.right {
        Some(right) => texts(right.heavy_keys@),
        None => Seq::empty(),
    }
}

/// The values of the heavy keys of the right side of a join.
pub open spec fn right_values(join: JoinStatisticsMetadata) -> Seq<PlanKeyText> {
    match join.right {
        Some(right) => plan_key_texts(right.heavy_key_values@),
        None => Seq::empty(),
    }
}

/// The size of the right side of a join in MB.
pub open spec fn right_size(join: JoinStatisticsMetadata) -> Option<u64> {
    match join.right {
        Some(right) => right.estimated_size_mb,
        None => None,
    }
}

/// The keys that are heavy on both sides, in the order of the left side.
pub open spec fn shared_heavy(join: JoinStatisticsMetadata) -> Seq<Seq<char>> {
    texts(join.left.heavy_keys@).filter(|key: Seq<char>| right_heavy(join).contains(key))
}

/// Some key of the list has the text.
pub open spec fn lists_encoded(keys: Seq<PlanKeyText>, encoded: Seq<char>) -> bool {
    exists|i: int| 0 <= i < keys.len() && #[trigger] keys[i].encoded == encoded
}

/// The values of the keys that are heavy on both sides, in the order of the left
/// side.
pub open spec fn shared_values(join: JoinStatisticsMetadata) -> Seq<PlanKeyText> {
    plan_key_texts(join.left.heavy_key_values@).filter(
        |key: PlanKeyText| lists_encoded(right_values(join), key.encoded),
    )
}

/// The right side is small enough to be sent to all.
pub open spec fn broadcastable(config: JoinConfig, join: JoinStatisticsMetadata) -> bool {
    config.right_side_mode == RightSideMode::BroadcastIfSmall && (right_size(join) matches Some(mb)
        && mb <= config.broadcast_threshold_mb)
}

/// How a join should be done.
pub open spec fn join_strategy(config: JoinConfig, join: JoinStatisticsMetadata) -> Seq<char> {
    if broadcastable(config, join) {
        "broadcast_join_recommendation"@
    } else if shared_heavy(join).len() > 0 {
        "salted_heavy_key_join"@
    } else if join.left.heavy_keys@.len() > 0 || right_heavy(join).len() > 0 {
        "heavy_key_isolation_join"@
    } else {
        "physical_only"@
    }
}

/// `plan` is the plan of the join that is asked for, where there is one and its
/// statistics are known.
pub open spec fn is_join_plan(config: Config, stats: StatsMetadata, plan: Option<JoinPlan>) -> bool {
    if config.job.job_type == JobType::Join && config.join is Some && stats.join is Some {
        let join = stats.join->0;
        &&& plan is Some
        &&& texts(plan->0.left_heavy_keys@) == texts(join.left.heavy_keys@)
        &&& texts(plan->0.right_heavy_keys@) == right_heavy(join)
        &&& texts(plan->0.shared_heavy_keys@) == shared_heavy(join)
        &&& plan_key_texts(plan->0.left_heavy_key_values@) == plan_key_texts(
            join.left.heavy_key_values@,
        )
        &&& plan_key_texts(plan->0.right_heavy_key_values@) == right_values(join)
        &&& plan_key_texts(plan->0.shared_heavy_key_values@) == shared_values(join)
        &&& plan->0.recommended_strategy@ == join_strategy(config.join->0, join)
        &&& plan->0.right_side_size_mb == right_size(join)
        &&& plan->0.broadcast_threshold_mb == Some(config.join->0.broadcast_threshold_mb)
    } else {
        plan is None
    }
}

fn text_set(strings: &Vec<String>) -> (set: KeyMap<bool>)
    ensures
        forall|k: Seq<char>| #[trigger] set@.contains_key(k) <==> texts(strings@).contains(k),
{
    let ghost all = texts(strings@);
    let mut set: KeyMap<bool> = KeyMap::new();
    let mut i: usize = 0;
    while i < strings.len()
        invariant
            i <= strings@.len(),
            all == texts(strings@),
            forall|k: Seq<char>| #[trigger]
                set@.contains_key(k) <==> all.take(i as int).contains(k),
        decreases strings.len() - i,
    {
        set.insert(strings[i].clone(), true);
        proof {
            let done = all.take(i as int);
            let more = all.take(i + 1);
            assert(more =~= done.push(all[i as int]));
            assert forall|k: Seq<char>| #[trigger] set@.contains_key(k) <==> more.contains(k) by {
                if done.contains(k) {
                    let j = choose|j: int| 0 <= j < done.len() && done[j] == k;
                    assert(more[j] == k);
                }
                assert(more[i as int] == all[i as int]);
                if more.contains(k) && k != all[i as int] {
                    let j = choose|j: int| 0 <= j < more.len() && more[j] == k;
                    assert(done[j] == k);
                }
            }
        }
        i += 1;
    }
    assert(all.take(i as int) =~= all);
    set
}

fn shared_texts(left: &Vec<String>, right: &Vec<String>) -> (shared: Vec<String>)
    ensures
        texts(shared@) == texts(left@).filter(|key: Seq<char>| texts(right@).contains(key)),
{
    let set = text_set(right);
    let ghost all = texts(left@);
    let ghost keep = |key: Seq<char>| texts(right@).contains(key);
    let mut shared: Vec<String> = Vec::new();
    let mut i: usize = 0;
    proof {
        reveal(Seq::filter);
        assert(all.take(0) =~= Seq::<Seq<char>>::empty());
        assert(texts(shared@) =~= all.take(0).filter(keep));
    }
    while i < left.len()
        invariant
            i <= left@.len(),
            all == texts(left@),
            keep == (|key: Seq<char>| texts(right@).contains(key)),
            forall|k: Seq<char>| #[trigger] set@.contains_key(k) <==> texts(right@).contains(k),
            texts(shared@) == all.take(i as int).filter(keep),
        decreases left.len() - i,
    {
        let ghost before = shared@;
        proof {
            assert(all.take(i + 1) =~= all.take(i as int).push(all[i as int]));
            all.take(i as int).lemma_filter_push(all[i as int], keep);
        }
        if set.contains_key(&left[i]) {
            shared.push(left[i].clone());
            assert(keep(all[i as int]));
            assert(texts(shared@) =~= texts(before).push(all[i as int]));
        } else {
            assert(!keep(all[i as int]));
        }
        i += 1;
    }
    assert(all.take(i as int) =~= all);
    shared
}

fn encoded_texts(keys: &Vec<PlanKey>) -> (encoded: Vec<String>)
    ensures
        forall|k: Seq<char>| #[trigger]
            texts(encoded@).contains(k) <==> lists_encoded(plan_key_texts(keys@), k),
{
    let mut encoded: Vec<String> = Vec::new();
    let mut i: usize = 0;
    while i < keys.len()
        invariant
            i <= keys@.len(),
            encoded@.len() == i,
            forall|j: int| 0 <= j < i ==> #[trigger] encoded@[j]@ == keys@[j].encoded@,
        decreases keys.len() - i,
    {
        encoded.push(keys[i].encoded.clone());
        i += 1;
    }
    proof {
        let list = plan_key_texts(keys@);
        assert forall|k: Seq<char>| #[trigger] texts(encoded@).contains(k) <==> lists_encoded(list, k) by {
            if texts(encoded@).contains(k) {
                let j = choose|j: int| 0 <= j < texts(encoded@).len() && texts(encoded@)[j] == k;
                assert(list[j].encoded == k);
            }
            if lists_encoded(list, k) {
                let j = choose|j: int| 0 <= j < list.len() && #[trigger] list[j].encoded == k;
                assert(texts(encoded@)[j] == k);
            }
        }
    }
    encoded
}

fn shared_plan_keys(left: &Vec<PlanKey>, right: &Vec<PlanKey>) -> (shared: Vec<PlanKey>)
    ensures
        plan_key_texts(shared@) == plan_key_texts(left@).filter(
            |key: PlanKeyText| lists_encoded(plan_key_texts(right@), key.encoded),
        ),
{
    let names = encoded_texts(right);
    let set = text_set(&names);
    let ghost all = plan_key_texts(left@);
    let ghost keep = |key: PlanKeyText| lists_encoded(plan_key_texts(right@), key.encoded);
    let mut shared: Vec<PlanKey> = Vec::new();
    let mut i: usize = 0;
    proof {
        reveal(Seq::filter);
        assert(all.take(0) =~= Seq::<PlanKeyText>::empty());
        assert(plan_key_texts(shared@) =~= all.take(0).filter(keep));
    }
    while i < left.len()
        invariant
            i <= left@.len(),
            all == plan_key_texts(left@),
            keep == (|key: PlanKeyText| lists_encoded(plan_key_texts(right@), key.encoded)),
            forall|k: Seq<char>| #[trigger] set@.contains_key(k) <==> texts(names@).contains(k),
            forall|k: Seq<char>| #[trigger]
                texts(names@).contains(k) <==> lists_encoded(plan_key_texts(right@), k),
            plan_key_texts(shared@) == all.take(i as int).filter(keep),
        decreases left.len() - i,
    {
        let ghost before = shared@;
        proof {
            assert(all.take(i + 1) =~= all.take(i as int).push(all[i as int]));
            all.take(i as int).lemma_filter_push(all[i as int], keep);
        }
        if set.contains_key(&left[i].encoded) {
            shared.push(left[i].clone());
            assert(keep(all[i as int]));
            assert(plan_key_texts(shared@) =~= plan_key_texts(before).push(all[i as int]));
        } else {
            assert(!keep(all[i as int]));
        }
        i += 1;
    }
    assert(all.take(i as int) =~= all);
    shared
}

/// Plans the join that is asked for.
pub fn join_plan(config: &Config, statistics: &ComputedStatistics) -> (plan: Option<JoinPlan>)
    ensures
        is_join_plan(*config, statistics.metadata, plan),
{
    if config.job.job_type != JobType::Join {
        return None;
    }
    let join = match &config.join {
        Some(join) => join,
        None => return None,
    };
    let join_stats = match &statistics.metadata.join {
        Some(join_stats) => join_stats,
        None => return None,
    };
    let left_heavy_keys = copy_strings(&join_stats.left.heavy_keys);
    let left_heavy_key_values = copy_plan_keys(&join_stats.left.heavy_key_values);
    let right_heavy_keys: Vec<String>;
    let right_heavy_key_values: Vec<PlanKey>;
    let right_side_size_mb: Option<u64>;
    match &join_stats.right {
        Some(right) => {
            right_heavy_keys = copy_strings(&right.heavy_keys);
            right_heavy_key_values = copy_plan_keys(&right.heavy_key_values);
            right_side_size_mb = right.estimated_size_mb;
        },
        None => {
            right_heavy_keys = Vec::new();
            right_heavy_key_values = Vec::new();
            right_side_size_mb = None;
            assert(texts(right_heavy_keys@) =~= Seq::<Seq<char>>::empty());
            assert(plan_key_texts(right_heavy_key_values@) =~= Seq::<PlanKeyText>::empty());
        },
    }
    let shared_heavy_keys = shared_texts(&left_heavy_keys, &right_heavy_keys);
    let shared_heavy_key_values = shared_plan_keys(
        &left_heavy_key_values,
        &right_heavy_key_values,
    );
    proof {
        let keep = |key: Seq<char>| right_heavy(*join_stats).contains(key);
        assert(keep =~= (|key: Seq<char>| texts(right_heavy_keys@).contains(key)));
        let keep_value = |key: PlanKeyText| lists_encoded(right_values(*join_stats), key.encoded);
        assert(keep_value =~= (|key: PlanKeyText|
            lists_encoded(plan_key_texts(right_heavy_key_values@), key.encoded)));
        assert(texts(shared_heavy_keys@) == shared_heavy(*join_stats));
        assert(texts(shared_heavy_keys@).len() == shared_heavy_keys@.len());
        assert(texts(right_heavy_keys@).len() == right_heavy_keys@.len());
    }
    let small = match right_side_size_mb {
        Some(size_mb) => size_mb <= join.broadcast_threshold_mb,
        None => false,
    };
    let recommended_strategy = if join.right_side_mode == RightSideMode::BroadcastIfSmall && small {
        "broadcast_join_recommendation"
    } else if shared_heavy_keys.len() > 0 {
        "salted_heavy_key_join"
    } else if left_heavy_keys.len() > 0 || right_heavy_keys.len() > 0 {
        "heavy_key_isolation_join"
    } else {
        "physical_only"
    };
    Some(
        JoinPlan {
            left_heavy_keys,
            right_heavy_keys,
            shared_heavy_keys,
            left_heavy_key_values,
            right_heavy_key_values,
            shared_heavy_key_values,
            recommended_strategy: recommended_strategy.to_owned(),
            right_side_size_mb,
            broadcast_threshold_mb: Some(join.broadcast_threshold_mb),
        },
    )
}

/// What the job that follows is told.
pub struct Advice {
    pub strategy: Seq<char>,
    pub requires_operator_rewrite: bool,
    pub partial_group_keys: Seq<Seq<char>>,
    pub final_group_keys: Seq<Seq<char>>,
    pub join_keys: Seq<Seq<char>>,
    pub notes: Seq<Seq<char>>,
}

/// Advice that asks for nothing of the job.
pub open spec fn plain_advice(strategy: Seq<char>, notes: Seq<Seq<char>>) -> Advice {
    Advice {
        strategy,
        requires_operator_rewrite: false,
        partial_group_keys: Seq::empty(),
        final_group_keys: Seq::empty(),
        join_keys: Seq::empty(),
        notes,
    }
}

/// The keys that a join is made on.
pub open spec fn join_key_texts(config: Config) -> Seq<Seq<char>> {
    match config.join {
        Some(join) => texts(join.join_keys@),
        None => texts(config.partitioning.key_columns@),
    }
}

/// Advice for a join.
pub open spec fn join_advice(config: Config, strategy: Seq<char>, rewrite: bool, notes: Seq<Seq<char>>) -> Advice {
    Advice {
        strategy,
        requires_operator_rewrite: rewrite,
        partial_group_keys: Seq::empty(),
        final_group_keys: Seq::empty(),
        join_keys: join_key_texts(config),
        notes,
    }
}

/// The columns of the first of two aggregations.
pub open spec fn partial_keys(config: Config) -> Seq<Seq<char>> {
    let columns = texts(config.partitioning.key_columns@);
    if config.output.include_technical_columns {
        seq![config.output.partition_column@, config.output.salt_column@] + columns
    } else {
        columns
    }
}

/// The advice for a job.
pub open spec fn advice(config: Config, join_plan: Option<JoinPlan>) -> Advice {
    let notes: Seq<Seq<char>> = if config.output.include_technical_columns {
        seq![]
    } else {
        seq!["technical_columns_disabled"@]
    };
    match config.job.job_type {
        JobType::Scan => plain_advice("physical_repartitioning"@, notes),
        JobType::Generic => plain_advice("physical_repartitioning"@, notes),
        JobType::Filter => plain_advice(
            "physical_repartitioning_with_filter_awareness"@,
            notes.push("filter_selectivity_unknown"@),
        ),
        JobType::GroupBy => Advice {
            strategy: "two_stage_group_by"@,
            requires_operator_rewrite: true,
            partial_group_keys: partial_keys(config),
            final_group_keys: texts(config.partitioning.key_columns@),
            join_keys: Seq::empty(),
            notes: if config.output.include_technical_columns {
                notes
            } else {
                notes.push("method_aware_group_by_requires_technical_columns"@)
            },
        },
        JobType::Join => match join_plan {
            None => join_advice(
                config,
                "generic_join_repartitioning"@,
                true,
                notes.push("join_plan_missing"@),
            ),
            Some(plan) => if plan.recommended_strategy@ == "broadcast_join_recommendation"@ {
                join_advice(
                    config,
                    "broadcast_join"@,
                    true,
                    notes.push("right_side_broadcastable"@),
                )
            } else if plan.recommended_strategy@ == "salted_heavy_key_join"@ {
                join_advice(
                    config,
                    "salted_heavy_key_join"@,
                    true,
                    notes.push("shared_heavy_keys_detected"@),
                )
            } else if plan.recommended_strategy@ == "heavy_key_isolation_join"@ {
                join_advice(
                    config,
                    "heavy_key_isolation_join"@,
                    true,
                    notes.push("one_sided_heavy_keys_detected"@),
                )
            } else if plan.recommended_strategy@ == "physical_only"@ {
                join_advice(
                    config,
                    "physical_repartitioning"@,
                    false,
                    notes.push("no_join_heavy_keys_detected"@),
                )
            } else {
                join_advice(
                    config,
                    "generic_join_repartitioning"@,
                    true,
                    notes.push("join_plan_missing"@),
                )
            },
        },
    }
}

/// A column is named exactly if technical columns are written.
pub open spec fn names_column(included: bool, column: Seq<char>, named: Option<String>) -> bool {
    match named {
        Some(name) => included && name@ == column,
        None => !included,
    }
}

/// `plan` hands advice on.
pub open spec fn is_downstream_plan(
    config: Config,
    join_plan: Option<JoinPlan>,
    plan: RecommendedDownstreamPlan,
) -> bool {
    let given = advice(config, join_plan);
    let included = config.output.include_technical_columns;
    &&& plan.job_type == config.job.job_type
    &&& plan.strategy@ == given.strategy
    &&& plan.requires_operator_rewrite == given.requires_operator_rewrite
    &&& names_column(included, config.output.partition_column@, plan.partition_column)
    &&& names_column(included, config.output.salt_column@, plan.salt_column)
    &&& names_column(included, config.output.heavy_key_column@, plan.heavy_key_column)
    &&& texts(plan.partial_group_keys@) == given.partial_group_keys
    &&& texts(plan.final_group_keys@) == given.final_group_keys
    &&& texts(plan.join_keys@) == given.join_keys
    &&& texts(plan.notes@) == given.notes
}

fn technical_column_name(included: bool, column: &String) -> (name: Option<String>)
    ensures
        names_column(included, column@, name),
{
    if included {
        Some(column.clone())
    } else {
        None
    }
}

fn push_note(notes: &mut Vec<String>, note: &str)
    ensures
        texts(final(notes)@) == texts(old(notes)@).push(note@),
{
    notes.push(note.to_owned());
    assert(texts(notes@) =~= texts(old(notes)@).push(note@));
}

fn partial_group_keys(config: &Config) -> (keys: Vec<String>)
    ensures
        texts(keys@) == partial_keys(*config),
{
    let mut keys: Vec<String> = Vec::new();
    if config.output.include_technical_columns {
        keys.push(config.output.partition_column.clone());
        keys.push(config.output.salt_column.clone());
    }
    let mut columns = copy_strings(&config.partitioning.key_columns);
    keys.append(&mut columns);
    assert(texts(keys@) =~= partial_keys(*config));
    keys
}

struct JoinAdvice {
    strategy: &'static str,
    requires_operator_rewrite: bool,
    note: &'static str,
}

fn join_recommendation(join_plan: &Option<JoinPlan>) -> (made: JoinAdvice)
    ensures
        forall|config: Config|
            config.job.job_type == JobType::Join ==> #[trigger] advice(config, *join_plan)
                == join_advice(
                config,
                made.strategy@,
                made.requires_operator_rewrite,
                (if config.output.include_technical_columns {
                    Seq::<Seq<char>>::empty()
                } else {
                    seq!["technical_columns_disabled"@]
                }).push(made.note@),
            ),
{
    assert(seq![] =~= Seq::<Seq<char>>::empty());
    let missing = JoinAdvice {
        strategy: "generic_join_repartitioning",
        requires_operator_rewrite: true,
        note: "join_plan_missing",
    };
    match join_plan {
        None => missing,
        Some(plan) => {
            let strategy = plan.recommended_strategy.as_str();
            if same_text(strategy, "broadcast_join_recommendation") {
                JoinAdvice {
                    strategy: "broadcast_join",
                    requires_operator_rewrite: true,
                    note: "right_side_broadcastable",
                }
            } else if same_text(strategy, "salted_heavy_key_join") {
                JoinAdvice {
                    strategy: "salted_heavy_key_join",
                    requires_operator_rewrite: true,
                    note: "shared_heavy_keys_detected",
                }
            } else if same_text(strategy, "heavy_key_isolation_join") {
                JoinAdvice {
                    strategy: "heavy_key_isolation_join",
                    requires_operator_rewrite: true,
                    note: "one_sided_heavy_keys_detected",
                }
            } else if same_text(strategy, "physical_only") {
                JoinAdvice {
                    strategy: "physical_repartitioning",
                    requires_operator_rewrite: false,
                    note: "no_join_heavy_keys_detected",
                }
            } else {
                missing
            }
        },
    }
}

/// Advises the job that follows.
pub fn recommended_downstream_plan(config: &Config, join_plan: &Option<JoinPlan>) -> (plan: RecommendedDownstreamPlan)
    ensures
        is_downstream_plan(*config, *join_plan, plan),
{
    let included = config.output.include_technical_columns;
    let mut notes: Vec<String> = Vec::new();
    assert(texts(notes@) =~= Seq::<Seq<char>>::empty());
    assert(seq![] =~= Seq::<Seq<char>>::empty());
    if !included {
        push_note(&mut notes, "technical_columns_disabled");
        assert(texts(notes@) =~= seq!["technical_columns_disabled"@]);
    }
    let mut strategy = "physical_repartitioning";
    let mut requires_operator_rewrite = false;
    let mut partial: Vec<String> = Vec::new();
    let mut last: Vec<String> = Vec::new();
    let mut join_keys: Vec<String> = Vec::new();
    assert(texts(partial@) =~= Seq::<Seq<char>>::empty());
    match config.job.job_type {
        JobType::Scan => {},
        JobType::Generic => {},
        JobType::Filter => {
            push_note(&mut notes, "filter_selectivity_unknown");
            strategy = "physical_repartitioning_with_filter_awareness";
        },
        JobType::GroupBy => {
            if !included {
                push_note(&mut notes, "method_aware_group_by_requires_technical_columns");
            }
            strategy = "two_stage_group_by";
            requires_operator_rewrite = true;
            partial = partial_group_keys(config);
            last = copy_strings(&config.partitioning.key_columns);
        },
        JobType::Join => {
            let made = join_recommendation(join_plan);
            push_note(&mut notes, made.note);
            strategy = made.strategy;
            requires_operator_rewrite = made.requires_operator_rewrite;
            join_keys = match &config.join {
                Some(join) => copy_strings(&join.join_keys),
                None => copy_strings(&config.partitioning.key_columns),
            };
        },
    }
    assert(texts(Seq::<String>::empty()) =~= Seq::<Seq<char>>::empty());
    RecommendedDownstreamPlan {
        job_type: config.job.job_type,
        strategy: strategy.to_owned(),
        requires_operator_rewrite,
        partition_column: technical_column_name(included, &config.output.partition_column),
        salt_column: technical_column_name(included, &config.output.salt_column),
        heavy_key_column: technical_column_name(included, &config.output.heavy_key_column),
        partial_group_keys: partial,
        final_group_keys: last,
        join_keys,
        notes,
    }
}

fn add_structured(structured: &mut KeyMap<PlanKey>, plans: &Vec<HeavyKeyPlan>, Ghost(before): Ghost<Seq<HeavyKeyPlanText>>)
    requires
        knows(old(structured)@, before),
    ensures
        knows(final(structured)@, before + heavy_plan_texts(plans@)),
{
    let ghost all = heavy_plan_texts(plans@);
    let mut i: usize = 0;
    assert(before + all.take(0) =~= before);
    while i < plans.len()
        invariant
            i <= plans@.len(),
            all == heavy_plan_texts(plans@),
            knows(structured@, before + all.take(i as int)),
        decreases plans.len() - i,
    {
        let ghost done = before + all.take(i as int);
        let ghost more = before + all.take(i + 1);
        let ghost map = structured@;
        proof {
            assert(more.drop_last() =~= done);
            assert(more.last() == all[i as int]);
        }
        match &plans[i].structured_key {
            Some(key) => {
                structured.insert(plans[i].key.clone(), key.clone());
                assert(structured@.dom() =~= map.dom().insert(plans@[i as int].key@));
            },
            None => {},
        }
        proof {
            assert forall|k: Seq<char>| #[trigger] structured@.contains_key(k) implies structured_in(
                more,
                k,
            ) == Some(structured@[k]@) by {
                if map.contains_key(k) {
                    assert(structured_in(done, k) == Some(map[k]@));
                }
            }
            assert forall|k: Seq<char>| !(#[trigger] structured@.contains_key(k)) implies structured_in(
                more,
                k,
            ) is None by {
                assert(!map.contains_key(k));
            }
        }
        i += 1;
    }
    assert(all.take(i as int) =~= all);
}

/// `map` holds the values of the keys of a list.
spec fn knows(map: Map<Seq<char>, PlanKey>, plans: Seq<HeavyKeyPlanText>) -> bool {
    &&& forall|k: Seq<char>| #[trigger]
        map.contains_key(k) ==> structured_in(plans, k) == Some(map[k]@)
    &&& forall|k: Seq<char>| !(#[trigger] map.contains_key(k)) ==> structured_in(plans, k) is None
}

fn structured_key_map(statistics: &ComputedStatistics) -> (structured: KeyMap<PlanKey>)
    ensures
        forall|k: Seq<char>| #[trigger]
            structured@.contains_key(k) ==> structured_for(statistics.metadata, k) == Some(
                structured@[k]@,
            ),
        forall|k: Seq<char>|
            !(#[trigger] structured@.contains_key(k)) ==> structured_for(
                statistics.metadata,
                k,
            ) is None,
{
    let mut structured: KeyMap<PlanKey> = KeyMap::new();
    let ghost none = Seq::<HeavyKeyPlanText>::empty();
    let input = &statistics.metadata.input;
    add_structured(&mut structured, &input.heavy_hitters, Ghost(none));
    let ghost first = heavy_plan_texts(input.heavy_hitters@);
    assert(none + first =~= first);
    add_structured(&mut structured, &input.heavy_hitter_candidates, Ghost(first));
    structured
}

/// Places the heavy keys one after the other.
fn place_heavy_keys(
    statistics: &ComputedStatistics,
    heavies: &Vec<HeavyHitter>,
    target_partition_rows: u64,
    loads: &mut Vec<u64>,
    seed: u64,
) -> (plans: Vec<HeavyKeyPlan>)
    requires
        old(loads)@.len() > 0,
        load_total(load_values(old(loads)@)) + crate::placement::hitter_total(
            hitter_texts(heavies@),
        ) <= u64::MAX,
    ensures
        load_values(final(loads)@) == heavy_loads(
            load_values(old(loads)@),
            hitter_texts(heavies@),
            target_partition_rows,
            seed,
        ),
        plans@.len() == heavies@.len(),
        forall|j: int|
            0 <= j < heavies@.len() ==> #[trigger] plans@[j]@ == (HeavyKeyPlanText {
                key: heavies@[j].key@,
                structured_key: structured_for(statistics.metadata, heavies@[j].key@),
                estimated_frequency: heavies@[j].frequency,
                detection_reasons: heavies@[j].detection_reasons@,
                salt_count: salts_of(heavies@[j].frequency, target_partition_rows),
                salt_partitions: salt_plans(
                    heavy_salt_partitions(
                        load_values(old(loads)@),
                        hitter_texts(heavies@),
                        target_partition_rows,
                        seed,
                        j,
                    ),
                ),
            }),
{
    let structured = structured_key_map(statistics);
    let ghost start = load_values(loads@);
    let ghost all = hitter_texts(heavies@);
    let mut plans: Vec<HeavyKeyPlan> = Vec::new();
    let mut i: usize = 0;
    assert(all.take(0) =~= Seq::<HeavyHitterText>::empty());
    assert(loads@.len() == loads.len());
    while i < heavies.len()
        invariant
            forall|k: Seq<char>| #[trigger]
                structured@.contains_key(k) ==> structured_for(statistics.metadata, k) == Some(
                    structured@[k]@,
                ),
            forall|k: Seq<char>|
                !(#[trigger] structured@.contains_key(k)) ==> structured_for(
                    statistics.metadata,
                    k,
                ) is None,
            all == hitter_texts(heavies@),
            0 < start.len() <= usize::MAX,
            loads@.len() == start.len(),
            load_total(start) + crate::placement::hitter_total(all) <= u64::MAX,
            i <= heavies@.len(),
            load_values(loads@) == heavy_loads(
                start,
                all.take(i as int),
                target_partition_rows,
                seed,
            ),
            plans@.len() == i,
            forall|j: int|
                0 <= j < i ==> #[trigger] plans@[j]@ == (HeavyKeyPlanText {
                    key: heavies@[j].key@,
                    structured_key: structured_for(statistics.metadata, heavies@[j].key@),
                    estimated_frequency: heavies@[j].frequency,
                    detection_reasons: heavies@[j].detection_reasons@,
                    salt_count: salts_of(heavies@[j].frequency, target_partition_rows),
                    salt_partitions: salt_plans(
                        heavy_salt_partitions(start, all, target_partition_rows, seed, j),
                    ),
                }),
        decreases heavies.len() - i,
    {
        let heavy = &heavies[i];
        proof {
            let done = all.take(i as int);
            let more = all.take(i + 1);
            assert(more.drop_last() =~= done);
            assert(more.last() == all[i as int]);
            crate::placement::heavies_placed(start, done, target_partition_rows, seed);
            crate::placement::heavies_placed(start, more, target_partition_rows, seed);
            crate::placement::hitter_total_prefix(all, i + 1);
        }
        let count: usize = salt_count(heavy.frequency, target_partition_rows);
        let salt_partitions = place_heavy_key(&heavy.key, heavy.frequency, count, loads, seed);
        let structured_key = match structured.get(&heavy.key) {
            Some(key) => Some(key.clone()),
            None => None,
        };
        plans.push(
            HeavyKeyPlan {
                key: heavy.key.clone(),
                structured_key,
                estimated_frequency: heavy.frequency,
                detection_reasons: copy_reasons(&heavy.detection_reasons),
                salt_count: count,
                salt_partitions,
            },
        );
        i += 1;
    }
    assert(all.take(i as int) =~= all);
    plans
}

/// The sizes that a plan starts from can be added up.
pub open spec fn plannable(config: Config, stats: StatsMetadata) -> bool {
    &&& stats.input.estimated_row_width_bytes is Some ==> config.partitioning.min_partitions@
        <= config.partitioning.max_partitions@
    &&& total_frequency(stats.input.key_frequencies.pairs()) <= u64::MAX
    &&& total(stats.estimates.before_partition_sizes@) <= u64::MAX
    &&& total(listed_sizes(stats.input.input_files@)) <= u64::MAX
}

/// The decision of a plan.
pub open spec fn plan_decision(config: Config, stats: StatsMetadata) -> Decision {
    decision(
        config,
        stats,
        plan_rows(config, stats),
        plan_heavies(config, stats).len(),
        load_numbers(plan_loads(config, stats)),
    )
}

/// The keys of a plan and where they go.
pub open spec fn places_keys(config: Config, stats: StatsMetadata, plan: PartitionPlan) -> bool {
    &&& normal_plan_texts(plan.normal_keys@) == normal_plans(
        plan_normals(config, stats),
        place_normals(
            plan_normals(config, stats),
            config.partitioning.normal_key_assignment,
            plan_partitions(config, stats),
            config.partitioning.seed,
        ).partitions,
    )
    &&& heavy_plan_texts(plan.heavy_keys@) == Seq::new(
        plan_heavies(config, stats).len(),
        |j: int| planned_heavy(config, stats, j),
    )
}

/// `plan` is the plan for a dataset, made at a time.
pub open spec fn is_plan(
    config: Config,
    stats: StatsMetadata,
    unix_seconds: u64,
    plan: PartitionPlan,
) -> bool {
    let made = plan_decision(config, stats);
    &&& plan.version@ == METADATA_VERSION@
    &&& plan.created_at@ == "unix_seconds:"@ + decimal(unix_seconds as nat)
    &&& plan.strategy == config.partitioning.strategy
    &&& plan.action == if made.rewrite {
        PlanAction::Rewrite
    } else {
        PlanAction::NoOp
    }
    &&& plan.rewrite_required == made.rewrite
    &&& plan.key_columns@ == config.partitioning.key_columns@
    &&& plan.job_type == config.job.job_type
    &&& plan.downstream_engine == config.job.downstream_engine
    &&& plan.target_partition_size_mb == config.partitioning.target_partition_size_mb@
    &&& plan.target_partition_rows == plan_rows(config, stats)
    &&& plan.min_partitions == config.partitioning.min_partitions@
    &&& plan.max_partitions == config.partitioning.max_partitions@
    &&& plan.output_partitions == plan_partitions(config, stats)
    &&& exists|target: crate::targeting::TargetPartitioning| #[trigger]
        is_target(
            config,
            stats.input.total_rows,
            stats.input.estimated_row_width_bytes,
            target,
        ) && plan.required_partitions_by_size == target.required_partitions_by_size
            && plan.feasibility.target_partition_size_satisfied == target.target_size_satisfied
            && plan.feasibility.reason == target.reason
    &&& plan.technical_columns.included == config.output.include_technical_columns
    &&& plan.technical_columns.partition_column == config.output.partition_column
    &&& plan.technical_columns.salt_column == config.output.salt_column
    &&& plan.technical_columns.heavy_key_column == config.output.heavy_key_column
    &&& plan.normal_key_assignment == config.partitioning.normal_key_assignment
    &&& places_keys(config, stats, plan)
    &&& is_join_plan(config, stats, plan.join_plan)
    &&& is_downstream_plan(config, plan.join_plan, plan.recommended_downstream_plan)
    &&& is_cost(stats, made, plan.cost_estimate)
    &&& match plan.skip_reason {
        Some(reason) => !made.rewrite && reason@ == made.reason,
        None => made.rewrite,
    }
    &&& plan.hash_function@ == HASH_FUNCTION_NAME@
    &&& plan.seed == config.partitioning.seed
}

/// The refusal of a strategy that is not implemented.
pub open spec fn refuses_strategy(error: Error) -> bool {
    error matches Error::UnsupportedStrategy(message) && message@
        == "partitioning.strategy file_size_balancing is not implemented; use adaptive_hash_salt"@
}

/// Plans the partitions of a dataset, at a time that is given in seconds since 1970.
pub fn build_plan_at(config: &Config, statistics: &ComputedStatistics, unix_seconds: u64) -> (result: Result<
    Plan,
    Error,
>)
    requires
        plannable(*config, statistics.metadata),
    ensures
        match result {
            Ok(plan) => config.partitioning.strategy == PartitioningStrategy::AdaptiveHashSalt
                && is_plan(*config, statistics.metadata, unix_seconds, plan.metadata),
            Err(error) => config.partitioning.strategy == PartitioningStrategy::FileSizeBalancing
                && refuses_strategy(error),
        },
{
    if config.partitioning.strategy == PartitioningStrategy::FileSizeBalancing {
        return Err(
            Error::UnsupportedStrategy(
                "partitioning.strategy file_size_balancing is not implemented; use adaptive_hash_salt".to_owned(),
            ),
        );
    }
    let ghost stats = statistics.metadata;
    let input = &statistics.metadata.input;
    let frequencies = &input.key_frequencies;
    let alpha = config.partitioning.heavy_key_alpha;
    let seed: u64 = config.partitioning.seed;
    let target = compute_target_partitioning(
        config,
        input.total_rows,
        input.estimated_row_width_bytes,
    );
    let rows: u64 = target.target_partition_rows;
    let heavies = detect_final_heavy_keys(frequencies, alpha, rows);
    let mut loads: Vec<u64> = vec![0u64; target.output_partitions];
    let order: Vec<usize> = if statistics.metadata.heavy_hitter_detection.normal_keys_materialized {
        order_normal_keys(frequencies, alpha, rows)
    } else {
        Vec::new()
    };
    proof {
        crate::placement::frequencies_split(frequencies.pairs(), alpha, rows);
        assert(load_values(loads@) =~= no_loads(target.output_partitions));
        let keys = pairs_at(frequencies.pairs(), order@);
        assert(keys =~= plan_normals(*config, stats));
        if !stats.heavy_hitter_detection.normal_keys_materialized {
            assert(crate::heavy_hitters::pair_values(keys) =~= Seq::<u64>::empty());
        }
        crate::placement::normals_placed(
            keys,
            config.partitioning.normal_key_assignment,
            target.output_partitions,
            seed,
        );
    }
    let normal_keys = place_normal_keys(
        frequencies,
        &order,
        config.partitioning.normal_key_assignment,
        &mut loads,
        seed,
    );
    let ghost normal_loads = load_values(loads@);
    proof {
        crate::placement::heavies_placed(
            normal_loads,
            hitter_texts(heavies@),
            rows,
            seed,
        );
    }
    assert(loads@.len() == normal_loads.len());
    let heavy_keys = place_heavy_keys(statistics, &heavies, rows, &mut loads, seed);
    proof {
        assert(loads@.len() == load_values(loads@).len());
        assert(load_numbers(plan_loads(*config, stats)) =~= loads@) by {
            assert(plan_loads(*config, stats) == load_values(loads@));
        }
        crate::placement::load_total_values(loads@);
        assert(heavy_plan_texts(heavy_keys@) =~= Seq::new(
            plan_heavies(*config, stats).len(),
            |j: int| planned_heavy(*config, stats, j),
        )) by {
            assert forall|j: int| 0 <= j < heavies@.len() implies heavy_keys@[j]@ == #[trigger] planned_heavy(
                *config,
                stats,
                j,
            ) by {
                assert(hitter_texts(heavies@)[j] == heavies@[j]@);
            }
        }
        assert(hitter_texts(heavies@).len() == heavies@.len());
    }
    let made = rewrite_decision(config, statistics, rows, heavies.len(), &loads);
    let join_plan = join_plan(config, statistics);
    let recommended = recommended_downstream_plan(config, &join_plan);
    let cost = cost_estimate(statistics, made.rewrite_required, made.cost_reason);
    let mut created_at = "unix_seconds:".to_owned();
    push_decimal(&mut created_at, unix_seconds as u128);
    let metadata = PartitionPlan {
        version: METADATA_VERSION.to_owned(),
        created_at,
        strategy: config.partitioning.strategy,
        action: made.action,
        rewrite_required: made.rewrite_required,
        key_columns: copy_strings(&config.partitioning.key_columns),
        job_type: config.job.job_type,
        downstream_engine: config.job.downstream_engine,
        target_partition_size_mb: config.partitioning.target_partition_size_mb.get(),
        target_partition_rows: rows,
        min_partitions: config.partitioning.min_partitions.get(),
        max_partitions: config.partitioning.max_partitions.get(),
        output_partitions: target.output_partitions,
        required_partitions_by_size: target.required_partitions_by_size,
        feasibility: PartitionPlanFeasibility {
            target_partition_size_satisfied: target.target_size_satisfied,
            reason: target.reason,
        },
        technical_columns: TechnicalColumns {
            included: config.output.include_technical_columns,
            partition_column: config.output.partition_column.clone(),
            salt_column: config.output.salt_column.clone(),
            heavy_key_column: config.output.heavy_key_column.clone(),
        },
        normal_key_assignment: config.partitioning.normal_key_assignment,
        normal_keys,
        heavy_keys,
        recommended_downstream_plan: recommended,
        join_plan,
        cost_estimate: cost,
        skip_reason: made.skip_reason,
        hash_function: HASH_FUNCTION_NAME.to_owned(),
        seed,
    };
    proof {
        assert(is_target(*config, input.total_rows, input.estimated_row_width_bytes, target));
    }
    Ok(Plan { metadata })
}

/// `SystemTime::elapsed` of the Unix epoch: the seconds since 1970 by the clock of
/// the machine, or zero where the clock is before 1970. Nothing is claimed of the
/// number.
#[verifier::external_body]
fn unix_seconds() -> u64 {
    std::time::UNIX_EPOCH.elapsed().map(|elapsed| elapsed.as_secs()).unwrap_or_default()
}

/// Plans the partitions of a dataset. Whatever the clock says, the plan is the one
/// for that time.
pub fn build_plan(config: &Config, statistics: &ComputedStatistics) -> (result: Result<Plan, Error>)
    requires
        plannable(*config, statistics.metadata),
    ensures
        match result {
            Ok(plan) => config.partitioning.strategy == PartitioningStrategy::AdaptiveHashSalt
                && exists|seconds: u64| #[trigger]
                    is_plan(*config, statistics.metadata, seconds, plan.metadata),
            Err(error) => config.partitioning.strategy == PartitioningStrategy::FileSizeBalancing
                && refuses_strategy(error),
        },
{
    let seconds: u64 = unix_seconds();
    build_plan_at(config, statistics, seconds)
}

/// The limits on the number of partitions make sense.
pub open spec fn valid_limits(config: Config) -> bool {
    0 < config.partitioning.min_partitions@ <= config.partitioning.max_partitions@
        && config.partitioning.target_partition_size_mb@ > 0
}

/// A plan has a partition at least.
pub proof fn plan_partitions_positive(config: Config, stats: StatsMetadata)
    requires
        valid_limits(config),
    ensures
        0 < plan_partitions(config, stats),
        plan_partitions(config, stats) == output_partition_count(
            config,
            stats.input.total_rows,
            stats.input.estimated_row_width_bytes,
        ),
{
    crate::targeting::target_within_limits(
        config,
        stats.input.total_rows,
        stats.input.estimated_row_width_bytes,
    );
}

/// A plan lists its keys one by one.
pub proof fn plan_lists(config: Config, stats: StatsMetadata, plan: PartitionPlan)
    requires
        places_keys(config, stats, plan),
    ensures
        plan.normal_keys@.len() == plan_normals(config, stats).len(),
        plan.heavy_keys@.len() == plan_heavies(config, stats).len(),
        forall|k: int|
            0 <= k < plan.normal_keys@.len() ==> (#[trigger] plan.normal_keys@[k])@ == normal_plans(
                plan_normals(config, stats),
                place_normals(
                    plan_normals(config, stats),
                    config.partitioning.normal_key_assignment,
                    plan_partitions(config, stats),
                    config.partitioning.seed,
                ).partitions,
            )[k],
        forall|j: int|
            0 <= j < plan.heavy_keys@.len() ==> (#[trigger] plan.heavy_keys@[j])@ == planned_heavy(
                config,
                stats,
                j,
            ),
{
    let normals = normal_plan_texts(plan.normal_keys@);
    let heavies = heavy_plan_texts(plan.heavy_keys@);
    assert(normals.len() == plan.normal_keys@.len());
    assert(heavies.len() == plan.heavy_keys@.len());
    assert forall|k: int| 0 <= k < plan.normal_keys@.len() implies (#[trigger] plan.normal_keys@[k])@
        == normals[k] by {}
    assert forall|j: int| 0 <= j < plan.heavy_keys@.len() implies (#[trigger] plan.heavy_keys@[j])@
        == heavies[j] by {}
}

/// Every key and every salt of a plan goes to one of its partitions.
pub proof fn plan_stays_in_range(
    config: Config,
    stats: StatsMetadata,
    seconds: u64,
    plan: PartitionPlan,
)
    requires
        valid_limits(config),
        is_plan(config, stats, seconds, plan),
    ensures
        forall|k: int|
            0 <= k < plan.normal_keys@.len() ==> (#[trigger] plan.normal_keys@[k]).partition_id
                < plan.output_partitions,
        forall|j: int, s: int|
            0 <= j < plan.heavy_keys@.len() && 0 <= s
                < plan.heavy_keys@[j].salt_partitions@.len() ==> (
            #[trigger] plan.heavy_keys@[j].salt_partitions@[s]).partition_id
                < plan.output_partitions,
{
    plan_partitions_positive(config, stats);
    plan_lists(config, stats, plan);
    let n = plan_partitions(config, stats);
    let normals = plan_normals(config, stats);
    let mode = config.partitioning.normal_key_assignment;
    let seed = config.partitioning.seed;
    let rows = plan_rows(config, stats);
    let heavies = plan_heavies(config, stats);
    crate::placement::normals_placed(normals, mode, n, seed);
    let placed = place_normals(normals, mode, n, seed);
    assert forall|k: int| 0 <= k < plan.normal_keys@.len() implies (#[trigger] plan.normal_keys@[k]).partition_id
        < plan.output_partitions by {
        assert(plan.normal_keys@[k]@ == normal_plans(normals, placed.partitions)[k]);
        assert(placed.partitions[k] < n);
    }
    let loads = plan_normal_loads(config, stats);
    assert forall|j: int, s: int|
        0 <= j < plan.heavy_keys@.len() && 0 <= s < plan.heavy_keys@[j].salt_partitions@.len() implies (
    #[trigger] plan.heavy_keys@[j].salt_partitions@[s]).partition_id < plan.output_partitions by {
        assert(plan.heavy_keys@[j]@ == planned_heavy(config, stats, j));
        crate::placement::heavies_placed(loads, heavies.take(j), rows, seed);
        let before = heavy_loads(loads, heavies.take(j), rows, seed);
        let count = salts_of(heavies[j].frequency, rows);
        crate::placement::salts_placed(
            before,
            heavies[j].key,
            heavies[j].frequency,
            count,
            count as nat,
            seed,
        );
        assert(heavy_salt_partitions(loads, heavies, rows, seed, j)[s] < n);
    }
}

/// A heavy key gets as many salts as partitions of the target size would need for
/// its rows, and each salt once.
pub proof fn plan_salts_heavy_keys(
    config: Config,
    stats: StatsMetadata,
    seconds: u64,
    plan: PartitionPlan,
    j: int,
)
    requires
        valid_limits(config),
        is_plan(config, stats, seconds, plan),
        0 <= j < plan.heavy_keys@.len(),
        plan.heavy_keys@[j].estimated_frequency <= usize::MAX,
    ensures
        plan.heavy_keys@[j].salt_count == crate::targeting::max2(
            crate::arith::ceil_div_spec(
                plan.heavy_keys@[j].estimated_frequency as int,
                plan.target_partition_rows as int,
            ),
            1,
        ),
        plan.heavy_keys@[j].salt_partitions@.len() == plan.heavy_keys@[j].salt_count,
        forall|s: int|
            0 <= s < plan.heavy_keys@[j].salt_count ==> (
            #[trigger] plan.heavy_keys@[j].salt_partitions@[s]).salt_index == s,
{
    plan_partitions_positive(config, stats);
    plan_lists(config, stats, plan);
    crate::targeting::target_within_limits(
        config,
        stats.input.total_rows,
        stats.input.estimated_row_width_bytes,
    );
    let rows = plan_rows(config, stats);
    let seed = config.partitioning.seed;
    let heavies = plan_heavies(config, stats);
    let loads = plan_normal_loads(config, stats);
    assert(plan.heavy_keys@[j]@ == planned_heavy(config, stats, j));
    crate::placement::normals_placed(
        plan_normals(config, stats),
        config.partitioning.normal_key_assignment,
        plan_partitions(config, stats),
        seed,
    );
    crate::placement::heavies_placed(loads, heavies.take(j), rows, seed);
    let before = heavy_loads(loads, heavies.take(j), rows, seed);
    let count = salts_of(heavies[j].frequency, rows);
    crate::placement::salts_placed(
        before,
        heavies[j].key,
        heavies[j].frequency,
        count,
        count as nat,
        seed,
    );
    let f = heavies[j].frequency as int;
    let r = if rows > 1 { rows as int } else { 1 };
    assert((f + r - 1) / r <= f || f == 0) by (nonlinear_arith)
        requires
            f >= 0,
            r >= 1,
    ;
    assert(f == 0 ==> (f + r - 1) / r == 0) by (nonlinear_arith)
        requires
            r >= 1,
    ;
    assert((f + r - 1) / r >= 0) by (nonlinear_arith)
        requires
            f >= 0,
            r >= 1,
    ;
}

/// With all keys known, the planned loads add up to the frequencies of all keys:
/// no row is planned twice and none is left out.
pub proof fn plan_loads_add_up(config: Config, stats: StatsMetadata)
    requires
        valid_limits(config),
        stats.heavy_hitter_detection.normal_keys_materialized,
        total_frequency(stats.input.key_frequencies.pairs()) <= usize::MAX,
    ensures
        load_total(plan_loads(config, stats)) == total_frequency(
            stats.input.key_frequencies.pairs(),
        ),
        plan_loads(config, stats).len() == plan_partitions(config, stats),
{
    plan_partitions_positive(config, stats);
    let pairs = stats.input.key_frequencies.pairs();
    let alpha = config.partitioning.heavy_key_alpha;
    let rows = plan_rows(config, stats);
    let heavies = plan_heavies(config, stats);
    crate::placement::frequencies_split(pairs, alpha, rows);
    crate::placement::normals_placed(
        plan_normals(config, stats),
        config.partitioning.normal_key_assignment,
        plan_partitions(config, stats),
        config.partitioning.seed,
    );
    crate::placement::heavies_placed(
        plan_normal_loads(config, stats),
        heavies,
        rows,
        config.partitioning.seed,
    );
    assert forall|j: int| 0 <= j < heavies.len() implies salts_of(
        #[trigger] heavies[j].frequency,
        rows,
    ) > 0 by {
        crate::placement::hitter_bounded(heavies, j);
        crate::placement::salts_positive(heavies[j].frequency, rows);
    }
}

/// With all keys known, each of them is either a heavy key of the plan or one of
/// the others, and the plan names no other keys.
pub proof fn plan_covers_keys(
    config: Config,
    stats: StatsMetadata,
    seconds: u64,
    plan: PartitionPlan,
    key: Seq<char>,
)
    requires
        crate::keymap::sorted_by_key(stats.input.key_frequencies.pairs()),
        stats.heavy_hitter_detection.normal_keys_materialized,
        is_plan(config, stats, seconds, plan),
    ensures
        stats.input.key_frequencies@.contains_key(key) <==> plans_normal(plan, key) || plans_heavy(
            plan,
            key,
        ),
        !(plans_normal(plan, key) && plans_heavy(plan, key)),
{
    plan_lists(config, stats, plan);
    let pairs = stats.input.key_frequencies.pairs();
    let alpha = config.partitioning.heavy_key_alpha;
    let rows = plan_rows(config, stats);
    let ordered = plan_normals(config, stats);
    let heavies = plan_heavies(config, stats);
    if plans_normal(plan, key) {
        let k = choose|k: int|
            0 <= k < plan.normal_keys@.len() && #[trigger] plan.normal_keys@[k].key@ == key;
        assert(plan.normal_keys@[k]@.key == ordered[k].0);
        assert(ordered.contains(ordered[k]));
        crate::placement::normal_keys_listed(pairs, alpha, rows, ordered[k]);
        let i = choose|i: int| 0 <= i < pairs.len() && pairs[i] == ordered[k];
        crate::keymap::as_map_at(pairs, i);
        assert(crate::heavy_hitters::heavy_of(pairs, alpha, rows, pairs[i]) is None);
        if plans_heavy(plan, key) {
            let o = heavy_position(config, stats, plan, key);
            crate::keymap::sorted_positions_unique(pairs, i, o);
        }
    }
    if plans_heavy(plan, key) {
        let o = heavy_position(config, stats, plan, key);
        crate::keymap::as_map_at(pairs, o);
    }
    if stats.input.key_frequencies@.contains_key(key) {
        let i = crate::keymap::position_of(pairs, key);
        let pair = pairs[i];
        match crate::heavy_hitters::heavy_of(pairs, alpha, rows, pair) {
            None => {
                crate::placement::normal_keys_listed(pairs, alpha, rows, pair);
                assert(pairs.contains(pair));
                let k = choose|k: int| 0 <= k < ordered.len() && ordered[k] == pair;
                assert(plan.normal_keys@[k]@.key == pair.0);
                assert(plan.normal_keys@[k].key@ == key);
            },
            Some(h) => {
                crate::placement::heavy_keys_listed(pairs, alpha, rows, h);
                assert(crate::heavy_hitters::heavy_of(pairs, alpha, rows, pairs[i]) == Some(h));
                let j = choose|j: int| 0 <= j < heavies.len() && heavies[j] == h;
                assert(plan.heavy_keys@[j]@ == planned_heavy(config, stats, j));
                assert(plan.heavy_keys@[j].key@ == key);
            },
        }
    }
}

proof fn heavy_position(
    config: Config,
    stats: StatsMetadata,
    plan: PartitionPlan,
    key: Seq<char>,
) -> (i: int)
    requires
        places_keys(config, stats, plan),
        plans_heavy(plan, key),
    ensures
        0 <= i < stats.input.key_frequencies.pairs().len(),
        stats.input.key_frequencies.pairs()[i].0 == key,
        crate::heavy_hitters::heavy_of(
            stats.input.key_frequencies.pairs(),
            config.partitioning.heavy_key_alpha,
            plan_rows(config, stats),
            stats.input.key_frequencies.pairs()[i],
        ) is Some,
{
    plan_lists(config, stats, plan);
    let pairs = stats.input.key_frequencies.pairs();
    let alpha = config.partitioning.heavy_key_alpha;
    let rows = plan_rows(config, stats);
    let heavies = plan_heavies(config, stats);
    let j = choose|j: int|
        0 <= j < plan.heavy_keys@.len() && #[trigger] plan.heavy_keys@[j].key@ == key;
    assert(plan.heavy_keys@[j]@ == planned_heavy(config, stats, j));
    assert(heavies.contains(heavies[j]));
    crate::placement::heavy_keys_listed(pairs, alpha, rows, heavies[j]);
    choose|i: int|
        0 <= i < pairs.len() && crate::heavy_hitters::heavy_of(
            pairs,
            alpha,
            rows,
            #[trigger] pairs[i],
        ) == Some(heavies[j])
}

/// A plan names a key among those that are not heavy.
pub open spec fn plans_normal(plan: PartitionPlan, key: Seq<char>) -> bool {
    exists|k: int| 0 <= k < plan.normal_keys@.len() && #[trigger] plan.normal_keys@[k].key@ == key
}

/// A plan names a key among the heavy ones.
pub open spec fn plans_heavy(plan: PartitionPlan, key: Seq<char>) -> bool {
    exists|j: int| 0 <= j < plan.heavy_keys@.len() && #[trigger] plan.heavy_keys@[j].key@ == key
}

/// A plan that leaves the dataset as it is costs nothing, and leaves it so only
/// without heavy keys.
pub proof fn no_op_costs_nothing(
    config: Config,
    stats: StatsMetadata,
    seconds: u64,
    plan: PartitionPlan,
)
    requires
        is_plan(config, stats, seconds, plan),
        !plan.rewrite_required,
    ensures
        plan.action == PlanAction::NoOp,
        plan.skip_reason is Some,
        plan.heavy_keys@.len() == 0,
        !config.partitioning.force_rewrite,
        plan.cost_estimate.estimated_rows_read == 0,
        plan.cost_estimate.estimated_rows_written == 0,
        plan.cost_estimate.estimated_bytes_read == Some(0u64),
        plan.cost_estimate.estimated_bytes_written == Some(0u64),
{
    plan_lists(config, stats, plan);
}

/// A dataset is left as it is only if its partitions are within bounds or the plan
/// would not make them less uneven.
pub proof fn no_op_is_justified(
    config: Config,
    stats: StatsMetadata,
    seconds: u64,
    plan: PartitionPlan,
)
    requires
        is_plan(config, stats, seconds, plan),
        !plan.rewrite_required,
    ensures
        (stats.skew.max_partition_size <= plan.target_partition_rows && !value_exceeds(
            stats.skew.max_mean_imbalance_ratio,
            config.partitioning.no_op_max_imbalance_ratio,
        )) || !improves_skew(
            stats.estimates.before_partition_sizes@,
            load_numbers(plan_loads(config, stats)),
        ),
{
}

/// A rewrite that is neither forced nor due to heavy keys makes the partitions less
/// uneven: with as many rows as before, the ratio of the largest to the mean falls,
/// or the largest does.
pub proof fn rewrite_improves_skew(
    config: Config,
    stats: StatsMetadata,
    seconds: u64,
    plan: PartitionPlan,
)
    requires
        is_plan(config, stats, seconds, plan),
        plan.rewrite_required,
        !config.partitioning.force_rewrite,
        plan.heavy_keys@.len() == 0,
        total(load_numbers(plan_loads(config, stats))) == total(
            stats.estimates.before_partition_sizes@,
        ),
    ensures
        scaled_less(
            imbalance_value(load_numbers(plan_loads(config, stats))),
            imbalance_value(stats.estimates.before_partition_sizes@),
        ) || largest(load_numbers(plan_loads(config, stats))) < largest(
            stats.estimates.before_partition_sizes@,
        ),
{
    plan_lists(config, stats, plan);
}

} // verus!
