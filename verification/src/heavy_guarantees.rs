//! Which keys are heavy, stated on the frequencies themselves.

use vstd::prelude::*;
use crate::binary64::Binary64;
use crate::config::Config;
use crate::heavy_hitters::{
    above_mean, candidate_of, candidates, heavy_keys_of, heavy_of, heavy_reasons,
    mean_frequency_value, occurrences, total_frequency, HeavyHitterText,
};
use crate::keymap::{as_map_at, position_of, sorted_by_key};
use crate::manifest::{HeavyKeyReason, PartitionPlan, StatsMetadata};
use crate::planner::{
    is_plan, plan_covers_keys, plan_heavies, plan_lists, plan_rows, planned_heavy, plans_heavy,
    plans_normal,
};
use crate::rounding::{counts_keep_order, less_means_less, thresholds_follow_their_factor, value};
use crate::text::text_less;

verus! {

/// A key that is at least as frequent as one above the threshold is above it too,
/// whatever the factor.
pub proof fn thresholds_keep_order(
    pairs: Seq<(Seq<char>, u64)>,
    alpha: Binary64,
    frequency: u64,
    more: u64,
)
    requires
        frequency <= more,
        above_mean(pairs, alpha, frequency),
    ensures
        above_mean(pairs, alpha, more),
{
    let base = mean_frequency_value(pairs);
    counts_keep_order(frequency as nat, more as nat);
    let t = crate::binary64::product(alpha.magnitude(), base);
    less_means_less(t, crate::binary64::count_value(frequency as nat));
    less_means_less(t, crate::binary64::count_value(more as nat));
}

/// The heavy keys are keys with their frequencies. A key is heavy where it has more rows
/// than a partition should hold, or more than the factor times the mean; the reasons say
/// which, and at least one is given.
pub proof fn heavy_keys_have_reasons(
    pairs: Seq<(Seq<char>, u64)>,
    alpha: Binary64,
    target_partition_rows: u64,
    heavy: HeavyHitterText,
)
    requires
        heavy_keys_of(pairs, alpha, target_partition_rows).contains(heavy),
    ensures
        pairs.contains((heavy.key, heavy.frequency)),
        heavy.reasons.len() > 0,
        heavy.reasons.contains(HeavyKeyReason::ExceedsTargetPartitionRows) <==> heavy.frequency
            > target_partition_rows,
        heavy.reasons.contains(HeavyKeyReason::AboveMeanThreshold) <==> above_mean(
            pairs,
            alpha,
            heavy.frequency,
        ),
{
    crate::placement::heavy_keys_listed(pairs, alpha, target_partition_rows, heavy);
    let i = choose|i: int|
        0 <= i < pairs.len() && heavy_of(pairs, alpha, target_partition_rows, #[trigger] pairs[i])
            == Some(heavy);
    let f = pairs[i].1;
    assert(pairs[i] == (heavy.key, heavy.frequency));
    let reasons = heavy_reasons(pairs, alpha, target_partition_rows, f);
    assert(heavy.reasons == reasons);
    if above_mean(pairs, alpha, f) {
        assert(reasons[0] == HeavyKeyReason::AboveMeanThreshold);
    }
    if f > target_partition_rows {
        assert(reasons[reasons.len() - 1] == HeavyKeyReason::ExceedsTargetPartitionRows);
    }
}

/// The first keys that are found by the mean alone are heavy for that reason alone, and
/// each key above the threshold is among them.
pub proof fn candidates_are_above_the_mean(
    pairs: Seq<(Seq<char>, u64)>,
    alpha: Binary64,
    key: Seq<char>,
    frequency: u64,
)
    ensures
        candidates(pairs, alpha).contains(
            HeavyHitterText {
                key,
                frequency,
                reasons: seq![HeavyKeyReason::AboveMeanThreshold],
            },
        ) <==> pairs.contains((key, frequency)) && above_mean(pairs, alpha, frequency),
        forall|i: int|
            0 <= i < candidates(pairs, alpha).len() ==> (#[trigger] candidates(
                pairs,
                alpha,
            )[i]).reasons == seq![HeavyKeyReason::AboveMeanThreshold],
{
    let f = |pair: (Seq<char>, u64)| candidate_of(pairs, alpha, pair);
    let heavy = HeavyHitterText {
        key,
        frequency,
        reasons: seq![HeavyKeyReason::AboveMeanThreshold],
    };
    crate::placement::filter_map_listed(pairs, f, heavy);
    if pairs.contains((key, frequency)) && above_mean(pairs, alpha, frequency) {
        let i = choose|i: int| 0 <= i < pairs.len() && pairs[i] == (key, frequency);
        assert(f(pairs[i]) == Some(heavy));
    }
    if candidates(pairs, alpha).contains(heavy) {
        let i = choose|i: int| 0 <= i < pairs.len() && #[trigger] f(pairs[i]) == Some(heavy);
        assert(pairs[i] == (key, frequency));
    }
    assert forall|i: int| 0 <= i < candidates(pairs, alpha).len() implies (
    #[trigger] candidates(pairs, alpha)[i]).reasons == seq![HeavyKeyReason::AboveMeanThreshold] by {
        let found = candidates(pairs, alpha)[i];
        crate::placement::filter_map_listed(pairs, f, found);
        assert(candidates(pairs, alpha).contains(found));
        let k = choose|k: int| 0 <= k < pairs.len() && #[trigger] f(pairs[k]) == Some(found);
    }
}

/// A plan treats a key by its frequency. Every key with more rows than a partition
/// should hold is heavy, and so is every key that is clearly above the factor times the
/// mean; a key that is clearly not, and has no more rows than a partition should hold,
/// is not heavy. Clearly: by more than one part in `2^49`.
pub proof fn frequent_keys_are_heavy(
    config: Config,
    stats: StatsMetadata,
    seconds: u64,
    plan: PartitionPlan,
    key: Seq<char>,
)
    requires
        sorted_by_key(stats.input.key_frequencies.pairs()),
        stats.heavy_hitter_detection.normal_keys_materialized,
        is_plan(config, stats, seconds, plan),
        stats.input.key_frequencies@.contains_key(key),
        config.partitioning.heavy_key_alpha.positive(),
        total_frequency(stats.input.key_frequencies.pairs()) > 0,
    ensures
        ({
            let frequency = stats.input.key_frequencies@[key];
            let keys = stats.input.key_frequencies.pairs().len() as real;
            let sum = total_frequency(stats.input.key_frequencies.pairs()) as real;
            let limit = value(config.partitioning.heavy_key_alpha.magnitude()) * sum;
            let have = (frequency as real) * keys;
            let parts = 0x2_0000_0000_0000 as real;
            &&& frequency > plan.target_partition_rows ==> plans_heavy(plan, key)
            &&& have * parts > limit * (parts + (1 as real)) ==> plans_heavy(plan, key)
            &&& frequency <= plan.target_partition_rows && have * (parts + (1 as real)) <= limit
                * parts ==> plans_normal(plan, key)
            &&& plans_heavy(plan, key) != plans_normal(plan, key)
        }),
{
    plan_lists(config, stats, plan);
    plan_covers_keys(config, stats, seconds, plan, key);
    let pairs = stats.input.key_frequencies.pairs();
    let alpha = config.partitioning.heavy_key_alpha;
    let rows = plan_rows(config, stats);
    let i = position_of(pairs, key);
    as_map_at(pairs, i);
    let frequency = stats.input.key_frequencies@[key];
    assert(pairs[i] == (key, frequency));
    assert(pairs.len() > 0);
    thresholds_follow_their_factor(frequency as nat, alpha, total_frequency(pairs), pairs.len());
    heavy_or_not(config, stats, seconds, plan, key);
}

proof fn heavy_or_not(
    config: Config,
    stats: StatsMetadata,
    seconds: u64,
    plan: PartitionPlan,
    key: Seq<char>,
)
    requires
        sorted_by_key(stats.input.key_frequencies.pairs()),
        stats.heavy_hitter_detection.normal_keys_materialized,
        is_plan(config, stats, seconds, plan),
        stats.input.key_frequencies@.contains_key(key),
    ensures
        plans_heavy(plan, key) <==> stats.input.key_frequencies@[key] > plan.target_partition_rows
            || above_mean(
            stats.input.key_frequencies.pairs(),
            config.partitioning.heavy_key_alpha,
            stats.input.key_frequencies@[key],
        ),
        plans_heavy(plan, key) != plans_normal(plan, key),
{
    plan_lists(config, stats, plan);
    plan_covers_keys(config, stats, seconds, plan, key);
    let pairs = stats.input.key_frequencies.pairs();
    let alpha = config.partitioning.heavy_key_alpha;
    let rows = plan_rows(config, stats);
    let heavies = plan_heavies(config, stats);
    let i = position_of(pairs, key);
    as_map_at(pairs, i);
    let h = heavy_of(pairs, alpha, rows, pairs[i]);
    if h is Some {
        crate::placement::heavy_keys_listed(pairs, alpha, rows, h->0);
        let j = choose|j: int| 0 <= j < heavies.len() && heavies[j] == h->0;
        assert(plan.heavy_keys@[j]@ == planned_heavy(config, stats, j));
        assert(plan.heavy_keys@[j].key@ == key);
    } else {
        crate::placement::normal_keys_listed(pairs, alpha, rows, pairs[i]);
        let normals = crate::planner::plan_normals(config, stats);
        assert(pairs.contains(pairs[i]));
        let k = choose|k: int| 0 <= k < normals.len() && normals[k] == pairs[i];
        assert(plan.normal_keys@[k]@.key == key);
        assert(plan.normal_keys@[k].key@ == key);
    }
}

/// In a plan, no key that is not heavy is as frequent as a heavy one.
pub proof fn heavy_keys_are_the_most_frequent(
    config: Config,
    stats: StatsMetadata,
    seconds: u64,
    plan: PartitionPlan,
    j: int,
    k: int,
)
    requires
        is_plan(config, stats, seconds, plan),
        0 <= j < plan.heavy_keys@.len(),
        0 <= k < plan.normal_keys@.len(),
    ensures
        plan.heavy_keys@[j].estimated_frequency > plan.normal_keys@[k].estimated_frequency,
        plan.normal_keys@[k].estimated_frequency <= plan.target_partition_rows,
{
    plan_lists(config, stats, plan);
    let pairs = stats.input.key_frequencies.pairs();
    let alpha = config.partitioning.heavy_key_alpha;
    let rows = plan_rows(config, stats);
    let heavies = plan_heavies(config, stats);
    let normals = crate::planner::plan_normals(config, stats);
    assert(plan.heavy_keys@[j]@ == planned_heavy(config, stats, j));
    assert(plan.normal_keys@[k]@.key == normals[k].0);
    assert(heavies.contains(heavies[j]));
    heavy_keys_have_reasons(pairs, alpha, rows, heavies[j]);
    assert(normals.contains(normals[k]));
    crate::placement::normal_keys_listed(pairs, alpha, rows, normals[k]);
    let f = heavies[j].frequency;
    let g = normals[k].1;
    assert(heavy_reasons(pairs, alpha, rows, g).len() == 0);
    assert(heavies[j].reasons.contains(heavies[j].reasons[0]));
    if f <= g {
        if above_mean(pairs, alpha, f) {
            thresholds_keep_order(pairs, alpha, f, g);
        }
    }
}

/// The occurrences of a key are the times that it is counted.
pub proof fn occurrences_are_counted(keys: Seq<Seq<char>>, key: Seq<char>)
    ensures
        occurrences(keys, key) == keys.to_multiset().count(key),
    decreases keys.len(),
{
    broadcast use vstd::seq_lib::group_to_multiset_ensures;

    keys.to_multiset_ensures();
    if keys.len() > 0 {
        occurrences_are_counted(keys.drop_last(), key);
        assert(keys =~= keys.drop_last().push(keys.last()));
        keys.drop_last().to_multiset_ensures();
    }
}

/// The heavy keys of a plan stand in the order of their keys.
pub proof fn heavy_keys_stand_in_key_order(
    config: Config,
    stats: StatsMetadata,
    seconds: u64,
    plan: PartitionPlan,
    i: int,
    j: int,
)
    requires
        is_plan(config, stats, seconds, plan),
        sorted_by_key(stats.input.key_frequencies.pairs()),
        0 <= i < j < plan.heavy_keys@.len(),
    ensures
        text_less(plan.heavy_keys@[i].key@, plan.heavy_keys@[j].key@),
{
    plan_lists(config, stats, plan);
    let pairs = stats.input.key_frequencies.pairs();
    let alpha = config.partitioning.heavy_key_alpha;
    let rows = plan_rows(config, stats);
    let heavies = plan_heavies(config, stats);
    assert(plan.heavy_keys@[i]@ == planned_heavy(config, stats, i));
    assert(plan.heavy_keys@[j]@ == planned_heavy(config, stats, j));
    let f = |pair: (Seq<char>, u64)| heavy_of(pairs, alpha, rows, pair);
    assert(heavies == pairs.filter_map(f));
    order_is_kept(pairs, f, i, j);
}

proof fn order_is_kept(
    pairs: Seq<(Seq<char>, u64)>,
    f: spec_fn((Seq<char>, u64)) -> Option<HeavyHitterText>,
    i: int,
    j: int,
)
    requires
        sorted_by_key(pairs),
        forall|pair: (Seq<char>, u64)| #[trigger] f(pair) matches Some(heavy) ==> heavy.key == pair.0,
        0 <= i < j < pairs.filter_map(f).len(),
    ensures
        text_less(pairs.filter_map(f)[i].key, pairs.filter_map(f)[j].key),
    decreases pairs.len(),
{
    reveal(Seq::filter_map);
    if pairs.len() > 0 {
        let n = pairs.len() - 1;
        let rest = pairs.take(n);
        pairs.lemma_filter_map_take_succ(f, n);
        assert(pairs.take(n + 1) =~= pairs);
        assert forall|a: int, b: int| 0 <= a < b < rest.len() implies text_less(
            #[trigger] rest[a].0,
            #[trigger] rest[b].0,
        ) by {
            assert(rest[a] == pairs[a] && rest[b] == pairs[b]);
        }
        let kept = rest.filter_map(f);
        if j < kept.len() {
            order_is_kept(rest, f, i, j);
            assert(pairs.filter_map(f)[i] == kept[i]);
        } else {
            assert(f(pairs[n]) == Some(pairs.filter_map(f)[j]));
            assert(pairs.filter_map(f)[i] == kept[i]);
            assert(kept.contains(kept[i]));
            crate::placement::filter_map_listed(rest, f, kept[i]);
            let a = choose|a: int| 0 <= a < rest.len() && #[trigger] f(rest[a]) == Some(kept[i]);
            assert(rest[a] == pairs[a]);
            assert(text_less(pairs[a].0, pairs[n].0));
        }
    }
}

} // verus!
