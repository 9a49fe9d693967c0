//! How even the partitions of a plan are.

use vstd::prelude::*;
use crate::arith::ceil_div_spec;
use crate::config::{Config, NormalKeyAssignment};
use crate::heavy_hitters::{heavy_of, total_frequency, HeavyHitterText};
use crate::manifest::StatsMetadata;
use crate::placement::{
    frequencies_split, heavies_placed, heavy_loads, hitter_bounded,
    least_loaded_in_range, least_loaded_partition, load_total, load_total_update, no_loads,
    normal_keys_listed, normals_placed, place_normals, place_salts, salt_share,
    salts_of, salts_placed, taken_before, with_load,
};
use crate::planner::{
    plan_heavies, plan_loads, plan_normal_loads, plan_normals, plan_partitions,
    plan_partitions_positive, plan_rows, valid_limits,
};

verus! {

/// No load is further above the mean than `slack`.
pub open spec fn within(loads: Seq<nat>, slack: nat) -> bool {
    forall|p: int|
        0 <= p < loads.len() ==> loads.len() * #[trigger] loads[p] <= load_total(loads)
            + loads.len() * slack
}

proof fn total_of_at_least(loads: Seq<nat>, low: nat)
    requires
        forall|q: int| 0 <= q < loads.len() ==> low <= #[trigger] loads[q],
    ensures
        loads.len() * low <= load_total(loads),
    decreases loads.len(),
{
    if loads.len() > 0 {
        let rest = loads.drop_last();
        assert forall|q: int| 0 <= q < rest.len() implies low <= #[trigger] rest[q] by {
            assert(rest[q] == loads[q]);
        }
        total_of_at_least(rest, low);
        assert(loads[loads.len() - 1] >= low);
        let n = loads.len() as int;
        assert(n * low == (n - 1) * low + low) by (nonlinear_arith);
    } else {
        assert(0 * low == 0);
    }
}

proof fn least_placed_within(
    loads: Seq<nat>,
    key: Seq<char>,
    salt: Option<usize>,
    seed: u64,
    load: nat,
    slack: nat,
)
    requires
        0 < loads.len(),
        within(loads, slack),
        load <= slack,
    ensures
        within(
            with_load(loads, least_loaded_partition(loads, key, salt, seed), load),
            slack,
        ),
{
    least_loaded_in_range(loads, key, salt, seed);
    let p = least_loaded_partition(loads, key, salt, seed);
    let low = loads[p];
    assert forall|q: int| 0 <= q < loads.len() implies low <= #[trigger] loads[q] by {
        if q != p {
            assert(taken_before(loads, key, salt, seed, p, q));
        }
    }
    total_of_at_least(loads, low);
    load_total_update(loads, p, load);
    let after = with_load(loads, p, load);
    let n = loads.len();
    assert forall|q: int| 0 <= q < after.len() implies after.len() * #[trigger] after[q]
        <= load_total(after) + after.len() * slack by {
        if q == p {
            assert(n * (low + load) == n * low + n * load) by (nonlinear_arith);
            assert(n * load <= n * slack) by (nonlinear_arith)
                requires
                    load <= slack,
            ;
        } else {
            assert(after[q] == loads[q]);
        }
    }
}

proof fn normals_within(
    keys: Seq<(Seq<char>, u64)>,
    n: usize,
    seed: u64,
    slack: nat,
)
    requires
        n > 0,
        forall|k: int| 0 <= k < keys.len() ==> (#[trigger] keys[k]).1 <= slack,
    ensures
        within(place_normals(keys, NormalKeyAssignment::LoadAware, n, seed).loads, slack),
    decreases keys.len(),
{
    if keys.len() == 0 {
        let loads = no_loads(n);
        assert forall|p: int| 0 <= p < loads.len() implies loads.len() * #[trigger] loads[p]
            <= load_total(loads) + loads.len() * slack by {
            assert(loads.len() * loads[p] == 0) by (nonlinear_arith)
                requires
                    loads[p] == 0,
            ;
        }
    } else {
        let rest = keys.drop_last();
        assert forall|k: int| 0 <= k < rest.len() implies (#[trigger] rest[k]).1 <= slack by {
            assert(rest[k] == keys[k]);
        }
        normals_within(rest, n, seed, slack);
        normals_placed(rest, NormalKeyAssignment::LoadAware, n, seed);
        let before = place_normals(rest, NormalKeyAssignment::LoadAware, n, seed).loads;
        assert(keys[keys.len() - 1].1 <= slack);
        least_placed_within(before, keys.last().0, None, seed, keys.last().1 as nat, slack);
        least_loaded_in_range(before, keys.last().0, None, seed);
    }
}

proof fn salts_within(
    loads: Seq<nat>,
    key: Seq<char>,
    frequency: u64,
    salt_count: usize,
    salts: nat,
    seed: u64,
    slack: nat,
)
    requires
        0 < loads.len() <= usize::MAX,
        salts <= salt_count,
        within(loads, slack),
        forall|s: int|
            0 <= s < salt_count ==> #[trigger] salt_share(frequency, salt_count, s) <= slack,
    ensures
        within(place_salts(loads, key, frequency, salt_count, salts, seed).loads, slack),
    decreases salts,
{
    if salts > 0 {
        let fewer = (salts - 1) as nat;
        salts_within(loads, key, frequency, salt_count, fewer, seed, slack);
        salts_placed(loads, key, frequency, salt_count, fewer, seed);
        let before = place_salts(loads, key, frequency, salt_count, fewer, seed).loads;
        let salt = fewer as usize;
        least_placed_within(
            before,
            key,
            Some(salt),
            seed,
            salt_share(frequency, salt_count, salt as int),
            slack,
        );
        least_loaded_in_range(before, key, Some(salt), seed);
    }
}

/// No salt of a heavy key takes more rows than a partition should hold.
pub proof fn salt_share_fits(frequency: u64, target_partition_rows: u64, salt: int)
    requires
        frequency <= usize::MAX,
        target_partition_rows >= 1,
        0 <= salt,
    ensures
        salt_share(frequency, salts_of(frequency, target_partition_rows), salt)
            <= target_partition_rows,
{
    let f = frequency as int;
    let r = target_partition_rows as int;
    let count = ceil_div_spec(f, r);
    assert((f + r - 1) / r <= f || f == 0) by (nonlinear_arith)
        requires
            f >= 0,
            r >= 1,
    ;
    assert(f == 0 ==> (f + r - 1) / r == 0) by (nonlinear_arith)
        requires
            r >= 1,
    ;
    assert(r * ((f + r - 1) / r) >= f) by (nonlinear_arith)
        requires
            f >= 0,
            r >= 1,
    ;
    let c = salts_of(frequency, target_partition_rows) as int;
    assert(r * c >= f) by {
        if count <= 1 {
            assert(c == 1);
            assert(r * count <= r * 1) by (nonlinear_arith)
                requires
                    count <= 1,
                    r >= 1,
            ;
        }
    }
    vstd::arithmetic::div_mod::lemma_fundamental_div_mod(f, c);
    let q = f / c;
    let m = f % c;
    assert(q <= r && (m > 0 ==> q < r)) by (nonlinear_arith)
        requires
            f == c * q + m,
            0 <= m < c,
            r * c >= f,
            c >= 1,
    ;
}

proof fn heavies_within(
    loads: Seq<nat>,
    heavies: Seq<HeavyHitterText>,
    rows: u64,
    seed: u64,
)
    requires
        0 < loads.len() <= usize::MAX,
        rows >= 1,
        within(loads, rows as nat),
        forall|j: int| 0 <= j < heavies.len() ==> (#[trigger] heavies[j]).frequency <= usize::MAX,
    ensures
        within(heavy_loads(loads, heavies, rows, seed), rows as nat),
    decreases heavies.len(),
{
    if heavies.len() > 0 {
        let rest = heavies.drop_last();
        let heavy = heavies[heavies.len() - 1];
        assert forall|j: int| 0 <= j < rest.len() implies (#[trigger] rest[j]).frequency
            <= usize::MAX by {
            assert(rest[j] == heavies[j]);
        }
        heavies_within(loads, rest, rows, seed);
        heavies_placed(loads, rest, rows, seed);
        let count = salts_of(heavy.frequency, rows);
        assert forall|s: int| 0 <= s < count implies #[trigger] salt_share(
            heavy.frequency,
            count,
            s,
        ) <= rows by {
            salt_share_fits(heavy.frequency, rows, s);
        }
        salts_within(
            heavy_loads(loads, rest, rows, seed),
            heavy.key,
            heavy.frequency,
            count,
            count as nat,
            seed,
            rows as nat,
        );
    }
}

/// Placement by load prevents skew: no partition is planned to hold more rows than
/// the mean and the rows that a partition should hold together.
pub proof fn load_aware_plan_is_even(config: Config, stats: StatsMetadata)
    requires
        valid_limits(config),
        config.partitioning.normal_key_assignment == NormalKeyAssignment::LoadAware,
        total_frequency(stats.input.key_frequencies.pairs()) <= usize::MAX,
    ensures
        within(plan_loads(config, stats), plan_rows(config, stats) as nat),
{
    let pairs = stats.input.key_frequencies.pairs();
    let alpha = config.partitioning.heavy_key_alpha;
    let rows = plan_rows(config, stats);
    let n = plan_partitions(config, stats);
    let seed = config.partitioning.seed;
    let normals = plan_normals(config, stats);
    let heavies = plan_heavies(config, stats);
    plan_partitions_positive(config, stats);
    crate::targeting::target_within_limits(
        config,
        stats.input.total_rows,
        stats.input.estimated_row_width_bytes,
    );
    frequencies_split(pairs, alpha, rows);
    assert forall|k: int| 0 <= k < normals.len() implies (#[trigger] normals[k]).1 <= rows by {
        assert(normals.contains(normals[k]));
        normal_keys_listed(pairs, alpha, rows, normals[k]);
        assert(heavy_of(pairs, alpha, rows, normals[k]) is None);
    }
    normals_within(normals, n, seed, rows as nat);
    normals_placed(normals, NormalKeyAssignment::LoadAware, n, seed);
    assert forall|j: int| 0 <= j < heavies.len() implies (#[trigger] heavies[j]).frequency
        <= usize::MAX by {
        hitter_bounded(heavies, j);
    }
    heavies_within(plan_normal_loads(config, stats), heavies, rows, seed);
}

} // verus!
