//! What the partitions of a plan receive.

use vstd::prelude::*;
use crate::arith::{sum_over, sum_over_point, sum_over_same, sum_over_zero};
use crate::binary64::Binary64;
use crate::config::{Config, HeavyHitterMode, NormalKeyAssignment};
use crate::dataset::{row_keys, texts, Row};
use crate::hashing::{hashed_partition, hashed_partition_in_range};
use crate::heavy_hitters::{heavy_of, occurrences, HeavyHitterText};
use crate::keymap::{as_map_at, pair_keys, sorted_by_key, sorted_positions_unique};
use crate::manifest::{
    heavy_plan_texts, normal_plan_texts, HeavyKeyPlanText, NormalKeyPlanText, PartitionPlan,
    SaltPartitionPlan, StatsMetadata,
};
use crate::partitioner::{
    assigned, assignments, heavy_lookup, key_count, key_count_bounded, normal_lookup,
    partition_count, salt_cycle, salt_map, RecordText,
};
use crate::placement::{
    heavies_placed, heavy_keys_listed, heavy_loads, heavy_salt_partitions, normal_keys_in_order,
    normal_keys_listed, normals_placed, place_normals, place_salts, placement_order,
    placement_order_total, salt_plans, salt_share, salts_of, salts_placed, salts_positive,
};
use crate::planner::{
    is_plan, plan_covers_keys, plan_heavies, plan_lists, plan_loads, plan_normal_loads,
    plan_normals, plan_partitions, plan_partitions_positive, plan_rows, plan_stays_in_range,
    planned_heavy, plans_heavy, plans_normal, valid_limits,
};
use crate::reader::InputFile;
use crate::statistics::{frequency_map, hashed_count, is_statistics, present_keys};

verus! {

/// Every row is assigned once, in row order, with its own key.
pub proof fn rows_assigned_once(plan: PartitionPlan, keys: Seq<Option<Seq<char>>>)
    requires
        keys.len() <= usize::MAX,
    ensures
        assignments(plan, keys).len() == keys.len(),
        forall|r: int|
            0 <= r < keys.len() ==> {
                &&& (#[trigger] assignments(plan, keys)[r]).row_index == r
                &&& assignments(plan, keys)[r].key == keys[r]
            },
{
    assert forall|r: int| 0 <= r < keys.len() implies {
        &&& (#[trigger] assignments(plan, keys)[r]).row_index == r
        &&& assignments(plan, keys)[r].key == keys[r]
    } by {
        assert(assignments(plan, keys)[r] == assigned(plan, keys, r));
    }
}

/// Rows with the same key go to the same partition, unless the key is heavy.
pub proof fn same_key_same_partition(
    plan: PartitionPlan,
    keys: Seq<Option<Seq<char>>>,
    r: int,
    q: int,
)
    requires
        0 <= r < keys.len(),
        0 <= q < keys.len(),
        keys[r] == keys[q],
        keys[r] is Some ==> heavy_lookup(heavy_plan_texts(plan.heavy_keys@), keys[r]->0) is None,
    ensures
        assigned(plan, keys, r).partition_id == assigned(plan, keys, q).partition_id,
        assigned(plan, keys, r).salt_index is None,
{
}

/// Only rows of heavy keys have a salt.
pub proof fn salts_mark_heavy_keys(plan: PartitionPlan, keys: Seq<Option<Seq<char>>>, r: int)
    requires
        0 <= r < keys.len(),
    ensures
        assigned(plan, keys, r).salt_index is Some <==> keys[r] is Some && heavy_lookup(
            heavy_plan_texts(plan.heavy_keys@),
            keys[r]->0,
        ) is Some,
{
}

/// Every partition that a plan names is one of its partitions.
pub open spec fn names_partitions(plan: PartitionPlan) -> bool {
    &&& plan.output_partitions > 0
    &&& forall|k: int|
        0 <= k < plan.normal_keys@.len() ==> (#[trigger] plan.normal_keys@[k]).partition_id
            < plan.output_partitions
    &&& forall|j: int, s: int|
        0 <= j < plan.heavy_keys@.len() && 0 <= s < plan.heavy_keys@[j].salt_partitions@.len()
            ==> (#[trigger] plan.heavy_keys@[j].salt_partitions@[s]).partition_id
            < plan.output_partitions
}

/// A plan names its own partitions only.
pub proof fn plan_names_partitions(
    config: Config,
    stats: StatsMetadata,
    seconds: u64,
    plan: PartitionPlan,
)
    requires
        valid_limits(config),
        is_plan(config, stats, seconds, plan),
    ensures
        names_partitions(plan),
{
    plan_partitions_positive(config, stats);
    plan_stays_in_range(config, stats, seconds, plan);
}

proof fn normal_lookup_in_range(plans: Seq<NormalKeyPlanText>, key: Seq<char>, n: usize)
    requires
        forall|k: int| 0 <= k < plans.len() ==> (#[trigger] plans[k]).partition_id < n,
    ensures
        normal_lookup(plans, key) matches Some(p) ==> p < n,
    decreases plans.len(),
{
    if plans.len() > 0 && plans.last().key != key {
        normal_lookup_in_range(plans.drop_last(), key, n);
    }
}

proof fn heavy_lookup_listed(plans: Seq<HeavyKeyPlanText>, key: Seq<char>)
    ensures
        heavy_lookup(plans, key) matches Some(salts) ==> exists|j: int|
            0 <= j < plans.len() && (#[trigger] plans[j]).key == key && plans[j].salt_partitions
                == salts,
        heavy_lookup(plans, key) is None <==> forall|j: int|
            0 <= j < plans.len() ==> (#[trigger] plans[j]).key != key,
    decreases plans.len(),
{
    if plans.len() > 0 {
        let rest = plans.drop_last();
        let last = plans.len() - 1;
        heavy_lookup_listed(rest, key);
        assert(plans[last] == plans.last());
        if plans.last().key != key {
            if heavy_lookup(rest, key) is Some {
                let salts = heavy_lookup(rest, key)->0;
                let j = choose|j: int|
                    0 <= j < rest.len() && (#[trigger] rest[j]).key == key
                        && rest[j].salt_partitions == salts;
                assert(plans[j].key == key);
            } else {
                assert forall|j: int| 0 <= j < plans.len() implies (#[trigger] plans[j]).key
                    != key by {
                    if j < last {
                        assert(rest[j].key != key);
                    }
                }
            }
        }
    }
}

proof fn salt_map_in_range(salts: Seq<SaltPartitionPlan>, salt: usize, n: usize)
    requires
        forall|s: int| 0 <= s < salts.len() ==> (#[trigger] salts[s]).partition_id < n,
        salt_map(salts).contains_key(salt),
    ensures
        salt_map(salts)[salt] < n,
    decreases salts.len(),
{
    if salts.len() > 0 && salts.last().salt_index != salt {
        salt_map_in_range(salts.drop_last(), salt, n);
    }
}

/// Every row goes to one of the partitions.
pub proof fn assigned_in_range(plan: PartitionPlan, keys: Seq<Option<Seq<char>>>, r: int)
    requires
        names_partitions(plan),
        0 <= r < keys.len(),
    ensures
        assigned(plan, keys, r).partition_id < plan.output_partitions,
{
    let n = plan.output_partitions;
    let normals = normal_plan_texts(plan.normal_keys@);
    let heavies = heavy_plan_texts(plan.heavy_keys@);
    match keys[r] {
        None => {
            hashed_partition_in_range("<missing_partition_key>"@, n, plan.seed);
        },
        Some(key) => {
            hashed_partition_in_range(key, n, plan.seed);
            assert forall|k: int| 0 <= k < normals.len() implies (
            #[trigger] normals[k]).partition_id < n by {
                assert(normals[k] == plan.normal_keys@[k]@);
            }
            normal_lookup_in_range(normals, key, n);
            heavy_lookup_listed(heavies, key);
            if heavy_lookup(heavies, key) is Some {
                let salts = heavy_lookup(heavies, key)->0;
                let j = choose|j: int|
                    0 <= j < heavies.len() && (#[trigger] heavies[j]).key == key
                        && heavies[j].salt_partitions == salts;
                assert(heavies[j] == plan.heavy_keys@[j]@);
                assert(salts == plan.heavy_keys@[j].salt_partitions@);
                let salt = (key_count(keys.take(r), key) as int % salt_cycle(salts)) as usize;
                if salt_map(salts).contains_key(salt) {
                    salt_map_in_range(salts, salt, n);
                }
            }
        },
    }
}

proof fn partition_counts_add_up(records: Seq<RecordText>, n: usize)
    requires
        forall|r: int| 0 <= r < records.len() ==> (#[trigger] records[r]).partition_id < n,
    ensures
        sum_over(|p: int| partition_count(records, p), n as nat) == records.len(),
    decreases records.len(),
{
    let after = |p: int| partition_count(records, p);
    if records.len() == 0 {
        sum_over_zero(after, n as nat);
    } else {
        let rest = records.drop_last();
        let before = |p: int| partition_count(rest, p);
        assert forall|r: int| 0 <= r < rest.len() implies (#[trigger] rest[r]).partition_id
            < n by {
            assert(rest[r] == records[r]);
        }
        partition_counts_add_up(rest, n);
        assert(records[records.len() - 1].partition_id < n);
        sum_over_point(before, after, n as nat, records.last().partition_id as int, 1);
    }
}

/// The partitions together hold every row.
pub proof fn partitions_hold_all_rows(plan: PartitionPlan, keys: Seq<Option<Seq<char>>>)
    requires
        names_partitions(plan),
    ensures
        sum_over(
            |p: int| partition_count(assignments(plan, keys), p),
            plan.output_partitions as nat,
        ) == keys.len(),
{
    let records = assignments(plan, keys);
    assert forall|r: int| 0 <= r < records.len() implies (#[trigger] records[r]).partition_id
        < plan.output_partitions by {
        assigned_in_range(plan, keys, r);
    }
    partition_counts_add_up(records, plan.output_partitions);
}

/// How many records of a key have a salt.
pub open spec fn salted(records: Seq<RecordText>, key: Seq<char>, salt: int) -> nat
    decreases records.len(),
{
    if records.len() == 0 {
        0
    } else {
        salted(records.drop_last(), key, salt) + if records.last().key == Some(key)
            && records.last().salt_index is Some && records.last().salt_index->0 == salt {
            1nat
        } else {
            0nat
        }
    }
}

/// Share `i` of a number that is split into `shares` shares as evenly as can be.
pub open spec fn even_share(number: nat, shares: nat, i: int) -> nat {
    number / shares + if i < number % shares {
        1nat
    } else {
        0nat
    }
}

proof fn even_share_step(number: nat, shares: nat, i: int)
    requires
        0 <= i < shares,
    ensures
        even_share(number + 1, shares, i) == even_share(number, shares, i) + if i == number % shares {
            1nat
        } else {
            0nat
        },
        even_share(0, shares, i) == 0,
{
    let q = number / shares;
    let m = number % shares;
    assert(number == shares * q + m && 0 <= m < shares) by {
        vstd::arithmetic::div_mod::lemma_fundamental_div_mod(number as int, shares as int);
    }
    if m + 1 < shares {
        vstd::arithmetic::div_mod::lemma_fundamental_div_mod_converse(
            number as int + 1,
            shares as int,
            q as int,
            m as int + 1,
        );
    } else {
        assert((q as int + 1) * (shares as int) == shares * q + shares) by (nonlinear_arith);
        vstd::arithmetic::div_mod::lemma_fundamental_div_mod_converse(
            number as int + 1,
            shares as int,
            q as int + 1,
            0,
        );
    }
    assert(0nat / shares == 0 && 0nat % shares == 0) by (nonlinear_arith)
        requires
            shares > 0,
    ;
}

proof fn assignments_prefix(plan: PartitionPlan, keys: Seq<Option<Seq<char>>>)
    requires
        keys.len() > 0,
    ensures
        assignments(plan, keys).drop_last() == assignments(plan, keys.drop_last()),
        assignments(plan, keys).last() == assigned(plan, keys, keys.len() - 1),
        keys.take(keys.len() - 1) == keys.drop_last(),
{
    let rest = keys.drop_last();
    assert(keys.take(keys.len() - 1) =~= rest);
    assert forall|r: int| 0 <= r < rest.len() implies assigned(plan, keys, r) == assigned(
        plan,
        rest,
        r,
    ) by {
        assert(keys.take(r) =~= rest.take(r));
    }
    assert(assignments(plan, keys).drop_last() =~= assignments(plan, rest));
}

/// The rows of a heavy key are spread over its salts as evenly as can be: no salt
/// has more than one row above another.
pub proof fn salts_share_evenly(
    plan: PartitionPlan,
    keys: Seq<Option<Seq<char>>>,
    key: Seq<char>,
    salt: int,
)
    requires
        keys.len() <= usize::MAX,
        heavy_lookup(heavy_plan_texts(plan.heavy_keys@), key) is Some,
        0 <= salt < salt_cycle(heavy_lookup(heavy_plan_texts(plan.heavy_keys@), key)->0),
    ensures
        salted(assignments(plan, keys), key, salt) == even_share(
            key_count(keys, key),
            salt_cycle(heavy_lookup(heavy_plan_texts(plan.heavy_keys@), key)->0) as nat,
            salt,
        ),
    decreases keys.len(),
{
    let cycle = salt_cycle(heavy_lookup(heavy_plan_texts(plan.heavy_keys@), key)->0) as nat;
    if keys.len() == 0 {
        even_share_step(0, cycle, salt);
    } else {
        let rest = keys.drop_last();
        assignments_prefix(plan, keys);
        salts_share_evenly(plan, rest, key, salt);
        let seen = key_count(rest, key);
        key_count_bounded(rest, key);
        even_share_step(seen, cycle, salt);
        assert(seen % cycle <= seen) by (nonlinear_arith)
            requires
                cycle > 0,
        ;
    }
}

/// How many records of a key go to a partition.
pub open spec fn matching(records: Seq<RecordText>, key: Option<Seq<char>>, p: int) -> nat
    decreases records.len(),
{
    if records.len() == 0 {
        0
    } else {
        matching(records.drop_last(), key, p) + if records.last().key == key
            && records.last().partition_id == p {
            1nat
        } else {
            0nat
        }
    }
}

/// How many rows have no key.
pub open spec fn keyless(keys: Seq<Option<Seq<char>>>) -> nat
    decreases keys.len(),
{
    if keys.len() == 0 {
        0
    } else {
        keyless(keys.drop_last()) + if keys.last() is None {
            1nat
        } else {
            0nat
        }
    }
}

proof fn keyless_matching(plan: PartitionPlan, keys: Seq<Option<Seq<char>>>, p: int)
    ensures
        matching(assignments(plan, keys), None, p) == if p == hashed_partition(
            "<missing_partition_key>"@,
            plan.output_partitions,
            plan.seed,
        ) {
            keyless(keys)
        } else {
            0
        },
    decreases keys.len(),
{
    if keys.len() > 0 {
        assignments_prefix(plan, keys);
        keyless_matching(plan, keys.drop_last(), p);
    }
}

proof fn normal_matching(plan: PartitionPlan, keys: Seq<Option<Seq<char>>>, key: Seq<char>, id: usize, p: int)
    requires
        heavy_lookup(heavy_plan_texts(plan.heavy_keys@), key) is None,
        normal_lookup(normal_plan_texts(plan.normal_keys@), key) == Some(id),
    ensures
        matching(assignments(plan, keys), Some(key), p) == if p == id {
            key_count(keys, key)
        } else {
            0
        },
    decreases keys.len(),
{
    if keys.len() > 0 {
        assignments_prefix(plan, keys);
        normal_matching(plan, keys.drop_last(), key, id, p);
    }
}

/// What salt `s` brings to partition `p`.
spec fn salt_part(frequency: nat, partitions: Seq<usize>, p: int) -> spec_fn(int) -> nat {
    |s: int|
        if partitions[s] == p {
            even_share(frequency, partitions.len(), s)
        } else {
            0
        }
}

proof fn salt_plans_map(partitions: Seq<usize>)
    requires
        partitions.len() <= usize::MAX,
    ensures
        forall|x: usize| #[trigger]
            salt_map(salt_plans(partitions)).contains_key(x) <==> x < partitions.len(),
        forall|x: usize|
            x < partitions.len() ==> #[trigger] salt_map(salt_plans(partitions))[x]
                == partitions[x as int],
        salt_map(salt_plans(partitions)).dom().finite(),
        salt_map(salt_plans(partitions)).len() == partitions.len(),
    decreases partitions.len(),
{
    if partitions.len() > 0 {
        let rest = partitions.drop_last();
        let last = (partitions.len() - 1) as usize;
        salt_plans_map(rest);
        assert(salt_plans(partitions).drop_last() =~= salt_plans(rest));
        assert(salt_plans(partitions).last() == (SaltPartitionPlan {
            salt_index: last,
            partition_id: partitions.last(),
        }));
        assert(!salt_map(salt_plans(rest)).contains_key(last));
    }
}

proof fn heavy_matching(
    plan: PartitionPlan,
    keys: Seq<Option<Seq<char>>>,
    key: Seq<char>,
    partitions: Seq<usize>,
    p: int,
)
    requires
        keys.len() <= usize::MAX,
        0 < partitions.len() <= usize::MAX,
        heavy_lookup(heavy_plan_texts(plan.heavy_keys@), key) == Some(salt_plans(partitions)),
    ensures
        matching(assignments(plan, keys), Some(key), p) == sum_over(
            salt_part(key_count(keys, key), partitions, p),
            partitions.len(),
        ),
    decreases keys.len(),
{
    let shares = partitions.len();
    let after = salt_part(key_count(keys, key), partitions, p);
    if keys.len() == 0 {
        assert forall|s: int| 0 <= s < shares implies #[trigger] after(s) == 0 by {
            even_share_step(0, shares, s);
        }
        sum_over_zero(after, shares);
    } else {
        let rest = keys.drop_last();
        let seen = key_count(rest, key);
        let before = salt_part(seen, partitions, p);
        assignments_prefix(plan, keys);
        heavy_matching(plan, rest, key, partitions, p);
        if keys.last() == Some(key) {
            salt_plans_map(partitions);
            key_count_bounded(rest, key);
            let turn = (seen % shares) as int;
            assert(seen % shares <= seen && seen % shares < shares) by (nonlinear_arith)
                requires
                    shares > 0,
            ;
            assert(salt_cycle(salt_plans(partitions)) == shares);
            assert(assignments(plan, keys).last().partition_id == partitions[turn]);
            assert forall|s: int| 0 <= s < shares && s != turn implies #[trigger] before(s) == after(
                s,
            ) by {
                even_share_step(seen, shares, s);
            }
            even_share_step(seen, shares, turn);
            sum_over_point(
                before,
                after,
                shares,
                turn,
                if partitions[turn] == p {
                    1
                } else {
                    0
                },
            );
        } else {
            assert(key_count(keys, key) == seen);
        }
    }
}

/// What key `i` of a list brings to partition `p`.
spec fn key_part(records: Seq<RecordText>, listed: Seq<Seq<char>>, p: int) -> spec_fn(int) -> nat {
    |i: int| matching(records, Some(listed[i]), p)
}

/// A list holds no key twice.
pub open spec fn distinct(listed: Seq<Seq<char>>) -> bool {
    forall|i: int, j: int|
        0 <= i < listed.len() && 0 <= j < listed.len() && #[trigger] listed[i] == #[trigger] listed[j] ==> i == j
}

proof fn counted_by_key(records: Seq<RecordText>, listed: Seq<Seq<char>>, p: int)
    requires
        distinct(listed),
        forall|r: int|
            0 <= r < records.len() && (#[trigger] records[r]).key is Some ==> listed.contains(
                records[r].key->0,
            ),
    ensures
        partition_count(records, p) == matching(records, None, p) + sum_over(
            key_part(records, listed, p),
            listed.len(),
        ),
    decreases records.len(),
{
    let after = key_part(records, listed, p);
    if records.len() == 0 {
        sum_over_zero(after, listed.len());
    } else {
        let rest = records.drop_last();
        let before = key_part(rest, listed, p);
        assert forall|r: int| 0 <= r < rest.len() && (#[trigger] rest[r]).key is Some implies listed.contains(
            rest[r].key->0,
        ) by {
            assert(rest[r] == records[r]);
        }
        counted_by_key(rest, listed, p);
        let record = records[records.len() - 1];
        match record.key {
            None => {
                sum_over_same(before, after, listed.len());
            },
            Some(key) => {
                assert(listed.contains(key));
                let j = choose|j: int| 0 <= j < listed.len() && listed[j] == key;
                assert forall|i: int| 0 <= i < listed.len() && i != j implies #[trigger] before(i)
                    == after(i) by {
                    assert(listed[i] != listed[j]);
                }
                sum_over_point(
                    before,
                    after,
                    listed.len(),
                    j,
                    if record.partition_id == p {
                        1
                    } else {
                        0
                    },
                );
            },
        }
    }
}

/// What key `k` brings to the load of partition `p`.
spec fn normal_part(keys: Seq<(Seq<char>, u64)>, partitions: Seq<usize>, p: int) -> spec_fn(int) -> nat {
    |k: int|
        if partitions[k] == p {
            keys[k].1 as nat
        } else {
            0
        }
}

proof fn normal_loads_split(
    keys: Seq<(Seq<char>, u64)>,
    mode: NormalKeyAssignment,
    n: usize,
    seed: u64,
    p: int,
)
    requires
        n > 0,
        0 <= p < n,
    ensures
        place_normals(keys, mode, n, seed).loads[p] == sum_over(
            normal_part(keys, place_normals(keys, mode, n, seed).partitions, p),
            keys.len(),
        ),
    decreases keys.len(),
{
    let placed = place_normals(keys, mode, n, seed);
    let after = normal_part(keys, placed.partitions, p);
    if keys.len() > 0 {
        let rest = keys.drop_last();
        let last = keys.len() - 1;
        normal_loads_split(rest, mode, n, seed, p);
        crate::placement::normals_placed(rest, mode, n, seed);
        crate::placement::normals_placed(keys, mode, n, seed);
        let earlier = place_normals(rest, mode, n, seed);
        let before = normal_part(rest, earlier.partitions, p);
        assert forall|k: int| 0 <= k < last implies #[trigger] before(k) == after(k) by {
            assert(placed.partitions[k] == earlier.partitions[k]);
        }
        sum_over_same(before, after, last as nat);
        assert(placed.partitions[last] == crate::placement::normal_partition(
            keys.last().0,
            mode,
            earlier.loads,
            seed,
        ));
    }
}

/// What salt `s` brings to the load of partition `p`.
spec fn share_part(frequency: u64, salt_count: usize, partitions: Seq<usize>, p: int) -> spec_fn(
    int,
) -> nat {
    |s: int|
        if partitions[s] == p {
            salt_share(frequency, salt_count, s)
        } else {
            0
        }
}

proof fn salt_loads_split(
    loads: Seq<nat>,
    key: Seq<char>,
    frequency: u64,
    salt_count: usize,
    salts: nat,
    seed: u64,
    p: int,
)
    requires
        0 <= p < loads.len() <= usize::MAX,
        salts <= salt_count,
    ensures
        place_salts(loads, key, frequency, salt_count, salts, seed).loads[p] == loads[p] + sum_over(
            share_part(
                frequency,
                salt_count,
                place_salts(loads, key, frequency, salt_count, salts, seed).partitions,
                p,
            ),
            salts,
        ),
    decreases salts,
{
    let placed = place_salts(loads, key, frequency, salt_count, salts, seed);
    let after = share_part(frequency, salt_count, placed.partitions, p);
    if salts > 0 {
        let fewer = (salts - 1) as nat;
        salt_loads_split(loads, key, frequency, salt_count, fewer, seed, p);
        crate::placement::salts_placed(loads, key, frequency, salt_count, fewer, seed);
        crate::placement::salts_placed(loads, key, frequency, salt_count, salts, seed);
        let earlier = place_salts(loads, key, frequency, salt_count, fewer, seed);
        let before = share_part(frequency, salt_count, earlier.partitions, p);
        assert forall|s: int| 0 <= s < fewer implies #[trigger] before(s) == after(s) by {
            assert(placed.partitions[s] == earlier.partitions[s]);
        }
        sum_over_same(before, after, fewer);
        crate::placement::least_loaded_in_range(earlier.loads, key, Some(fewer as usize), seed);
    }
}

/// What heavy key `j` brings to the load of partition `p`.
spec fn heavy_part(
    loads: Seq<nat>,
    heavies: Seq<HeavyHitterText>,
    rows: u64,
    seed: u64,
    p: int,
) -> spec_fn(int) -> nat {
    |j: int|
        sum_over(
            share_part(
                heavies[j].frequency,
                salts_of(heavies[j].frequency, rows),
                heavy_salt_partitions(loads, heavies, rows, seed, j),
                p,
            ),
            salts_of(heavies[j].frequency, rows) as nat,
        )
}

proof fn heavy_loads_split(
    loads: Seq<nat>,
    heavies: Seq<HeavyHitterText>,
    rows: u64,
    seed: u64,
    p: int,
)
    requires
        0 <= p < loads.len() <= usize::MAX,
    ensures
        heavy_loads(loads, heavies, rows, seed)[p] == loads[p] + sum_over(
            heavy_part(loads, heavies, rows, seed, p),
            heavies.len(),
        ),
    decreases heavies.len(),
{
    let after = heavy_part(loads, heavies, rows, seed, p);
    if heavies.len() > 0 {
        let rest = heavies.drop_last();
        let heavy = heavies.last();
        let last = heavies.len() - 1;
        heavy_loads_split(loads, rest, rows, seed, p);
        crate::placement::heavies_placed(loads, rest, rows, seed);
        let before = heavy_part(loads, rest, rows, seed, p);
        assert forall|j: int| 0 <= j < last implies #[trigger] before(j) == after(j) by {
            assert(heavies.take(j) =~= rest.take(j));
            assert(heavies[j] == rest[j]);
        }
        sum_over_same(before, after, last as nat);
        assert(heavies.take(last) =~= rest);
        let count = salts_of(heavy.frequency, rows);
        salt_loads_split(
            heavy_loads(loads, rest, rows, seed),
            heavy.key,
            heavy.frequency,
            count,
            count as nat,
            seed,
            p,
        );
    }
}

proof fn filter_keeps_distinct<A>(s: Seq<A>, keep: spec_fn(A) -> bool)
    requires
        s.no_duplicates(),
    ensures
        s.filter(keep).no_duplicates(),
    decreases s.len(),
{
    reveal(Seq::filter);
    if s.len() > 0 {
        let rest = s.drop_last();
        filter_keeps_distinct(rest, keep);
        if keep(s.last()) {
            let kept = rest.filter(keep);
            if kept.contains(s.last()) {
                rest.lemma_filter_contains_rev(keep, s.last());
            }
            assert(kept.push(s.last()).no_duplicates());
        }
    }
}

proof fn sorted_pairs_distinct<V>(pairs: Seq<(Seq<char>, V)>)
    requires
        sorted_by_key(pairs),
    ensures
        pairs.no_duplicates(),
{
    assert forall|i: int, j: int| 0 <= i < pairs.len() && 0 <= j < pairs.len() && i != j implies pairs[i]
        != pairs[j] by {
        if pairs[i] == pairs[j] {
            sorted_positions_unique(pairs, i, j);
        }
    }
}

/// No two of the keys that are not heavy are the same.
proof fn normal_keys_distinct(pairs: Seq<(Seq<char>, u64)>, alpha: Binary64, rows: u64)
    requires
        sorted_by_key(pairs),
    ensures
        distinct(pair_keys(normal_keys_in_order(pairs, alpha, rows))),
{
    let keep = |pair: (Seq<char>, u64)| heavy_of(pairs, alpha, rows, pair) is None;
    let normals = pairs.filter(keep);
    let ordered = normals.sort_by(placement_order());
    sorted_pairs_distinct(pairs);
    filter_keeps_distinct(pairs, keep);
    placement_order_total();
    normals.lemma_sort_by_ensures(placement_order());
    normals.lemma_multiset_has_no_duplicates();
    ordered.lemma_multiset_has_no_duplicates_conv();
    let keys = pair_keys(ordered);
    assert forall|i: int, j: int|
        0 <= i < keys.len() && 0 <= j < keys.len() && #[trigger] keys[i] == #[trigger] keys[j] implies i == j by {
        assert(ordered.contains(ordered[i]) && ordered.contains(ordered[j]));
        normal_keys_listed(pairs, alpha, rows, ordered[i]);
        normal_keys_listed(pairs, alpha, rows, ordered[j]);
        let x = choose|x: int| 0 <= x < pairs.len() && pairs[x] == ordered[i];
        let y = choose|y: int| 0 <= y < pairs.len() && pairs[y] == ordered[j];
        sorted_positions_unique(pairs, x, y);
    }
}

/// The heavy keys alone.
spec fn hitter_keys(heavies: Seq<HeavyHitterText>) -> Seq<Seq<char>> {
    Seq::new(heavies.len(), |j: int| heavies[j].key)
}

/// The heavy keys among the first pairs.
spec fn first_hitters(pairs: Seq<(Seq<char>, u64)>, alpha: Binary64, rows: u64, n: int) -> Seq<
    HeavyHitterText,
> {
    pairs.take(n).filter_map(|pair: (Seq<char>, u64)| heavy_of(pairs, alpha, rows, pair))
}

proof fn hitters_distinct_upto(pairs: Seq<(Seq<char>, u64)>, alpha: Binary64, rows: u64, n: int)
    requires
        sorted_by_key(pairs),
        0 <= n <= pairs.len(),
    ensures
        distinct(hitter_keys(first_hitters(pairs, alpha, rows, n))),
        forall|j: int|
            0 <= j < first_hitters(pairs, alpha, rows, n).len() ==> exists|i: int|
                0 <= i < n && (#[trigger] pairs[i]).0 == (#[trigger] first_hitters(
                    pairs,
                    alpha,
                    rows,
                    n,
                )[j]).key,
    decreases n,
{
    let f = |pair: (Seq<char>, u64)| heavy_of(pairs, alpha, rows, pair);
    if n == 0 {
        reveal(Seq::filter_map);
        assert(pairs.take(0) =~= Seq::<(Seq<char>, u64)>::empty());
    } else {
        hitters_distinct_upto(pairs, alpha, rows, n - 1);
        pairs.lemma_filter_map_take_succ(f, n - 1);
        let before = first_hitters(pairs, alpha, rows, n - 1);
        let after = first_hitters(pairs, alpha, rows, n);
        assert forall|j: int| 0 <= j < after.len() implies exists|i: int|
            0 <= i < n && (#[trigger] pairs[i]).0 == (#[trigger] after[j]).key by {
            if j < before.len() {
                assert(after[j] == before[j]);
                let i = choose|i: int| 0 <= i < n - 1 && (#[trigger] pairs[i]).0 == before[j].key;
                assert(pairs[i].0 == after[j].key);
            } else {
                assert(pairs[n - 1].0 == after[j].key);
            }
        }
        let keys = hitter_keys(after);
        assert forall|i: int, j: int|
            0 <= i < keys.len() && 0 <= j < keys.len() && #[trigger] keys[i] == #[trigger] keys[j] implies i
            == j by {
            let old_keys = hitter_keys(before);
            if i < before.len() && j < before.len() {
                assert(old_keys[i] == keys[i] && old_keys[j] == keys[j]);
            } else if i < before.len() {
                assert(after[i] == before[i]);
                let x = choose|x: int| 0 <= x < n - 1 && (#[trigger] pairs[x]).0 == before[i].key;
                sorted_positions_unique(pairs, x, n - 1);
            } else if j < before.len() {
                assert(after[j] == before[j]);
                let x = choose|x: int| 0 <= x < n - 1 && (#[trigger] pairs[x]).0 == before[j].key;
                sorted_positions_unique(pairs, x, n - 1);
            }
        }
    }
}

proof fn normal_lookup_at(plans: Seq<NormalKeyPlanText>, k: int)
    requires
        0 <= k < plans.len(),
        forall|i: int, j: int|
            0 <= i < plans.len() && 0 <= j < plans.len() && (#[trigger] plans[i]).key == (#[trigger] plans[j]).key
                ==> i == j,
    ensures
        normal_lookup(plans, plans[k].key) == Some(plans[k].partition_id),
    decreases plans.len(),
{
    let rest = plans.drop_last();
    if k < plans.len() - 1 {
        assert(plans[plans.len() - 1].key != plans[k].key);
        assert(rest[k] == plans[k]);
        assert forall|i: int, j: int|
            0 <= i < rest.len() && 0 <= j < rest.len() && (#[trigger] rest[i]).key == (#[trigger] rest[j]).key implies i
            == j by {
            assert(plans[i].key == plans[j].key);
        }
        normal_lookup_at(rest, k);
    }
}

proof fn heavy_lookup_at(plans: Seq<HeavyKeyPlanText>, k: int)
    requires
        0 <= k < plans.len(),
        forall|i: int, j: int|
            0 <= i < plans.len() && 0 <= j < plans.len() && (#[trigger] plans[i]).key == (#[trigger] plans[j]).key
                ==> i == j,
    ensures
        heavy_lookup(plans, plans[k].key) == Some(plans[k].salt_partitions),
{
    let key = plans[k].key;
    heavy_lookup_listed(plans, key);
    assert(heavy_lookup(plans, key) is Some);
    let salts = heavy_lookup(plans, key)->0;
    let j = choose|j: int|
        0 <= j < plans.len() && (#[trigger] plans[j]).key == key && plans[j].salt_partitions == salts;
    assert(plans[j].key == plans[k].key);
}

/// `frequencies` says how often each key occurs.
pub open spec fn counts_keys(
    frequencies: Map<Seq<char>, u64>,
    keys: Seq<Option<Seq<char>>>,
) -> bool {
    forall|k: Seq<char>|
        {
            &&& #[trigger] frequencies.contains_key(k) <==> key_count(keys, k) > 0
            &&& frequencies.contains_key(k) ==> frequencies[k] == key_count(keys, k)
        }
}

/// A plan for all keys of a dataset.
pub open spec fn plans_rows(
    config: Config,
    stats: StatsMetadata,
    seconds: u64,
    plan: PartitionPlan,
    keys: Seq<Option<Seq<char>>>,
) -> bool {
    &&& valid_limits(config)
    &&& keys.len() <= usize::MAX
    &&& sorted_by_key(stats.input.key_frequencies.pairs())
    &&& counts_keys(stats.input.key_frequencies@, keys)
    &&& stats.heavy_hitter_detection.normal_keys_materialized
    &&& is_plan(config, stats, seconds, plan)
}

proof fn planned_normal(
    config: Config,
    stats: StatsMetadata,
    seconds: u64,
    plan: PartitionPlan,
    keys: Seq<Option<Seq<char>>>,
    k: int,
)
    requires
        plans_rows(config, stats, seconds, plan, keys),
        0 <= k < plan_normals(config, stats).len(),
    ensures
        normal_lookup(
            normal_plan_texts(plan.normal_keys@),
            plan_normals(config, stats)[k].0,
        ) == Some(
            place_normals(
                plan_normals(config, stats),
                config.partitioning.normal_key_assignment,
                plan_partitions(config, stats),
                config.partitioning.seed,
            ).partitions[k],
        ),
        heavy_lookup(
            heavy_plan_texts(plan.heavy_keys@),
            plan_normals(config, stats)[k].0,
        ) is None,
        key_count(keys, plan_normals(config, stats)[k].0) == plan_normals(config, stats)[k].1,
{
    let pairs = stats.input.key_frequencies.pairs();
    let alpha = config.partitioning.heavy_key_alpha;
    let rows = plan_rows(config, stats);
    let normals = plan_normals(config, stats);
    let plans = normal_plan_texts(plan.normal_keys@);
    let heavies = heavy_plan_texts(plan.heavy_keys@);
    let key = normals[k].0;
    plan_lists(config, stats, plan);
    normal_keys_distinct(pairs, alpha, rows);
    let listed = pair_keys(normals);
    assert forall|i: int, j: int|
        0 <= i < plans.len() && 0 <= j < plans.len() && (#[trigger] plans[i]).key == (
        #[trigger] plans[j]).key implies i == j by {
        assert(listed[i] == plans[i].key && listed[j] == plans[j].key);
    }
    normal_lookup_at(plans, k);
    assert(plans[k].key == key);
    assert(normals.contains(normals[k]));
    normal_keys_listed(pairs, alpha, rows, normals[k]);
    let x = choose|x: int| 0 <= x < pairs.len() && pairs[x] == normals[k];
    as_map_at(pairs, x);
    plan_covers_keys(config, stats, seconds, plan, key);
    assert(plan.normal_keys@[k].key@ == key) by {
        assert(plans[k] == plan.normal_keys@[k]@);
    }
    assert(plans_normal(plan, key));
    heavy_lookup_listed(heavies, key);
    assert forall|j: int| 0 <= j < heavies.len() implies (#[trigger] heavies[j]).key != key by {
        assert(heavies[j] == plan.heavy_keys@[j]@);
        assert(plan.heavy_keys@[j].key@ == heavies[j].key);
    }
}

proof fn planned_heavy_key(
    config: Config,
    stats: StatsMetadata,
    seconds: u64,
    plan: PartitionPlan,
    keys: Seq<Option<Seq<char>>>,
    j: int,
)
    requires
        plans_rows(config, stats, seconds, plan, keys),
        0 <= j < plan_heavies(config, stats).len(),
    ensures
        heavy_lookup(
            heavy_plan_texts(plan.heavy_keys@),
            plan_heavies(config, stats)[j].key,
        ) == Some(
            salt_plans(
                heavy_salt_partitions(
                    plan_normal_loads(config, stats),
                    plan_heavies(config, stats),
                    plan_rows(config, stats),
                    config.partitioning.seed,
                    j,
                ),
            ),
        ),
        heavy_salt_partitions(
            plan_normal_loads(config, stats),
            plan_heavies(config, stats),
            plan_rows(config, stats),
            config.partitioning.seed,
            j,
        ).len() == salts_of(plan_heavies(config, stats)[j].frequency, plan_rows(config, stats)),
        salts_of(plan_heavies(config, stats)[j].frequency, plan_rows(config, stats)) > 0,
        key_count(keys, plan_heavies(config, stats)[j].key) == plan_heavies(config, stats)[j].frequency,
{
    let pairs = stats.input.key_frequencies.pairs();
    let alpha = config.partitioning.heavy_key_alpha;
    let rows = plan_rows(config, stats);
    let seed = config.partitioning.seed;
    let heavies = plan_heavies(config, stats);
    let plans = heavy_plan_texts(plan.heavy_keys@);
    let loads = plan_normal_loads(config, stats);
    plan_lists(config, stats, plan);
    hitters_distinct_upto(pairs, alpha, rows, pairs.len() as int);
    assert(pairs.take(pairs.len() as int) =~= pairs);
    assert(heavies == first_hitters(pairs, alpha, rows, pairs.len() as int));
    let listed = hitter_keys(heavies);
    assert forall|i: int, k: int|
        0 <= i < plans.len() && 0 <= k < plans.len() && (#[trigger] plans[i]).key == (
        #[trigger] plans[k]).key implies i == k by {
        assert(plans[i] == plan.heavy_keys@[i]@ && plans[k] == plan.heavy_keys@[k]@);
        assert(listed[i] == plans[i].key && listed[k] == plans[k].key);
    }
    heavy_lookup_at(plans, j);
    assert(plans[j] == plan.heavy_keys@[j]@);
    assert(plans[j] == planned_heavy(config, stats, j));
    assert(heavies.contains(heavies[j]));
    heavy_keys_listed(pairs, alpha, rows, heavies[j]);
    let x = choose|x: int|
        0 <= x < pairs.len() && heavy_of(pairs, alpha, rows, #[trigger] pairs[x]) == Some(heavies[j]);
    as_map_at(pairs, x);
    key_count_bounded(keys, heavies[j].key);
    salts_positive(heavies[j].frequency, rows);
    plan_partitions_positive(config, stats);
    normals_placed(
        plan_normals(config, stats),
        config.partitioning.normal_key_assignment,
        plan_partitions(config, stats),
        seed,
    );
    heavies_placed(loads, heavies.take(j), rows, seed);
    let count = salts_of(heavies[j].frequency, rows);
    salts_placed(
        heavy_loads(loads, heavies.take(j), rows, seed),
        heavies[j].key,
        heavies[j].frequency,
        count,
        count as nat,
        seed,
    );
}

proof fn sum_over_joined(
    f: spec_fn(int) -> nat,
    g: spec_fn(int) -> nat,
    h: spec_fn(int) -> nat,
    m: nat,
    n: nat,
)
    requires
        forall|i: int| 0 <= i < m ==> #[trigger] f(i) == g(i),
        forall|i: int| 0 <= i < n ==> #[trigger] h(i) == f(m + i),
    ensures
        sum_over(f, m + n) == sum_over(g, m) + sum_over(h, n),
    decreases n,
{
    if n == 0 {
        sum_over_same(f, g, m);
    } else {
        let less = (n - 1) as nat;
        sum_over_joined(f, g, h, m, less);
        assert(h(n - 1) == f(m + (n - 1)));
        assert((m + n - 1) as nat == m + less);
    }
}

/// The keys of a plan, those that are not heavy first.
spec fn plan_keys(config: Config, stats: StatsMetadata) -> Seq<Seq<char>> {
    pair_keys(plan_normals(config, stats)) + hitter_keys(plan_heavies(config, stats))
}

proof fn plan_keys_cover(
    config: Config,
    stats: StatsMetadata,
    seconds: u64,
    plan: PartitionPlan,
    keys: Seq<Option<Seq<char>>>,
)
    requires
        plans_rows(config, stats, seconds, plan, keys),
    ensures
        distinct(plan_keys(config, stats)),
        forall|r: int|
            0 <= r < keys.len() && (#[trigger] keys[r]) is Some ==> plan_keys(config, stats).contains(
                keys[r]->0,
            ),
{
    let pairs = stats.input.key_frequencies.pairs();
    let alpha = config.partitioning.heavy_key_alpha;
    let rows = plan_rows(config, stats);
    let normals = pair_keys(plan_normals(config, stats));
    let heavies = hitter_keys(plan_heavies(config, stats));
    let listed = plan_keys(config, stats);
    normal_keys_distinct(pairs, alpha, rows);
    hitters_distinct_upto(pairs, alpha, rows, pairs.len() as int);
    assert(pairs.take(pairs.len() as int) =~= pairs);
    assert(plan_heavies(config, stats) == first_hitters(pairs, alpha, rows, pairs.len() as int));
    plan_lists(config, stats, plan);
    assert forall|k: int| 0 <= k < normals.len() implies plans_normal(plan, #[trigger] normals[k]) by {
        assert(plan.normal_keys@[k]@.key == normals[k]);
        assert(plan.normal_keys@[k].key@ == normals[k]);
    }
    assert forall|j: int| 0 <= j < heavies.len() implies plans_heavy(plan, #[trigger] heavies[j]) by {
        assert(plan.heavy_keys@[j]@ == planned_heavy(config, stats, j));
        assert(plan.heavy_keys@[j].key@ == heavies[j]);
    }
    assert forall|i: int, j: int|
        0 <= i < listed.len() && 0 <= j < listed.len() && #[trigger] listed[i] == #[trigger] listed[j] implies i
        == j by {
        let m = normals.len() as int;
        if i < m && j < m {
            assert(normals[i] == normals[j]);
        } else if i >= m && j >= m {
            assert(heavies[i - m] == heavies[j - m]);
        } else if i < m {
            assert(normals[i] == heavies[j - m]);
            plan_covers_keys(config, stats, seconds, plan, listed[i]);
        } else {
            assert(heavies[i - m] == normals[j]);
            plan_covers_keys(config, stats, seconds, plan, listed[i]);
        }
    }
    assert forall|r: int| 0 <= r < keys.len() && (#[trigger] keys[r]) is Some implies listed.contains(
        keys[r]->0,
    ) by {
        let key = keys[r]->0;
        key_counted(keys, r);
        plan_covers_keys(config, stats, seconds, plan, key);
        assert(stats.input.key_frequencies@.contains_key(key));
        if plans_normal(plan, key) {
            let k = choose|k: int|
                0 <= k < plan.normal_keys@.len() && #[trigger] plan.normal_keys@[k].key@ == key;
            assert(plan.normal_keys@[k]@.key == normals[k]);
            assert(listed[k] == key);
        } else {
            let j = choose|j: int|
                0 <= j < plan.heavy_keys@.len() && #[trigger] plan.heavy_keys@[j].key@ == key;
            assert(plan.heavy_keys@[j]@ == planned_heavy(config, stats, j));
            assert(heavies[j] == key);
            assert(listed[normals.len() + j] == key);
        }
    }
}

proof fn key_counted(keys: Seq<Option<Seq<char>>>, r: int)
    requires
        0 <= r < keys.len(),
        keys[r] is Some,
    ensures
        key_count(keys, keys[r]->0) > 0,
    decreases keys.len(),
{
    if r < keys.len() - 1 {
        assert(keys.drop_last()[r] == keys[r]);
        key_counted(keys.drop_last(), r);
    }
}

/// Each partition receives as many rows as the plan gave it as load; rows without
/// a key come on top, all in one partition.
pub proof fn loads_are_met(
    config: Config,
    stats: StatsMetadata,
    seconds: u64,
    plan: PartitionPlan,
    keys: Seq<Option<Seq<char>>>,
    p: int,
)
    requires
        plans_rows(config, stats, seconds, plan, keys),
        0 <= p < plan.output_partitions,
    ensures
        partition_count(assignments(plan, keys), p) == plan_loads(config, stats)[p] + if p
            == hashed_partition("<missing_partition_key>"@, plan.output_partitions, plan.seed) {
            keyless(keys)
        } else {
            0
        },
{
    let records = assignments(plan, keys);
    let n = plan_partitions(config, stats);
    let mode = config.partitioning.normal_key_assignment;
    let seed = config.partitioning.seed;
    let rows = plan_rows(config, stats);
    let normals = plan_normals(config, stats);
    let heavies = plan_heavies(config, stats);
    let listed = plan_keys(config, stats);
    let loads = plan_normal_loads(config, stats);
    plan_partitions_positive(config, stats);
    plan_keys_cover(config, stats, seconds, plan, keys);
    rows_assigned_once(plan, keys);
    assert forall|r: int| 0 <= r < records.len() && (#[trigger] records[r]).key is Some implies listed.contains(
        records[r].key->0,
    ) by {
        assert(records[r].key == keys[r]);
    }
    counted_by_key(records, listed, p);
    keyless_matching(plan, keys, p);
    let f = key_part(records, listed, p);
    let partitions = place_normals(normals, mode, n, seed).partitions;
    let g = normal_part(normals, partitions, p);
    let h = heavy_part(loads, heavies, rows, seed, p);
    assert forall|k: int| 0 <= k < normals.len() implies #[trigger] f(k) == g(k) by {
        assert(listed[k] == normals[k].0);
        planned_normal(config, stats, seconds, plan, keys, k);
        normal_matching(plan, keys, normals[k].0, partitions[k], p);
    }
    assert forall|j: int| 0 <= j < heavies.len() implies #[trigger] h(j) == f(normals.len() + j) by {
        assert(listed[normals.len() + j] == heavies[j].key);
        planned_heavy_key(config, stats, seconds, plan, keys, j);
        let salts = heavy_salt_partitions(loads, heavies, rows, seed, j);
        heavy_matching(plan, keys, heavies[j].key, salts, p);
        let count = salts_of(heavies[j].frequency, rows);
        sum_over_same(
            share_part(heavies[j].frequency, count, salts, p),
            salt_part(heavies[j].frequency as nat, salts, p),
            count as nat,
        );
    }
    sum_over_joined(f, g, h, normals.len(), heavies.len());
    assert(listed.len() == normals.len() + heavies.len());
    normals_placed(normals, mode, n, seed);
    normal_loads_split(normals, mode, n, seed, p);
    heavy_loads_split(loads, heavies, rows, seed, p);
}

proof fn present_counted(keys: Seq<Option<Seq<char>>>, key: Seq<char>)
    ensures
        occurrences(keys.filter_map(|k: Option<Seq<char>>| k), key) == key_count(keys, key),
    decreases keys.len(),
{
    let f = |k: Option<Seq<char>>| k;
    reveal(Seq::filter_map);
    if keys.len() > 0 {
        let n = keys.len() - 1;
        present_counted(keys.drop_last(), key);
        keys.lemma_filter_map_take_succ(f, n);
        assert(keys.take(n) =~= keys.drop_last());
        assert(keys.take(n + 1) =~= keys);
        if keys.last() is Some {
            let present = keys.filter_map(f);
            assert(present.drop_last() =~= keys.drop_last().filter_map(f));
        }
    }
}

/// Where all keys are counted, the statistics of a dataset describe the rows that
/// are assigned, so that each partition receives its planned load.
pub proof fn exact_statistics_plan_rows(
    config: Config,
    files: Seq<InputFile>,
    rows: Seq<Row>,
    stats: StatsMetadata,
    seconds: u64,
    plan: PartitionPlan,
)
    requires
        valid_limits(config),
        rows.len() <= usize::MAX,
        config.statistics.heavy_hitter_mode == HeavyHitterMode::Exact,
        is_statistics(config, files, rows, stats),
        sorted_by_key(stats.input.key_frequencies.pairs()),
        is_plan(config, stats, seconds, plan),
    ensures
        plans_rows(
            config,
            stats,
            seconds,
            plan,
            row_keys(rows, texts(config.partitioning.key_columns@)),
        ),
        texts(plan.key_columns@) == texts(config.partitioning.key_columns@),
{
    let keys = row_keys(rows, texts(config.partitioning.key_columns@));
    let present = present_keys(rows, texts(config.partitioning.key_columns@));
    assert(stats.input.key_frequencies@ == frequency_map(present));
    assert forall|k: Seq<char>| {
        &&& #[trigger] stats.input.key_frequencies@.contains_key(k) <==> key_count(keys, k) > 0
        &&& stats.input.key_frequencies@.contains_key(k) ==> stats.input.key_frequencies@[k]
            == key_count(keys, k)
    } by {
        present_counted(keys, k);
        key_count_bounded(keys, k);
    }
}

proof fn hashed_places(keys: Seq<(Seq<char>, u64)>, n: usize, seed: u64, k: int)
    requires
        n > 0,
        0 <= k < keys.len(),
    ensures
        place_normals(keys, NormalKeyAssignment::Hash, n, seed).partitions[k] == hashed_partition(
            keys[k].0,
            n,
            seed,
        ),
    decreases keys.len(),
{
    let rest = keys.drop_last();
    normals_placed(rest, NormalKeyAssignment::Hash, n, seed);
    if k < keys.len() - 1 {
        hashed_places(rest, n, seed, k);
    }
}

proof fn counted_by_hash(
    records: Seq<RecordText>,
    keys: Seq<Option<Seq<char>>>,
    missing: usize,
    n: usize,
    seed: u64,
    p: int,
)
    requires
        records.len() == keys.len(),
        forall|r: int|
            0 <= r < records.len() ==> (#[trigger] records[r]).partition_id == match keys[r] {
                Some(key) => hashed_partition(key, n, seed),
                None => missing,
            },
    ensures
        partition_count(records, p) == hashed_count(
            keys.filter_map(|k: Option<Seq<char>>| k),
            n,
            seed,
            p,
        ) + if p == missing {
            keyless(keys)
        } else {
            0
        },
    decreases keys.len(),
{
    let f = |k: Option<Seq<char>>| k;
    reveal(Seq::filter_map);
    if keys.len() > 0 {
        let last = keys.len() - 1;
        let fewer = records.drop_last();
        let rest = keys.drop_last();
        assert forall|r: int| 0 <= r < fewer.len() implies (#[trigger] fewer[r]).partition_id
            == match rest[r] {
            Some(key) => hashed_partition(key, n, seed),
            None => missing,
        } by {
            assert(fewer[r] == records[r]);
        }
        counted_by_hash(fewer, rest, missing, n, seed, p);
        keys.lemma_filter_map_take_succ(f, last);
        assert(keys.take(last) =~= rest);
        assert(keys.take(last + 1) =~= keys);
        assert(records[last].partition_id == records.last().partition_id);
        if keys.last() is Some {
            assert(keys.filter_map(f).drop_last() =~= rest.filter_map(f));
        }
    }
}

/// Statistics and plan hash alike: where keys go by hash and none is heavy, the
/// planned loads are the sizes that hashing gives the partitions.
pub proof fn hash_placement_keeps_sizes(
    config: Config,
    stats: StatsMetadata,
    seconds: u64,
    plan: PartitionPlan,
    keys: Seq<Option<Seq<char>>>,
    p: int,
)
    requires
        plans_rows(config, stats, seconds, plan, keys),
        config.partitioning.normal_key_assignment == NormalKeyAssignment::Hash,
        plan.heavy_keys@.len() == 0,
        0 <= p < plan.output_partitions,
    ensures
        plan_loads(config, stats)[p] == hashed_count(
            keys.filter_map(|k: Option<Seq<char>>| k),
            plan.output_partitions,
            plan.seed,
            p,
        ),
{
    let n = plan.output_partitions;
    let seed = plan.seed;
    let missing = hashed_partition("<missing_partition_key>"@, n, seed);
    let records = assignments(plan, keys);
    let normals = plan_normals(config, stats);
    let listed = plan_keys(config, stats);
    plan_partitions_positive(config, stats);
    plan_lists(config, stats, plan);
    plan_keys_cover(config, stats, seconds, plan, keys);
    assert forall|r: int| 0 <= r < records.len() implies (#[trigger] records[r]).partition_id
        == match keys[r] {
        Some(key) => hashed_partition(key, n, seed),
        None => missing,
    } by {
        assert(records[r] == assigned(plan, keys, r));
        if keys[r] is Some {
            let key = keys[r]->0;
            assert(listed.contains(key));
            let k = choose|k: int| 0 <= k < listed.len() && listed[k] == key;
            assert(listed[k] == normals[k].0);
            planned_normal(config, stats, seconds, plan, keys, k);
            hashed_places(normals, n, seed, k);
        }
    }
    counted_by_hash(records, keys, missing, n, seed, p);
    loads_are_met(config, stats, seconds, plan, keys, p);
}

/// A plan that is made for a dataset lists each of its keys once.
pub proof fn plan_keys_listed_once(
    config: Config,
    stats: StatsMetadata,
    seconds: u64,
    plan: PartitionPlan,
    keys: Seq<Option<Seq<char>>>,
)
    requires
        plans_rows(config, stats, seconds, plan, keys),
    ensures
        forall|i: int, j: int|
            0 <= i < plan.normal_keys@.len() && 0 <= j < plan.normal_keys@.len() && (
            #[trigger] plan.normal_keys@[i]).key@ == (#[trigger] plan.normal_keys@[j]).key@ ==> i
                == j,
        forall|i: int, j: int|
            0 <= i < plan.heavy_keys@.len() && 0 <= j < plan.heavy_keys@.len() && (
            #[trigger] plan.heavy_keys@[i]).key@ == (#[trigger] plan.heavy_keys@[j]).key@ ==> i
                == j,
        forall|i: int, j: int|
            0 <= i < plan.normal_keys@.len() && 0 <= j < plan.heavy_keys@.len() ==> (
            #[trigger] plan.normal_keys@[i]).key@ != (#[trigger] plan.heavy_keys@[j]).key@,
{
    plan_lists(config, stats, plan);
    plan_keys_cover(config, stats, seconds, plan, keys);
    let listed = plan_keys(config, stats);
    let m = plan_normals(config, stats).len() as int;
    assert forall|i: int| 0 <= i < plan.normal_keys@.len() implies (
    #[trigger] plan.normal_keys@[i]).key@ == listed[i] by {
        assert(plan.normal_keys@[i]@.key == plan_normals(config, stats)[i].0);
    }
    assert forall|j: int| 0 <= j < plan.heavy_keys@.len() implies (
    #[trigger] plan.heavy_keys@[j]).key@ == listed[m + j] by {
        assert(plan.heavy_keys@[j]@ == planned_heavy(config, stats, j));
    }
    assert forall|i: int, j: int|
        0 <= i < plan.heavy_keys@.len() && 0 <= j < plan.heavy_keys@.len() && (
        #[trigger] plan.heavy_keys@[i]).key@ == (#[trigger] plan.heavy_keys@[j]).key@ implies i
        == j by {
        assert(listed[m + i] == listed[m + j]);
    }
    assert forall|i: int, j: int|
        0 <= i < plan.normal_keys@.len() && 0 <= j < plan.heavy_keys@.len() implies (
    #[trigger] plan.normal_keys@[i]).key@ != (#[trigger] plan.heavy_keys@[j]).key@ by {
        if listed[i] == listed[m + j] {
            assert(i == m + j);
        }
    }
}

} // verus!
