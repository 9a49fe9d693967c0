//! Where the rows of a dataset go, stated on rows and records.

use vstd::prelude::*;
use crate::arith::{sum_over, sum_over_same};
use crate::config::Config;
use crate::dataset::{row_key, row_keys, texts, Row};
use crate::hashing::key_hash;
use crate::manifest::{
    heavy_plan_texts, normal_plan_texts, HeavyKeyPlan, NormalKeyPlan, PartitionPlan,
    SaltPartitionPlan, StatsMetadata,
};
use crate::partitioner::{
    assigned, assignments, heavy_lookup, is_assignment, key_count, normal_lookup, partition_count,
    record_texts, salt_map, PartitionAssignmentSummary, RecordPartitionAssignment, RecordText,
};
use crate::plan_guarantees::{planned_loads_are_listed, planned_on, share_of};
use crate::routing::{keyless, names_partitions, plans_rows, salted};

verus! {

/// No two entries of the plan are for the same key, and the salts of a heavy key are
/// numbered one after the other.
pub open spec fn names_keys_once(plan: PartitionPlan) -> bool {
    &&& forall|i: int, j: int|
        0 <= i < plan.normal_keys@.len() && 0 <= j < plan.normal_keys@.len() && (
        #[trigger] plan.normal_keys@[i]).key@ == (#[trigger] plan.normal_keys@[j]).key@ ==> i == j
    &&& forall|i: int, j: int|
        0 <= i < plan.heavy_keys@.len() && 0 <= j < plan.heavy_keys@.len() && (
        #[trigger] plan.heavy_keys@[i]).key@ == (#[trigger] plan.heavy_keys@[j]).key@ ==> i == j
    &&& forall|i: int, j: int|
        0 <= i < plan.normal_keys@.len() && 0 <= j < plan.heavy_keys@.len() ==> (
        #[trigger] plan.normal_keys@[i]).key@ != (#[trigger] plan.heavy_keys@[j]).key@
    &&& forall|j: int, s: int|
        0 <= j < plan.heavy_keys@.len() && 0 <= s < plan.heavy_keys@[j].salt_partitions@.len()
            ==> (#[trigger] plan.heavy_keys@[j].salt_partitions@[s]).salt_index == s
    &&& forall|j: int|
        0 <= j < plan.heavy_keys@.len() ==> 0 < (
        #[trigger] plan.heavy_keys@[j]).salt_partitions@.len() <= usize::MAX
}

/// The rows with a key are counted.
pub proof fn key_rows_are_counted(keys: Seq<Option<Seq<char>>>, key: Seq<char>)
    ensures
        key_count(keys, key) == keys.to_multiset().count(Some(key)),
    decreases keys.len(),
{
    broadcast use vstd::seq_lib::group_to_multiset_ensures;

    keys.to_multiset_ensures();
    if keys.len() > 0 {
        key_rows_are_counted(keys.drop_last(), key);
        keys.drop_last().to_multiset_ensures();
        assert(keys =~= keys.drop_last().push(keys.last()));
    }
}

/// Every row has one record, in row order, with its own key.
pub proof fn every_row_has_its_record(
    plan: PartitionPlan,
    rows: Seq<Row>,
    summary: PartitionAssignmentSummary,
    r: int,
)
    requires
        is_assignment(plan, rows, summary),
        rows.len() <= usize::MAX,
        0 <= r < rows.len(),
    ensures
        summary.records@.len() == rows.len(),
        summary.records@[r].row_index == r,
        match summary.records@[r].key {
            Some(key) => row_key(rows[r]@, texts(plan.key_columns@)) == Some(key@),
            None => row_key(rows[r]@, texts(plan.key_columns@)) is None,
        },
{
    record_is_assigned(plan, rows, summary, r);
}

proof fn record_is_assigned(
    plan: PartitionPlan,
    rows: Seq<Row>,
    summary: PartitionAssignmentSummary,
    r: int,
)
    requires
        is_assignment(plan, rows, summary),
        0 <= r < rows.len(),
    ensures
        summary.records@.len() == rows.len(),
        summary.records@[r]@ == assigned(plan, row_keys(rows, texts(plan.key_columns@)), r),
{
    let keys = row_keys(rows, texts(plan.key_columns@));
    let records = record_texts(summary.records@);
    assert(records.len() == summary.records@.len());
    assert(assignments(plan, keys).len() == keys.len());
    assert(records[r] == summary.records@[r]@);
}

proof fn normal_lookup_finds(plans: Seq<NormalKeyPlan>, key: Seq<char>)
    ensures
        normal_lookup(normal_plan_texts(plans), key) is None <==> forall|k: int|
            0 <= k < plans.len() ==> (#[trigger] plans[k]).key@ != key,
        normal_lookup(normal_plan_texts(plans), key) matches Some(p) ==> exists|k: int|
            0 <= k < plans.len() && (#[trigger] plans[k]).key@ == key && plans[k].partition_id == p,
    decreases plans.len(),
{
    let all = normal_plan_texts(plans);
    if plans.len() > 0 {
        let rest = plans.drop_last();
        normal_lookup_finds(rest, key);
        assert(all.drop_last() =~= normal_plan_texts(rest));
        assert(all.last() == plans.last()@);
        if plans.last().key@ == key {
            assert(plans[plans.len() - 1].key@ == key);
        } else {
            if normal_lookup(all, key) is Some {
                let p = normal_lookup(all, key)->0;
                let k = choose|k: int|
                    0 <= k < rest.len() && (#[trigger] rest[k]).key@ == key && rest[k].partition_id
                        == p;
                assert(plans[k] == rest[k]);
            } else {
                assert forall|k: int| 0 <= k < plans.len() implies (#[trigger] plans[k]).key@
                    != key by {
                    if k < rest.len() {
                        assert(rest[k] == plans[k]);
                    }
                }
            }
        }
    }
}

proof fn heavy_lookup_finds(plans: Seq<HeavyKeyPlan>, key: Seq<char>)
    ensures
        heavy_lookup(heavy_plan_texts(plans), key) is None <==> forall|k: int|
            0 <= k < plans.len() ==> (#[trigger] plans[k]).key@ != key,
        heavy_lookup(heavy_plan_texts(plans), key) matches Some(salts) ==> exists|k: int|
            0 <= k < plans.len() && (#[trigger] plans[k]).key@ == key && plans[k].salt_partitions@
                == salts,
    decreases plans.len(),
{
    let all = heavy_plan_texts(plans);
    if plans.len() > 0 {
        let rest = plans.drop_last();
        heavy_lookup_finds(rest, key);
        assert(all.drop_last() =~= heavy_plan_texts(rest));
        assert(all.last() == plans.last()@);
        if plans.last().key@ == key {
            assert(plans[plans.len() - 1].key@ == key);
        } else {
            if heavy_lookup(all, key) is Some {
                let salts = heavy_lookup(all, key)->0;
                let k = choose|k: int|
                    0 <= k < rest.len() && (#[trigger] rest[k]).key@ == key
                        && rest[k].salt_partitions@ == salts;
                assert(plans[k] == rest[k]);
            } else {
                assert forall|k: int| 0 <= k < plans.len() implies (#[trigger] plans[k]).key@
                    != key by {
                    if k < rest.len() {
                        assert(rest[k] == plans[k]);
                    }
                }
            }
        }
    }
}

proof fn salts_in_order(salts: Seq<SaltPartitionPlan>)
    requires
        salts.len() <= usize::MAX,
        forall|s: int| 0 <= s < salts.len() ==> (#[trigger] salts[s]).salt_index == s,
    ensures
        forall|x: usize| #[trigger] salt_map(salts).contains_key(x) <==> x < salts.len(),
        forall|x: usize|
            x < salts.len() ==> #[trigger] salt_map(salts)[x] == salts[x as int].partition_id,
        salt_map(salts).dom().finite(),
        salt_map(salts).len() == salts.len(),
    decreases salts.len(),
{
    if salts.len() > 0 {
        let rest = salts.drop_last();
        let last = (salts.len() - 1) as usize;
        assert forall|s: int| 0 <= s < rest.len() implies (#[trigger] rest[s]).salt_index == s by {
            assert(rest[s] == salts[s]);
        }
        salts_in_order(rest);
        assert(salts[salts.len() - 1].salt_index == last);
        assert(!salt_map(rest).contains_key(last));
        assert(salt_map(salts).dom() =~= salt_map(rest).dom().insert(last));
    }
}

/// A row of a key that the plan lists goes to the partition of that key, without a salt.
pub proof fn planned_keys_go_where_planned(
    plan: PartitionPlan,
    rows: Seq<Row>,
    summary: PartitionAssignmentSummary,
    r: int,
    k: int,
)
    requires
        is_assignment(plan, rows, summary),
        names_keys_once(plan),
        0 <= r < rows.len(),
        0 <= k < plan.normal_keys@.len(),
        row_key(rows[r]@, texts(plan.key_columns@)) == Some(plan.normal_keys@[k].key@),
    ensures
        summary.records@[r].partition_id == plan.normal_keys@[k].partition_id,
        summary.records@[r].salt_index is None,
{
    let key = plan.normal_keys@[k].key@;
    record_is_assigned(plan, rows, summary, r);
    normal_lookup_finds(plan.normal_keys@, key);
    heavy_lookup_finds(plan.heavy_keys@, key);
    assert forall|j: int| 0 <= j < plan.heavy_keys@.len() implies (
    #[trigger] plan.heavy_keys@[j]).key@ != key by {
        assert(plan.normal_keys@[k].key@ != plan.heavy_keys@[j].key@);
    }
}

/// The rows of a heavy key take its salts in turn: a row has the salt that the number of
/// earlier rows of the key leaves when it is divided by the number of salts, and goes to
/// the partition of that salt.
pub proof fn heavy_rows_take_salts_in_turn(
    plan: PartitionPlan,
    rows: Seq<Row>,
    summary: PartitionAssignmentSummary,
    r: int,
    j: int,
)
    requires
        is_assignment(plan, rows, summary),
        names_keys_once(plan),
        rows.len() <= usize::MAX,
        0 <= r < rows.len(),
        0 <= j < plan.heavy_keys@.len(),
        row_key(rows[r]@, texts(plan.key_columns@)) == Some(plan.heavy_keys@[j].key@),
    ensures
        ({
            let salts = plan.heavy_keys@[j].salt_partitions@;
            let earlier = row_keys(rows, texts(plan.key_columns@)).take(r).to_multiset().count(
                Some(plan.heavy_keys@[j].key@),
            );
            &&& summary.records@[r].salt_index matches Some(salt) && salt == earlier % salts.len()
            &&& summary.records@[r].partition_id == salts[(earlier % salts.len()) as int].partition_id
        }),
{
    let heavy = plan.heavy_keys@[j];
    let key = heavy.key@;
    let keys = row_keys(rows, texts(plan.key_columns@));
    record_is_assigned(plan, rows, summary, r);
    heavy_lookup_finds(plan.heavy_keys@, key);
    let found = heavy_lookup(heavy_plan_texts(plan.heavy_keys@), key)->0;
    let i = choose|i: int|
        0 <= i < plan.heavy_keys@.len() && (#[trigger] plan.heavy_keys@[i]).key@ == key
            && plan.heavy_keys@[i].salt_partitions@ == found;
    assert(plan.heavy_keys@[i].key@ == plan.heavy_keys@[j].key@);
    let salts = heavy.salt_partitions@;
    assert(found == salts);
    assert forall|s: int| 0 <= s < salts.len() implies (#[trigger] salts[s]).salt_index == s by {
        assert(plan.heavy_keys@[j].salt_partitions@[s].salt_index == s);
    }
    salts_in_order(salts);
    key_rows_are_counted(keys.take(r), key);
    crate::partitioner::key_count_bounded(keys.take(r), key);
    let seen = key_count(keys.take(r), key) as int;
    let n = salts.len() as int;
    assert(0 <= seen % n < n) by (nonlinear_arith)
        requires
            n > 0,
    ;
}

/// A row whose key the plan does not list goes where the hash of the key says, and rows
/// without a key go, all of them, where the hash of one text says; neither has a salt.
pub proof fn other_rows_go_by_hash(
    plan: PartitionPlan,
    rows: Seq<Row>,
    summary: PartitionAssignmentSummary,
    r: int,
)
    requires
        is_assignment(plan, rows, summary),
        plan.output_partitions > 0,
        0 <= r < rows.len(),
        row_key(rows[r]@, texts(plan.key_columns@)) matches Some(key) ==> {
            &&& forall|k: int|
                0 <= k < plan.normal_keys@.len() ==> (#[trigger] plan.normal_keys@[k]).key@ != key
            &&& forall|j: int|
                0 <= j < plan.heavy_keys@.len() ==> (#[trigger] plan.heavy_keys@[j]).key@ != key
        },
    ensures
        summary.records@[r].salt_index is None,
        summary.records@[r].partition_id == (key_hash(
            plan.seed,
            match row_key(rows[r]@, texts(plan.key_columns@)) {
                Some(key) => key,
                None => "<missing_partition_key>"@,
            },
        ) as usize) % plan.output_partitions,
{
    record_is_assigned(plan, rows, summary, r);
    if let Some(key) = row_key(rows[r]@, texts(plan.key_columns@)) {
        normal_lookup_finds(plan.normal_keys@, key);
        heavy_lookup_finds(plan.heavy_keys@, key);
    }
}

proof fn records_are_filtered(records: Seq<RecordPartitionAssignment>, p: int)
    ensures
        partition_count(record_texts(records), p) == records.filter(
            |record: RecordPartitionAssignment| record.partition_id == p,
        ).len(),
    decreases records.len(),
{
    reveal(Seq::filter);
    if records.len() > 0 {
        let rest = records.drop_last();
        records_are_filtered(rest, p);
        assert(record_texts(records).drop_last() =~= record_texts(rest));
        assert(record_texts(records).last() == records.last()@);
    }
}

/// The row count of a partition is the number of its records, and the counts together
/// are the rows of the dataset.
pub proof fn row_counts_count_records(
    plan: PartitionPlan,
    rows: Seq<Row>,
    summary: PartitionAssignmentSummary,
    p: int,
)
    requires
        is_assignment(plan, rows, summary),
        names_partitions(plan),
        rows.len() <= u64::MAX,
        0 <= p < plan.output_partitions,
    ensures
        summary.partition_row_counts@.len() == plan.output_partitions,
        summary.partition_row_counts@[p] == summary.records@.filter(
            |record: RecordPartitionAssignment| record.partition_id == p,
        ).len(),
        sum_over(
            |x: int| summary.partition_row_counts@[x] as nat,
            plan.output_partitions as nat,
        ) == rows.len(),
{
    let keys = row_keys(rows, texts(plan.key_columns@));
    let records = assignments(plan, keys);
    records_are_filtered(summary.records@, p);
    crate::partitioner::partition_count_bounded(records, p);
    crate::routing::partitions_hold_all_rows(plan, keys);
    let f = |x: int| partition_count(records, x);
    let g = |x: int| summary.partition_row_counts@[x] as nat;
    assert forall|x: int| 0 <= x < plan.output_partitions implies #[trigger] f(x) == g(x) by {
        crate::partitioner::partition_count_bounded(records, x);
    }
    sum_over_same(f, g, plan.output_partitions as nat);
}

proof fn salted_are_filtered(records: Seq<RecordText>, key: Seq<char>, salt: int)
    ensures
        salted(records, key, salt) == records.filter(
            |record: RecordText|
                record.key == Some(key) && record.salt_index is Some && record.salt_index->0 == salt,
        ).len(),
    decreases records.len(),
{
    reveal(Seq::filter);
    if records.len() > 0 {
        salted_are_filtered(records.drop_last(), key, salt);
    }
}

/// The rows of a heavy key are shared out among its salts as evenly as can be.
pub proof fn salts_get_even_shares(
    plan: PartitionPlan,
    rows: Seq<Row>,
    summary: PartitionAssignmentSummary,
    j: int,
    salt: int,
)
    requires
        is_assignment(plan, rows, summary),
        names_keys_once(plan),
        rows.len() <= usize::MAX,
        0 <= j < plan.heavy_keys@.len(),
        0 <= salt < plan.heavy_keys@[j].salt_partitions@.len(),
    ensures
        record_texts(summary.records@).filter(
            |record: RecordText|
                record.key == Some(plan.heavy_keys@[j].key@) && record.salt_index is Some
                    && record.salt_index->0 == salt,
        ).len() == share_of(
            row_keys(rows, texts(plan.key_columns@)).to_multiset().count(
                Some(plan.heavy_keys@[j].key@),
            ),
            plan.heavy_keys@[j].salt_partitions@.len(),
            salt,
        ),
{
    let heavy = plan.heavy_keys@[j];
    let key = heavy.key@;
    let keys = row_keys(rows, texts(plan.key_columns@));
    heavy_lookup_finds(plan.heavy_keys@, key);
    let found = heavy_lookup(heavy_plan_texts(plan.heavy_keys@), key)->0;
    let i = choose|i: int|
        0 <= i < plan.heavy_keys@.len() && (#[trigger] plan.heavy_keys@[i]).key@ == key
            && plan.heavy_keys@[i].salt_partitions@ == found;
    assert(plan.heavy_keys@[i].key@ == plan.heavy_keys@[j].key@);
    let salts = heavy.salt_partitions@;
    assert forall|s: int| 0 <= s < salts.len() implies (#[trigger] salts[s]).salt_index == s by {
        assert(plan.heavy_keys@[j].salt_partitions@[s].salt_index == s);
    }
    salts_in_order(salts);
    crate::routing::salts_share_evenly(plan, keys, key, salt);
    salted_are_filtered(assignments(plan, keys), key, salt);
    key_rows_are_counted(keys, key);
}

proof fn keyless_are_filtered(keys: Seq<Option<Seq<char>>>)
    ensures
        keyless(keys) == keys.filter(|key: Option<Seq<char>>| key is None).len(),
    decreases keys.len(),
{
    reveal(Seq::filter);
    if keys.len() > 0 {
        keyless_are_filtered(keys.drop_last());
    }
}

/// A partition receives the rows that the plan lists for it, but for the rows without a
/// key, which all go to one partition.
pub proof fn partitions_receive_what_is_planned(
    config: Config,
    stats: StatsMetadata,
    seconds: u64,
    plan: PartitionPlan,
    rows: Seq<Row>,
    summary: PartitionAssignmentSummary,
    p: int,
)
    requires
        plans_rows(config, stats, seconds, plan, row_keys(rows, texts(plan.key_columns@))),
        is_assignment(plan, rows, summary),
        forall|j: int|
            0 <= j < plan.heavy_keys@.len() ==> (
            #[trigger] plan.heavy_keys@[j]).estimated_frequency <= usize::MAX,
        rows.len() <= u64::MAX,
        0 <= p < plan.output_partitions,
    ensures
        ({
            let missing = (key_hash(plan.seed, "<missing_partition_key>"@) as usize)
                % plan.output_partitions;
            let without = row_keys(rows, texts(plan.key_columns@)).filter(
                |key: Option<Seq<char>>| key is None,
            ).len();
            summary.partition_row_counts@[p] == planned_on(plan, p) + if p == missing {
                without
            } else {
                0
            }
        }),
{
    let keys = row_keys(rows, texts(plan.key_columns@));
    crate::routing::loads_are_met(config, stats, seconds, plan, keys, p);
    planned_loads_are_listed(config, stats, seconds, plan, p);
    keyless_are_filtered(keys);
    crate::partitioner::partition_count_bounded(assignments(plan, keys), p);
}

/// A plan that is made for a dataset names each key once.
pub proof fn plans_name_keys_once(
    config: Config,
    stats: StatsMetadata,
    seconds: u64,
    plan: PartitionPlan,
    keys: Seq<Option<Seq<char>>>,
)
    requires
        plans_rows(config, stats, seconds, plan, keys),
        forall|j: int|
            0 <= j < plan.heavy_keys@.len() ==> (
            #[trigger] plan.heavy_keys@[j]).estimated_frequency <= usize::MAX,
    ensures
        names_keys_once(plan),
{
    crate::routing::plan_keys_listed_once(config, stats, seconds, plan, keys);
    assert forall|j: int| 0 <= j < plan.heavy_keys@.len() implies {
        &&& 0 < (#[trigger] plan.heavy_keys@[j]).salt_partitions@.len() <= usize::MAX
        &&& forall|s: int|
            0 <= s < plan.heavy_keys@[j].salt_partitions@.len() ==> (
            #[trigger] plan.heavy_keys@[j].salt_partitions@[s]).salt_index == s
    } by {
        crate::plan_guarantees::salts_are_as_many_as_needed(config, stats, seconds, plan, j);
    }
}

/// Salts of a heavy key that the plan gives no partition fall back to the hash of the
/// key, as does a heavy key without any salt.
pub proof fn unplanned_salts_go_by_hash(
    plan: PartitionPlan,
    rows: Seq<Row>,
    summary: PartitionAssignmentSummary,
    r: int,
    j: int,
)
    requires
        is_assignment(plan, rows, summary),
        plan.output_partitions > 0,
        0 <= r < rows.len(),
        0 <= j < plan.heavy_keys@.len(),
        row_key(rows[r]@, texts(plan.key_columns@)) == Some(plan.heavy_keys@[j].key@),
        forall|i: int|
            0 <= i < plan.heavy_keys@.len() && (#[trigger] plan.heavy_keys@[i]).key@
                == plan.heavy_keys@[j].key@ ==> i == j,
        summary.records@[r].salt_index matches Some(salt) ==> forall|s: int|
            0 <= s < plan.heavy_keys@[j].salt_partitions@.len() ==> (
            #[trigger] plan.heavy_keys@[j].salt_partitions@[s]).salt_index != salt,
    ensures
        summary.records@[r].salt_index is Some,
        summary.records@[r].partition_id == (key_hash(plan.seed, plan.heavy_keys@[j].key@) as usize)
            % plan.output_partitions,
{
    let key = plan.heavy_keys@[j].key@;
    record_is_assigned(plan, rows, summary, r);
    heavy_lookup_finds(plan.heavy_keys@, key);
    let found = heavy_lookup(heavy_plan_texts(plan.heavy_keys@), key)->0;
    let i = choose|i: int|
        0 <= i < plan.heavy_keys@.len() && (#[trigger] plan.heavy_keys@[i]).key@ == key
            && plan.heavy_keys@[i].salt_partitions@ == found;
    assert(i == j);
    salts_are_listed(found, summary.records@[r].salt_index->0);
}

proof fn salts_are_listed(salts: Seq<SaltPartitionPlan>, salt: usize)
    ensures
        salt_map(salts).contains_key(salt) ==> exists|s: int|
            0 <= s < salts.len() && (#[trigger] salts[s]).salt_index == salt,
    decreases salts.len(),
{
    if salts.len() > 0 {
        let rest = salts.drop_last();
        salts_are_listed(rest, salt);
        if salt_map(rest).contains_key(salt) {
            let s = choose|s: int| 0 <= s < rest.len() && (#[trigger] rest[s]).salt_index == salt;
            assert(salts[s] == rest[s]);
        } else {
            assert(salts[salts.len() - 1] == salts.last());
        }
    }
}

} // verus!
