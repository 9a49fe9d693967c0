//! Which partition each row goes to.

use std::collections::BTreeMap;
use vstd::prelude::*;
use crate::dataset::{row_keys, texts, Row};
use crate::error::Error;
use crate::hashing::{hashed_partition, partition_id};
use crate::keymap::KeyMap;
use crate::manifest::{
    heavy_plan_texts, normal_plan_texts, HeavyKeyPlanText, NormalKeyPlanText, PartitionPlan,
    SaltPartitionPlan,
};
use crate::planner::Plan;
use crate::reader::InputDataset;

verus! {

broadcast use {vstd::std_specs::btree::group_btree_axioms, vstd::laws_cmp::group_laws_cmp};

/// Where the rows go.
#[derive(Debug, Clone, PartialEq, Eq)]
pub struct PartitionAssignmentSummary {
    pub partition_row_counts: Vec<u64>,
    pub records: Vec<RecordPartitionAssignment>,
}

/// Where one row goes.
#[derive(Debug, PartialEq, Eq)]
pub struct RecordPartitionAssignment {
    pub row_index: usize,
    pub key: Option<String>,
    pub partition_id: usize,
    pub salt_index: Option<usize>,
}

/// Where one row goes, as text.
pub struct RecordText {
    pub row_index: usize,
    pub key: Option<Seq<char>>,
    pub partition_id: usize,
    pub salt_index: Option<usize>,
}

impl View for RecordPartitionAssignment {
    type V = RecordText;

    open spec fn view(&self) -> RecordText {
        RecordText {
            row_index: self.row_index,
            key: match self.key {
                Some(key) => Some(key@),
                None => None,
            },
            partition_id: self.partition_id,
            salt_index: self.salt_index,
        }
    }
}

impl Clone for RecordPartitionAssignment {
    fn clone(&self) -> (copy: Self)
        ensures
            copy@ == self@,
    {
        RecordPartitionAssignment {
            row_index: self.row_index,
            key: match &self.key {
                Some(key) => Some(key.clone()),
                None => None,
            },
            partition_id: self.partition_id,
            salt_index: self.salt_index,
        }
    }
}

/// The partition that a plan gives a key that is not heavy; of several, the last.
pub open spec fn normal_lookup(plans: Seq<NormalKeyPlanText>, key: Seq<char>) -> Option<usize>
    decreases plans.len(),
{
    if plans.len() == 0 {
        None
    } else if plans.last().key == key {
        Some(plans.last().partition_id)
    } else {
        normal_lookup(plans.drop_last(), key)
    }
}

/// The salts that a plan gives a heavy key; of several, the last.
pub open spec fn heavy_lookup(plans: Seq<HeavyKeyPlanText>, key: Seq<char>) -> Option<
    Seq<SaltPartitionPlan>,
>
    decreases plans.len(),
{
    if plans.len() == 0 {
        None
    } else if plans.last().key == key {
        Some(plans.last().salt_partitions)
    } else {
        heavy_lookup(plans.drop_last(), key)
    }
}

/// The partition of each salt; of several, the last.
pub open spec fn salt_map(salts: Seq<SaltPartitionPlan>) -> Map<usize, usize>
    decreases salts.len(),
{
    if salts.len() == 0 {
        Map::empty()
    } else {
        salt_map(salts.drop_last()).insert(salts.last().salt_index, salts.last().partition_id)
    }
}

/// The number of salts, at least one.
pub open spec fn salt_cycle(salts: Seq<SaltPartitionPlan>) -> int {
    if salt_map(salts).len() == 0 {
        1
    } else {
        salt_map(salts).len() as int
    }
}

/// How many of the rows have the key.
pub open spec fn key_count(keys: Seq<Option<Seq<char>>>, key: Seq<char>) -> nat
    decreases keys.len(),
{
    if keys.len() == 0 {
        0
    } else {
        key_count(keys.drop_last(), key) + if keys.last() == Some(key) {
            1nat
        } else {
            0nat
        }
    }
}

/// Where row `r` goes: rows of a heavy key take its salts in turn; a key that is
/// planned goes where it was planned; other keys, and rows without a key, go by
/// hash.
pub open spec fn assigned(plan: PartitionPlan, keys: Seq<Option<Seq<char>>>, r: int) -> RecordText {
    let n = plan.output_partitions;
    match keys[r] {
        None => RecordText {
            row_index: r as usize,
            key: None,
            partition_id: hashed_partition("<missing_partition_key>"@, n, plan.seed),
            salt_index: None,
        },
        Some(key) => match heavy_lookup(heavy_plan_texts(plan.heavy_keys@), key) {
            Some(salts) => {
                let salt = (key_count(keys.take(r), key) as int % salt_cycle(salts)) as usize;
                RecordText {
                    row_index: r as usize,
                    key: Some(key),
                    partition_id: if salt_map(salts).contains_key(salt) {
                        salt_map(salts)[salt]
                    } else {
                        hashed_partition(key, n, plan.seed)
                    },
                    salt_index: Some(salt),
                }
            },
            None => RecordText {
                row_index: r as usize,
                key: Some(key),
                partition_id: match normal_lookup(normal_plan_texts(plan.normal_keys@), key) {
                    Some(p) => p,
                    None => hashed_partition(key, n, plan.seed),
                },
                salt_index: None,
            },
        },
    }
}

/// How many records go to a partition.
pub open spec fn partition_count(records: Seq<RecordText>, p: int) -> nat
    decreases records.len(),
{
    if records.len() == 0 {
        0
    } else {
        partition_count(records.drop_last(), p) + if records.last().partition_id == p {
            1nat
        } else {
            0nat
        }
    }
}

/// The contents of a sequence of records.
pub open spec fn record_texts(records: Seq<RecordPartitionAssignment>) -> Seq<RecordText> {
    Seq::new(records.len(), |r: int| records[r]@)
}

/// All rows, assigned.
pub open spec fn assignments(plan: PartitionPlan, keys: Seq<Option<Seq<char>>>) -> Seq<RecordText> {
    Seq::new(keys.len(), |r: int| assigned(plan, keys, r))
}

/// `summary` assigns the rows of a dataset.
pub open spec fn is_assignment(
    plan: PartitionPlan,
    rows: Seq<Row>,
    summary: PartitionAssignmentSummary,
) -> bool {
    let keys = row_keys(rows, texts(plan.key_columns@));
    &&& record_texts(summary.records@) == assignments(plan, keys)
    &&& summary.partition_row_counts@ == Seq::new(
        plan.output_partitions as nat,
        |p: int| partition_count(assignments(plan, keys), p) as u64,
    )
}

fn normal_partition_lookup(plan: &PartitionPlan) -> (lookup: KeyMap<usize>)
    ensures
        forall|k: Seq<char>|
            normal_lookup(normal_plan_texts(plan.normal_keys@), k) == if #[trigger] lookup@.contains_key(k) {
                Some(lookup@[k])
            } else {
                None
            },
{
    let ghost all = normal_plan_texts(plan.normal_keys@);
    let mut lookup: KeyMap<usize> = KeyMap::new();
    let mut i: usize = 0;
    assert(all.take(0) =~= Seq::<NormalKeyPlanText>::empty());
    while i < plan.normal_keys.len()
        invariant
            i <= plan.normal_keys@.len(),
            all == normal_plan_texts(plan.normal_keys@),
            forall|k: Seq<char>|
                normal_lookup(all.take(i as int), k) == if #[trigger] lookup@.contains_key(k) {
                    Some(lookup@[k])
                } else {
                    None
                },
        decreases plan.normal_keys.len() - i,
    {
        let ghost before = lookup@;
        lookup.insert(plan.normal_keys[i].key.clone(), plan.normal_keys[i].partition_id);
        proof {
            let done = all.take(i as int);
            let more = all.take(i + 1);
            assert(more.drop_last() =~= done);
            assert(more.last() == all[i as int]);
            assert forall|k: Seq<char>| normal_lookup(more, k) == if #[trigger] lookup@.contains_key(k) {
                Some(lookup@[k])
            } else {
                None
            } by {
                assert(before.contains_key(k) || !before.contains_key(k));
            }
        }
        i += 1;
    }
    assert(all.take(i as int) =~= all);
    lookup
}

fn salt_lookup(salts: &Vec<SaltPartitionPlan>) -> (lookup: BTreeMap<usize, usize>)
    ensures
        lookup@ == salt_map(salts@),
{
    let mut lookup: BTreeMap<usize, usize> = BTreeMap::new();
    let mut i: usize = 0;
    assert(salts@.take(0) =~= Seq::<SaltPartitionPlan>::empty());
    while i < salts.len()
        invariant
            i <= salts@.len(),
            lookup@ == salt_map(salts@.take(i as int)),
        decreases salts.len() - i,
    {
        lookup.insert(salts[i].salt_index, salts[i].partition_id);
        assert(salts@.take(i + 1).drop_last() =~= salts@.take(i as int));
        i += 1;
    }
    assert(salts@.take(i as int) =~= salts@);
    lookup
}

fn heavy_partition_lookup(plan: &PartitionPlan) -> (lookup: KeyMap<BTreeMap<usize, usize>>)
    ensures
        forall|k: Seq<char>|
            (heavy_lookup(heavy_plan_texts(plan.heavy_keys@), k) is Some) == #[trigger] lookup@.contains_key(k),
        forall|k: Seq<char>| #[trigger]
            lookup@.contains_key(k) ==> lookup@[k]@ == salt_map(
                heavy_lookup(heavy_plan_texts(plan.heavy_keys@), k)->0,
            ),
{
    let ghost all = heavy_plan_texts(plan.heavy_keys@);
    let mut lookup: KeyMap<BTreeMap<usize, usize>> = KeyMap::new();
    let mut i: usize = 0;
    assert(all.take(0) =~= Seq::<HeavyKeyPlanText>::empty());
    while i < plan.heavy_keys.len()
        invariant
            i <= plan.heavy_keys@.len(),
            all == heavy_plan_texts(plan.heavy_keys@),
            forall|k: Seq<char>|
                (heavy_lookup(all.take(i as int), k) is Some) == #[trigger] lookup@.contains_key(k),
            forall|k: Seq<char>| #[trigger]
                lookup@.contains_key(k) ==> lookup@[k]@ == salt_map(
                    heavy_lookup(all.take(i as int), k)->0,
                ),
        decreases plan.heavy_keys.len() - i,
    {
        let ghost before = lookup@;
        let salts = salt_lookup(&plan.heavy_keys[i].salt_partitions);
        lookup.insert(plan.heavy_keys[i].key.clone(), salts);
        proof {
            let done = all.take(i as int);
            let more = all.take(i + 1);
            assert(more.drop_last() =~= done);
            assert(more.last() == all[i as int]);
            assert forall|k: Seq<char>| (heavy_lookup(more, k) is Some) == #[trigger] lookup@.contains_key(k) by {
                assert(before.contains_key(k) || !before.contains_key(k));
            }
            assert forall|k: Seq<char>| #[trigger] lookup@.contains_key(k) implies lookup@[k]@ == salt_map(
                heavy_lookup(more, k)->0,
            ) by {
                assert(before.contains_key(k) || !before.contains_key(k));
            }
        }
        i += 1;
    }
    assert(all.take(i as int) =~= all);
    lookup
}

/// No more records go to a partition than there are.
pub proof fn partition_count_bounded(records: Seq<RecordText>, p: int)
    ensures
        partition_count(records, p) <= records.len(),
    decreases records.len(),
{
    if records.len() > 0 {
        partition_count_bounded(records.drop_last(), p);
    }
}

/// A key is on no more rows than there are.
pub proof fn key_count_bounded(keys: Seq<Option<Seq<char>>>, key: Seq<char>)
    ensures
        key_count(keys, key) <= keys.len(),
    decreases keys.len(),
{
    if keys.len() > 0 {
        key_count_bounded(keys.drop_last(), key);
    }
}

/// `seen` counts the rows of heavy keys.
spec fn counts_heavy(
    seen: Map<Seq<char>, usize>,
    plan: PartitionPlan,
    keys: Seq<Option<Seq<char>>>,
) -> bool {
    forall|k: Seq<char>|
        heavy_lookup(heavy_plan_texts(plan.heavy_keys@), k) is Some ==> key_count(keys, k) == if #[trigger] seen.contains_key(k) {
            seen[k] as int
        } else {
            0
        }
}

/// Assigns a partition to each row.
pub fn assign_partitions(plan: &Plan, dataset: &InputDataset) -> (result: Result<
    PartitionAssignmentSummary,
    Error,
>)
    ensures
        result matches Ok(summary) && is_assignment(plan.metadata, dataset.rows.rows@, summary),
{
    let metadata = &plan.metadata;
    let rows = &dataset.rows.rows;
    let n: usize = metadata.output_partitions;
    let seed: u64 = metadata.seed;
    let ghost keys = row_keys(rows@, texts(metadata.key_columns@));
    let ghost all = assignments(*metadata, keys);
    let mut counts: Vec<u64> = vec![0u64; n];
    let mut records: Vec<RecordPartitionAssignment> = Vec::new();
    let normal_partitions = normal_partition_lookup(metadata);
    let heavy_partitions = heavy_partition_lookup(metadata);
    let mut seen: KeyMap<usize> = KeyMap::new();
    let mut i: usize = 0;
    proof {
        assert(keys.take(0) =~= Seq::<Option<Seq<char>>>::empty());
        assert(all.take(0) =~= Seq::<RecordText>::empty());
        assert(record_texts(records@) =~= all.take(0));
        assert(counts@ =~= Seq::new(n as nat, |p: int| partition_count(all.take(0), p) as u64));
    }
    while i < rows.len()
        invariant
            metadata == plan.metadata,
            n == metadata.output_partitions,
            seed == metadata.seed,
            keys == row_keys(rows@, texts(metadata.key_columns@)),
            all == assignments(*metadata, keys),
            forall|k: Seq<char>|
                normal_lookup(normal_plan_texts(metadata.normal_keys@), k) == if #[trigger] normal_partitions@.contains_key(k) {
                    Some(normal_partitions@[k])
                } else {
                    None
                },
            forall|k: Seq<char>|
                (heavy_lookup(heavy_plan_texts(metadata.heavy_keys@), k) is Some)
                    == #[trigger] heavy_partitions@.contains_key(k),
            forall|k: Seq<char>| #[trigger]
                heavy_partitions@.contains_key(k) ==> heavy_partitions@[k]@ == salt_map(
                    heavy_lookup(heavy_plan_texts(metadata.heavy_keys@), k)->0,
                ),
            i <= rows@.len(),
            record_texts(records@) == all.take(i as int),
            counts@ == Seq::new(n as nat, |p: int| partition_count(all.take(i as int), p) as u64),
            counts_heavy(seen@, *metadata, keys.take(i as int)),
        decreases rows.len() - i,
    {
        let ghost done = keys.take(i as int);
        let ghost more = keys.take(i + 1);
        proof {
            assert(more.drop_last() =~= done);
            assert(more.last() == keys[i as int]);
        }
        let key = rows[i].partition_key(metadata.key_columns.as_slice());
        let ghost seen_before = seen@;
        let mut salt_index: Option<usize> = None;
        let id: usize = match &key {
            None => partition_id("<missing_partition_key>", n, seed),
            Some(text) => match heavy_partitions.get(text) {
                Some(salts) => {
                    let occurrence: usize = match seen.get(text) {
                        Some(count) => *count,
                        None => 0,
                    };
                    let cycle: usize = if salts.len() == 0 { 1 } else { salts.len() };
                    let salt: usize = occurrence % cycle;
                    proof {
                        key_count_bounded(done, text@);
                        assert(occurrence == key_count(done, text@)) by {
                            assert(seen@.contains_key(text@) || !seen@.contains_key(text@));
                        }
                        assert(done.len() == i);
                    }
                    seen.insert(text.clone(), occurrence + 1);
                    salt_index = Some(salt);
                    match salts.get(&salt) {
                        Some(p) => *p,
                        None => partition_id(text, n, seed),
                    }
                },
                None => match normal_partitions.get(text) {
                    Some(p) => *p,
                    None => partition_id(text, n, seed),
                },
            },
        };
        proof {
            assert forall|k: Seq<char>|
                heavy_lookup(heavy_plan_texts(metadata.heavy_keys@), k) is Some implies key_count(
                more,
                k,
            ) == if #[trigger] seen@.contains_key(k) {
                seen@[k] as int
            } else {
                0
            } by {
                assert(seen_before.contains_key(k) || !seen_before.contains_key(k));
                assert(heavy_partitions@.contains_key(k));
            }
        }
        let ghost counts_before = counts@;
        let ghost placed = all.take(i as int);
        proof {
            partition_count_bounded(placed, id as int);
            assert(placed.len() == i);
        }
        if id < n {
            counts.set(id, counts[id] + 1);
        }
        let ghost records_before = records@;
        records.push(
            RecordPartitionAssignment { row_index: i, key, partition_id: id, salt_index },
        );
        proof {
            let now = all.take(i + 1);
            assert(now.drop_last() =~= placed);
            assert(now.last() == all[i as int]);
            assert(records@.last()@ == all[i as int]);
            assert(record_texts(records@) =~= record_texts(records_before).push(
                records@.last()@,
            ));
            assert(record_texts(records@) =~= now);
            assert forall|p: int| 0 <= p < n implies counts@[p] == partition_count(now, p) as u64 by {
                partition_count_bounded(placed, p);
            }
            assert(counts@ =~= Seq::new(n as nat, |p: int| partition_count(now, p) as u64));
        }
        i += 1;
    }
    assert(all.take(i as int) =~= all);
    Ok(PartitionAssignmentSummary { partition_row_counts: counts, records })
}

} // verus!
