//! Which partition each key goes to: keys by load or by hash, heavy keys salt by
//! salt.

use vstd::prelude::*;
use crate::arith::{ceil_div, ceil_div_spec, total};
use crate::config::NormalKeyAssignment;
use crate::hashing::{hash_key, hashed_partition, key_hash, partition_id};
use crate::binary64::{exceeds_multiple, Binary64};
use crate::heavy_hitters::{
    heavy_of, mean_frequency_value, mean_of_frequencies, pair_values, total_frequency,
    HeavyHitterText,
};
use crate::keymap::KeyMap;
use crate::manifest::{normal_plan_texts, NormalKeyPlan, NormalKeyPlanText, SaltPartitionPlan};
use crate::sorting::{mapped_multisets, ranked_le, sort_ranked};
use crate::text::{decimal, push_decimal, text_less};

verus! {

/// The text whose hash ranks a candidate partition for a key or for one salt of
/// a heavy key.
pub open spec fn candidate_text(key: Seq<char>, salt: Option<usize>, candidate: int) -> Seq<char> {
    match salt {
        None => key + "|candidate="@ + decimal(candidate as nat),
        Some(s) => key + "|salt="@ + decimal(s as nat) + "|candidate="@ + decimal(candidate as nat),
    }
}

/// The rank of a candidate partition among those with the same load.
pub open spec fn candidate_rank(key: Seq<char>, salt: Option<usize>, candidate: int, seed: u64) -> u64 {
    key_hash(seed, candidate_text(key, salt, candidate))
}

/// Candidate `a` is taken before candidate `b`: by load, then by rank, then by
/// number.
pub open spec fn taken_before(
    loads: Seq<nat>,
    key: Seq<char>,
    salt: Option<usize>,
    seed: u64,
    a: int,
    b: int,
) -> bool {
    let ra = candidate_rank(key, salt, a, seed);
    let rb = candidate_rank(key, salt, b, seed);
    loads[a] < loads[b] || (loads[a] == loads[b] && (ra < rb || (ra == rb && a < b)))
}

/// Candidate `c` is taken before all others.
pub open spec fn is_least_loaded(
    loads: Seq<nat>,
    key: Seq<char>,
    salt: Option<usize>,
    seed: u64,
    c: int,
) -> bool {
    &&& 0 <= c < loads.len()
    &&& forall|d: int|
        0 <= d < loads.len() && d != c ==> #[trigger] taken_before(loads, key, salt, seed, c, d)
}

/// The least loaded partition; the first where there is none.
pub open spec fn least_loaded_partition(
    loads: Seq<nat>,
    key: Seq<char>,
    salt: Option<usize>,
    seed: u64,
) -> int {
    if loads.len() == 0 {
        0
    } else {
        choose|c: int| is_least_loaded(loads, key, salt, seed, c)
    }
}

/// Loads as numbers without bound.
pub open spec fn load_values(loads: Seq<u64>) -> Seq<nat> {
    Seq::new(loads.len(), |p: int| loads[p] as nat)
}

/// The load of one partition grows.
pub open spec fn with_load(loads: Seq<nat>, p: int, load: nat) -> Seq<nat> {
    if 0 <= p < loads.len() {
        loads.update(p, loads[p] + load)
    } else {
        loads
    }
}

/// Partitions that were chosen, with the loads that follow.
pub struct Placement {
    pub loads: Seq<nat>,
    pub partitions: Seq<usize>,
}

/// The partition of a key that is not heavy.
pub open spec fn normal_partition(
    key: Seq<char>,
    mode: NormalKeyAssignment,
    loads: Seq<nat>,
    seed: u64,
) -> usize {
    match mode {
        NormalKeyAssignment::Hash => hashed_partition(key, loads.len() as usize, seed),
        NormalKeyAssignment::LoadAware => least_loaded_partition(loads, key, None, seed) as usize,
    }
}

/// No load on any partition.
pub open spec fn no_loads(n: usize) -> Seq<nat> {
    Seq::new(n as nat, |p: int| 0nat)
}

/// Keys placed one after the other.
pub open spec fn place_normals(
    keys: Seq<(Seq<char>, u64)>,
    mode: NormalKeyAssignment,
    n: usize,
    seed: u64,
) -> Placement
    decreases keys.len(),
{
    if keys.len() == 0 {
        Placement { loads: no_loads(n), partitions: Seq::empty() }
    } else {
        let before = place_normals(keys.drop_last(), mode, n, seed);
        let p = normal_partition(keys.last().0, mode, before.loads, seed);
        Placement {
            loads: with_load(before.loads, p as int, keys.last().1 as nat),
            partitions: before.partitions.push(p),
        }
    }
}

/// The number of salts of a heavy key: its frequency in terms of the rows that a
/// partition should hold, rounded up, at least one.
pub open spec fn salts_of(frequency: u64, target_partition_rows: u64) -> usize {
    let rows = if target_partition_rows > 1 {
        target_partition_rows as int
    } else {
        1
    };
    let count = ceil_div_spec(frequency as int, rows);
    (if count > 1 {
        count
    } else {
        1
    }) as usize
}

/// The rows that one salt of a heavy key takes: an even share.
pub open spec fn salt_share(frequency: u64, salt_count: usize, salt: int) -> nat {
    if salt_count == 0 {
        frequency as nat
    } else {
        (frequency as nat) / (salt_count as nat) + if salt < (frequency as nat) % (
        salt_count as nat) {
            1nat
        } else {
            0nat
        }
    }
}

/// The first salts of a heavy key placed one after the other.
pub open spec fn place_salts(
    loads: Seq<nat>,
    key: Seq<char>,
    frequency: u64,
    salt_count: usize,
    salts: nat,
    seed: u64,
) -> Placement
    decreases salts,
{
    if salts == 0 {
        Placement { loads, partitions: Seq::empty() }
    } else {
        let before = place_salts(loads, key, frequency, salt_count, (salts - 1) as nat, seed);
        let salt = (salts - 1) as usize;
        let p = least_loaded_partition(before.loads, key, Some(salt), seed) as usize;
        Placement {
            loads: with_load(before.loads, p as int, salt_share(frequency, salt_count, salt as int)),
            partitions: before.partitions.push(p),
        }
    }
}

/// All salts of a heavy key.
pub open spec fn place_heavy(
    loads: Seq<nat>,
    heavy: HeavyHitterText,
    target_partition_rows: u64,
    seed: u64,
) -> Placement {
    let count = salts_of(heavy.frequency, target_partition_rows);
    place_salts(loads, heavy.key, heavy.frequency, count, count as nat, seed)
}

/// The loads after heavy keys were placed one after the other.
pub open spec fn heavy_loads(
    loads: Seq<nat>,
    heavies: Seq<HeavyHitterText>,
    target_partition_rows: u64,
    seed: u64,
) -> Seq<nat>
    decreases heavies.len(),
{
    if heavies.len() == 0 {
        loads
    } else {
        place_heavy(
            heavy_loads(loads, heavies.drop_last(), target_partition_rows, seed),
            heavies.last(),
            target_partition_rows,
            seed,
        ).loads
    }
}

/// The partitions of the salts of heavy key `j`.
pub open spec fn heavy_salt_partitions(
    loads: Seq<nat>,
    heavies: Seq<HeavyHitterText>,
    target_partition_rows: u64,
    seed: u64,
    j: int,
) -> Seq<usize> {
    place_heavy(
        heavy_loads(loads, heavies.take(j), target_partition_rows, seed),
        heavies[j],
        target_partition_rows,
        seed,
    ).partitions
}

/// Order in which keys are placed: the more frequent first, then by key.
pub open spec fn placement_order() -> spec_fn((Seq<char>, u64), (Seq<char>, u64)) -> bool {
    |a: (Seq<char>, u64), b: (Seq<char>, u64)|
        a.1 > b.1 || (a.1 == b.1 && (a.0 == b.0 || text_less(a.0, b.0)))
}

/// The keys that are not heavy, in the order in which they are placed.
pub open spec fn normal_keys_in_order(
    pairs: Seq<(Seq<char>, u64)>,
    alpha: Binary64,
    target_partition_rows: u64,
) -> Seq<(Seq<char>, u64)> {
    pairs.filter(
        |pair: (Seq<char>, u64)| heavy_of(pairs, alpha, target_partition_rows, pair) is None,
    ).sort_by(placement_order())
}

/// There is one least loaded partition.
pub proof fn least_loaded_is(
    loads: Seq<nat>,
    key: Seq<char>,
    salt: Option<usize>,
    seed: u64,
    c: int,
)
    requires
        is_least_loaded(loads, key, salt, seed, c),
    ensures
        least_loaded_partition(loads, key, salt, seed) == c,
{
    let d = choose|d: int| is_least_loaded(loads, key, salt, seed, d);
    if d != c {
        assert(taken_before(loads, key, salt, seed, c, d));
        assert(taken_before(loads, key, salt, seed, d, c));
    }
}

fn rank_of(key: &str, salt: Option<usize>, candidate: usize, seed: u64) -> (rank: u64)
    ensures
        rank == candidate_rank(key@, salt, candidate as int, seed),
{
    let mut text = key.to_owned();
    if let Some(s) = salt {
        text.append("|salt=");
        push_decimal(&mut text, s as u128);
    }
    text.append("|candidate=");
    push_decimal(&mut text, candidate as u128);
    assert(text@ =~= candidate_text(key@, salt, candidate as int));
    hash_key(seed, &text)
}

/// Finds the least loaded partition for a key or for one salt of a heavy key.
pub fn least_loaded(loads: &Vec<u64>, key: &str, salt: Option<usize>, seed: u64) -> (partition: usize)
    ensures
        partition == least_loaded_partition(load_values(loads@), key@, salt, seed),
        loads@.len() > 0 ==> partition < loads@.len(),
{
    if loads.len() == 0 {
        return 0;
    }
    let ghost values = load_values(loads@);
    let mut best: usize = 0;
    let mut best_rank: u64 = rank_of(key, salt, 0, seed);
    let mut c: usize = 1;
    while c < loads.len()
        invariant
            values == load_values(loads@),
            1 <= c <= loads@.len(),
            best < c,
            best_rank == candidate_rank(key@, salt, best as int, seed),
            forall|d: int|
                0 <= d < c && d != best ==> #[trigger] taken_before(
                    values,
                    key@,
                    salt,
                    seed,
                    best as int,
                    d,
                ),
        decreases loads.len() - c,
    {
        let rank: u64 = rank_of(key, salt, c, seed);
        if loads[c] < loads[best] || (loads[c] == loads[best] && rank < best_rank) {
            proof {
                assert(taken_before(values, key@, salt, seed, c as int, best as int));
                assert forall|d: int| 0 <= d < c + 1 && d != c implies #[trigger] taken_before(
                    values,
                    key@,
                    salt,
                    seed,
                    c as int,
                    d,
                ) by {
                    if d != best {
                        assert(taken_before(values, key@, salt, seed, best as int, d));
                    }
                }
            }
            best = c;
            best_rank = rank;
        } else {
            assert(taken_before(values, key@, salt, seed, best as int, c as int));
        }
        c += 1;
    }
    proof {
        assert(is_least_loaded(values, key@, salt, seed, best as int));
        least_loaded_is(values, key@, salt, seed, best as int);
    }
    best
}

/// The number of salts of a heavy key.
pub fn salt_count(frequency: u64, target_partition_rows: u64) -> (count: usize)
    ensures
        count == salts_of(frequency, target_partition_rows),
{
    let rows: u64 = if target_partition_rows > 1 { target_partition_rows } else { 1 };
    let count: u64 = ceil_div(frequency, rows);
    let at_least_one: u64 = if count > 1 { count } else { 1 };
    #[verifier::truncate] (at_least_one as usize)
}

/// The rows that one salt takes.
pub fn estimated_salt_load(frequency: u64, salt_count: usize, salt_index: usize) -> (load: u64)
    ensures
        load == salt_share(frequency, salt_count, salt_index as int),
{
    if salt_count == 0 {
        return frequency;
    }
    let base: u64 = frequency / salt_count as u64;
    let remainder: u64 = frequency % salt_count as u64;
    if (salt_index as u64) < remainder {
        proof {
            assert(base < u64::MAX) by (nonlinear_arith)
                requires
                    base == frequency as int / salt_count as int,
                    remainder == frequency as int % salt_count as int,
                    remainder > 0,
                    salt_count > 0,
                    frequency <= u64::MAX,
            ;
        }
        base + 1
    } else {
        base
    }
}

/// The order in which keys are placed is a total order.
pub proof fn placement_order_total()
    ensures
        vstd::relations::total_ordering(placement_order()),
{
    let leq = placement_order();
    assert forall|a: (Seq<char>, u64), b: (Seq<char>, u64)| #[trigger] leq(a, b) && #[trigger] leq(b, a) implies a
        == b by {
        if a.0 != b.0 {
            crate::text::text_less_asymmetric(a.0, b.0);
        }
    }
    assert forall|a: (Seq<char>, u64), b: (Seq<char>, u64), c: (Seq<char>, u64)| #[trigger]
        leq(a, b) && #[trigger] leq(b, c) implies leq(a, c) by {
        if a.1 == b.1 && b.1 == c.1 && a.0 != b.0 && b.0 != c.0 {
            crate::text::text_less_transitive(a.0, b.0, c.0);
        }
    }
    assert forall|a: (Seq<char>, u64), b: (Seq<char>, u64)| #[trigger] leq(a, b) || #[trigger] leq(b, a) by {
        if a.1 == b.1 && a.0 != b.0 {
            crate::text::text_less_total(a.0, b.0);
        }
    }
    assert(vstd::relations::total_ordering(leq));
}

/// The keys at some positions.
pub open spec fn pairs_at(pairs: Seq<(Seq<char>, u64)>, positions: Seq<usize>) -> Seq<
    (Seq<char>, u64),
> {
    Seq::new(positions.len(), |k: int| pairs[positions[k] as int])
}

/// The positions of the keys that are not heavy.
fn normal_positions(frequencies: &KeyMap<u64>, alpha: Binary64, target_partition_rows: u64) -> (positions: Vec<
    usize,
>)
    requires
        total_frequency(frequencies.pairs()) <= u64::MAX,
    ensures
        pairs_at(frequencies.pairs(), positions@) == frequencies.pairs().filter(
            |pair: (Seq<char>, u64)|
                heavy_of(frequencies.pairs(), alpha, target_partition_rows, pair) is None,
        ),
        forall|k: int| 0 <= k < positions@.len() ==> #[trigger] positions@[k] < frequencies.pairs().len(),
        forall|j: int, k: int|
            0 <= j < k < positions@.len() ==> #[trigger] positions@[j] < #[trigger] positions@[k],
{
    let ghost pairs = frequencies.pairs();
    let ghost keep = |pair: (Seq<char>, u64)|
        heavy_of(pairs, alpha, target_partition_rows, pair) is None;
    let mean = mean_of_frequencies(frequencies);
    let count: usize = frequencies.len();
    let mut positions: Vec<usize> = Vec::new();
    let mut i: usize = 0;
    proof {
        reveal(Seq::filter);
        assert(pairs.take(0) =~= Seq::<(Seq<char>, u64)>::empty());
        assert(pairs_at(pairs, positions@) =~= pairs.take(0).filter(keep));
    }
    while i < count
        invariant
            i <= count == pairs.len(),
            pairs == frequencies.pairs(),
            keep == (|pair: (Seq<char>, u64)|
                heavy_of(pairs, alpha, target_partition_rows, pair) is None),
            mean@ == mean_frequency_value(pairs),
            crate::binary64::normal(mean@),
            crate::binary64::exponent_within(mean@, 200),
            pairs_at(pairs, positions@) == pairs.take(i as int).filter(keep),
            forall|k: int| 0 <= k < positions@.len() ==> #[trigger] positions@[k] < i,
            forall|j: int, k: int|
                0 <= j < k < positions@.len() ==> #[trigger] positions@[j] < #[trigger] positions@[k],
        decreases count - i,
    {
        let frequency: u64 = *frequencies.value_at(i);
        let ghost before = positions@;
        proof {
            assert(pairs.take(i + 1) =~= pairs.take(i as int).push(pairs[i as int]));
            pairs.take(i as int).lemma_filter_push(pairs[i as int], keep);
        }
        if !exceeds_multiple(frequency, alpha, mean) && frequency <= target_partition_rows {
            assert(keep(pairs[i as int]));
            positions.push(i);
            assert(pairs_at(pairs, positions@) =~= pairs_at(pairs, before).push(pairs[i as int]));
        } else {
            assert(!keep(pairs[i as int]));
        }
        i += 1;
    }
    assert(pairs.take(i as int) =~= pairs);
    positions
}

/// The positions of the keys that are not heavy, in the order in which they are
/// placed.
pub fn order_normal_keys(frequencies: &KeyMap<u64>, alpha: Binary64, target_partition_rows: u64) -> (order: Vec<
    usize,
>)
    requires
        total_frequency(frequencies.pairs()) <= u64::MAX,
    ensures
        pairs_at(frequencies.pairs(), order@) == normal_keys_in_order(
            frequencies.pairs(),
            alpha,
            target_partition_rows,
        ),
        forall|k: int| 0 <= k < order@.len() ==> #[trigger] order@[k] < frequencies.pairs().len(),
{
    let ghost pairs = frequencies.pairs();
    let positions = normal_positions(frequencies, alpha, target_partition_rows);
    let ghost normals = pairs_at(pairs, positions@);
    let length: usize = frequencies.len();
    let mut items: Vec<(u64, usize)> = Vec::new();
    let mut i: usize = 0;
    while i < positions.len()
        invariant
            pairs == frequencies.pairs(),
            normals == pairs_at(pairs, positions@),
            forall|k: int| 0 <= k < positions@.len() ==> #[trigger] positions@[k] < pairs.len(),
            i <= positions@.len(),
            items@.len() == i,
            forall|k: int|
                0 <= k < i ==> #[trigger] items@[k] == ((u64::MAX - normals[k].1) as u64, k as usize),
        decreases positions.len() - i,
    {
        let frequency: u64 = *frequencies.value_at(positions[i]);
        items.push((u64::MAX - frequency, i));
        i += 1;
    }
    let ranked = sort_ranked(&items);
    proof {
        broadcast use vstd::seq_lib::group_to_multiset_ensures;

        assert forall|k: int| 0 <= k < ranked@.len() implies (#[trigger] ranked@[k]).1 < normals.len()
            && ranked@[k].0 == u64::MAX - normals[ranked@[k].1 as int].1 by {
            assert(ranked@.to_multiset().count(ranked@[k]) > 0) by {
                assert(ranked@.contains(ranked@[k]));
            }
            assert(items@.contains(ranked@[k]));
        }
    }
    let mut order: Vec<usize> = Vec::new();
    let mut j: usize = 0;
    while j < ranked.len()
        invariant
            pairs == frequencies.pairs(),
            normals == pairs_at(pairs, positions@),
            forall|k: int| 0 <= k < positions@.len() ==> #[trigger] positions@[k] < pairs.len(),
            forall|k: int| 0 <= k < ranked@.len() ==> (#[trigger] ranked@[k]).1 < normals.len(),
            j <= ranked@.len(),
            order@.len() == j,
            forall|k: int| 0 <= k < j ==> #[trigger] order@[k] == positions@[ranked@[k].1 as int],
        decreases ranked.len() - j,
    {
        order.push(positions[ranked[j].1]);
        j += 1;
    }
    proof {
        let g = |item: (u64, usize)| normals[item.1 as int];
        let result = pairs_at(pairs, order@);
        mapped_multisets(ranked@, items@, g);
        assert(result =~= ranked@.map_values(g));
        assert(normals =~= items@.map_values(g));
        let leq = placement_order();
        placement_order_total();
        normals.lemma_sort_by_ensures(leq);
        assert forall|a: int, b: int| 0 <= a < b < result.len() implies #[trigger] leq(
            result[a],
            result[b],
        ) by {
            assert(ranked_le(ranked@[a], ranked@[b]));
            let x = ranked@[a].1;
            let y = ranked@[b].1;
            if x < y && normals[x as int].1 == normals[y as int].1 {
                assert(positions@[x as int] < positions@[y as int]);
                assert(text_less(pairs[positions@[x as int] as int].0, pairs[positions@[y as int] as int].0));
            }
        }
        vstd::seq_lib::lemma_sorted_unique(result, normals.sort_by(leq), leq);
    }
    order
}

/// The sum of loads.
pub open spec fn load_total(loads: Seq<nat>) -> nat
    decreases loads.len(),
{
    if loads.len() == 0 {
        0
    } else {
        load_total(loads.drop_last()) + loads.last()
    }
}

/// The sum grows with one load.
pub proof fn load_total_update(loads: Seq<nat>, p: int, load: nat)
    requires
        0 <= p < loads.len(),
    ensures
        load_total(with_load(loads, p, load)) == load_total(loads) + load,
    decreases loads.len(),
{
    let more = with_load(loads, p, load);
    if p == loads.len() - 1 {
        assert(more.drop_last() =~= loads.drop_last());
    } else {
        assert(more.drop_last() =~= with_load(loads.drop_last(), p, load));
        load_total_update(loads.drop_last(), p, load);
    }
}

proof fn load_total_bounds(loads: Seq<nat>, p: int)
    requires
        0 <= p < loads.len(),
    ensures
        loads[p] <= load_total(loads),
    decreases loads.len(),
{
    if p < loads.len() - 1 {
        load_total_bounds(loads.drop_last(), p);
    }
}

pub proof fn load_total_values(loads: Seq<u64>)
    ensures
        load_total(load_values(loads)) == total(loads),
    decreases loads.len(),
{
    if loads.len() > 0 {
        assert(load_values(loads).drop_last() =~= load_values(loads.drop_last()));
        load_total_values(loads.drop_last());
    }
}

proof fn no_loads_total(n: usize)
    ensures
        load_total(no_loads(n)) == 0,
{
    zero_total(no_loads(n));
}

proof fn zero_total(loads: Seq<nat>)
    requires
        forall|p: int| 0 <= p < loads.len() ==> loads[p] == 0,
    ensures
        load_total(loads) == 0,
    decreases loads.len(),
{
    if loads.len() > 0 {
        zero_total(loads.drop_last());
    }
}

proof fn least_among(
    loads: Seq<nat>,
    key: Seq<char>,
    salt: Option<usize>,
    seed: u64,
    m: int,
) -> (best: int)
    requires
        0 < m <= loads.len(),
    ensures
        0 <= best < m,
        forall|d: int|
            0 <= d < m && d != best ==> #[trigger] taken_before(loads, key, salt, seed, best, d),
    decreases m,
{
    if m == 1 {
        0
    } else {
        let b = least_among(loads, key, salt, seed, m - 1);
        let c = m - 1;
        if taken_before(loads, key, salt, seed, b, c) {
            b
        } else {
            assert(taken_before(loads, key, salt, seed, c, b));
            assert forall|d: int| 0 <= d < m && d != c implies #[trigger] taken_before(
                loads,
                key,
                salt,
                seed,
                c,
                d,
            ) by {
                if d != b {
                    assert(taken_before(loads, key, salt, seed, b, d));
                }
            }
            c
        }
    }
}

/// The least loaded partition is one of the partitions.
pub proof fn least_loaded_in_range(
    loads: Seq<nat>,
    key: Seq<char>,
    salt: Option<usize>,
    seed: u64,
)
    requires
        loads.len() > 0,
    ensures
        is_least_loaded(
            loads,
            key,
            salt,
            seed,
            least_loaded_partition(loads, key, salt, seed),
        ),
{
    let best = least_among(loads, key, salt, seed, loads.len() as int);
    assert(is_least_loaded(loads, key, salt, seed, best));
    least_loaded_is(loads, key, salt, seed, best);
}

/// The partitions of keys that are not heavy are among the partitions, and the
/// loads add up to the frequencies of the keys.
pub proof fn normals_placed(
    keys: Seq<(Seq<char>, u64)>,
    mode: NormalKeyAssignment,
    n: usize,
    seed: u64,
)
    requires
        n > 0,
    ensures
        place_normals(keys, mode, n, seed).loads.len() == n,
        place_normals(keys, mode, n, seed).partitions.len() == keys.len(),
        forall|k: int|
            0 <= k < keys.len() ==> #[trigger] place_normals(keys, mode, n, seed).partitions[k] < n,
        load_total(place_normals(keys, mode, n, seed).loads) == total_frequency(keys),
    decreases keys.len(),
{
    if keys.len() == 0 {
        no_loads_total(n);
        assert(pair_values(keys) =~= Seq::<u64>::empty());
    } else {
        let rest = keys.drop_last();
        normals_placed(rest, mode, n, seed);
        let before = place_normals(rest, mode, n, seed);
        least_loaded_in_range(before.loads, keys.last().0, None, seed);
        let p = normal_partition(keys.last().0, mode, before.loads, seed);
        load_total_update(before.loads, p as int, keys.last().1 as nat);
        assert(pair_values(keys).drop_last() =~= pair_values(rest));
    }
}

/// What the first salts of a heavy key take together.
pub open spec fn salt_sum(frequency: u64, salt_count: usize, salts: nat) -> nat
    decreases salts,
{
    if salts == 0 {
        0
    } else {
        salt_sum(frequency, salt_count, (salts - 1) as nat) + salt_share(
            frequency,
            salt_count,
            salts - 1,
        )
    }
}

proof fn salt_sum_formula(frequency: u64, salt_count: usize, salts: nat)
    requires
        salt_count > 0,
        salts <= salt_count,
    ensures
        salt_sum(frequency, salt_count, salts) == salts * (frequency as nat / salt_count as nat) + if salts
            < frequency as nat % salt_count as nat {
            salts
        } else {
            frequency as nat % salt_count as nat
        },
    decreases salts,
{
    let q = frequency as nat / salt_count as nat;
    if salts > 0 {
        salt_sum_formula(frequency, salt_count, (salts - 1) as nat);
        assert((salts - 1) * q + q == salts * q) by (nonlinear_arith)
            requires
                salts >= 1,
        ;
    } else {
        assert(0 * q == 0) by (nonlinear_arith);
    }
}

/// The shares of the salts of a heavy key add up to its frequency, and no two
/// shares differ by more than one.
pub proof fn salt_shares_add_up(frequency: u64, salt_count: usize)
    requires
        salt_count > 0,
    ensures
        salt_sum(frequency, salt_count, salt_count as nat) == frequency,
        forall|s: int, t: int|
            0 <= s < salt_count && 0 <= t < salt_count ==> #[trigger] salt_share(
                frequency,
                salt_count,
                s,
            ) <= #[trigger] salt_share(frequency, salt_count, t) + 1,
{
    salt_sum_formula(frequency, salt_count, salt_count as nat);
    vstd::arithmetic::div_mod::lemma_fundamental_div_mod(frequency as int, salt_count as int);
}

proof fn salt_sum_partial(frequency: u64, salt_count: usize, salts: nat)
    requires
        salts <= salt_count,
    ensures
        salt_sum(frequency, salt_count, salts) <= frequency,
{
    if salt_count > 0 {
        salt_sum_grows(frequency, salt_count, salts, salt_count as nat);
        salt_shares_add_up(frequency, salt_count);
    }
}

proof fn salt_sum_grows(frequency: u64, salt_count: usize, salts: nat, more: nat)
    requires
        salts <= more,
    ensures
        salt_sum(frequency, salt_count, salts) <= salt_sum(frequency, salt_count, more),
    decreases more,
{
    if salts < more {
        salt_sum_grows(frequency, salt_count, salts, (more - 1) as nat);
    }
}

/// The partitions of salts are among the partitions, and the loads grow by the
/// shares of the salts.
pub proof fn salts_placed(
    loads: Seq<nat>,
    key: Seq<char>,
    frequency: u64,
    salt_count: usize,
    salts: nat,
    seed: u64,
)
    requires
        0 < loads.len() <= usize::MAX,
        salts <= salt_count,
    ensures
        place_salts(loads, key, frequency, salt_count, salts, seed).loads.len() == loads.len(),
        place_salts(loads, key, frequency, salt_count, salts, seed).partitions.len() == salts,
        forall|s: int|
            0 <= s < salts ==> #[trigger] place_salts(
                loads,
                key,
                frequency,
                salt_count,
                salts,
                seed,
            ).partitions[s] < loads.len(),
        load_total(place_salts(loads, key, frequency, salt_count, salts, seed).loads) == load_total(
            loads,
        ) + salt_sum(frequency, salt_count, salts),
    decreases salts,
{
    if salts > 0 {
        salts_placed(loads, key, frequency, salt_count, (salts - 1) as nat, seed);
        let before = place_salts(loads, key, frequency, salt_count, (salts - 1) as nat, seed);
        let salt = (salts - 1) as usize;
        least_loaded_in_range(before.loads, key, Some(salt), seed);
        let p = least_loaded_partition(before.loads, key, Some(salt), seed);
        load_total_update(before.loads, p, salt_share(frequency, salt_count, salt as int));
    }
}

/// The sum of the frequencies of heavy keys.
pub open spec fn hitter_total(heavies: Seq<HeavyHitterText>) -> nat
    decreases heavies.len(),
{
    if heavies.len() == 0 {
        0
    } else {
        hitter_total(heavies.drop_last()) + heavies.last().frequency as nat
    }
}

/// The sum grows with the list.
pub proof fn hitter_total_prefix(heavies: Seq<HeavyHitterText>, i: int)
    requires
        0 <= i <= heavies.len(),
    ensures
        hitter_total(heavies.take(i)) <= hitter_total(heavies),
    decreases heavies.len() - i,
{
    if i < heavies.len() {
        hitter_total_prefix(heavies, i + 1);
        assert(heavies.take(i + 1).drop_last() =~= heavies.take(i));
    } else {
        assert(heavies.take(i) =~= heavies);
    }
}

/// No frequency is above the sum.
pub proof fn hitter_bounded(heavies: Seq<HeavyHitterText>, j: int)
    requires
        0 <= j < heavies.len(),
    ensures
        heavies[j].frequency <= hitter_total(heavies),
    decreases heavies.len(),
{
    if j < heavies.len() - 1 {
        hitter_bounded(heavies.drop_last(), j);
    }
}

/// A heavy key has a salt at least.
pub proof fn salts_positive(frequency: u64, target_partition_rows: u64)
    requires
        frequency <= usize::MAX,
    ensures
        salts_of(frequency, target_partition_rows) > 0,
{
    let f = frequency as int;
    let r = if target_partition_rows > 1 { target_partition_rows as int } else { 1 };
    assert((f + r - 1) / r <= f || f == 0) by (nonlinear_arith)
        requires
            f >= 0,
            r >= 1,
    ;
    assert(f == 0 ==> (f + r - 1) / r == 0) by (nonlinear_arith)
        requires
            r >= 1,
    ;
}

/// The loads after heavy keys were placed grow by at most their frequencies, and
/// by exactly these where each of them has a salt.
pub proof fn heavies_placed(
    loads: Seq<nat>,
    heavies: Seq<HeavyHitterText>,
    target_partition_rows: u64,
    seed: u64,
)
    requires
        0 < loads.len() <= usize::MAX,
    ensures
        heavy_loads(loads, heavies, target_partition_rows, seed).len() == loads.len(),
        load_total(heavy_loads(loads, heavies, target_partition_rows, seed)) <= load_total(loads)
            + hitter_total(heavies),
        (forall|j: int|
            0 <= j < heavies.len() ==> salts_of(
                #[trigger] heavies[j].frequency,
                target_partition_rows,
            ) > 0) ==> load_total(heavy_loads(loads, heavies, target_partition_rows, seed))
            == load_total(loads) + hitter_total(heavies),
    decreases heavies.len(),
{
    if heavies.len() > 0 {
        let rest = heavies.drop_last();
        let heavy = heavies.last();
        heavies_placed(loads, rest, target_partition_rows, seed);
        let before = heavy_loads(loads, rest, target_partition_rows, seed);
        let count = salts_of(heavy.frequency, target_partition_rows);
        salts_placed(before, heavy.key, heavy.frequency, count, count as nat, seed);
        salt_sum_partial(heavy.frequency, count, count as nat);
        if forall|j: int|
            0 <= j < heavies.len() ==> salts_of(
                #[trigger] heavies[j].frequency,
                target_partition_rows,
            ) > 0 {
            assert(heavies[heavies.len() - 1].frequency == heavy.frequency);
            assert forall|j: int| 0 <= j < rest.len() implies salts_of(
                #[trigger] rest[j].frequency,
                target_partition_rows,
            ) > 0 by {
                assert(heavies[j].frequency == rest[j].frequency);
            }
            salt_shares_add_up(heavy.frequency, count);
        }
    }
}

/// Keys that are not heavy with their partitions.
pub open spec fn normal_plans(keys: Seq<(Seq<char>, u64)>, partitions: Seq<usize>) -> Seq<
    NormalKeyPlanText,
> {
    Seq::new(
        keys.len(),
        |k: int|
            NormalKeyPlanText {
                key: keys[k].0,
                estimated_frequency: keys[k].1,
                partition_id: partitions[k],
            },
    )
}

/// The salts of a heavy key with their partitions.
pub open spec fn salt_plans(partitions: Seq<usize>) -> Seq<SaltPartitionPlan> {
    Seq::new(
        partitions.len(),
        |s: int| SaltPartitionPlan { salt_index: s as usize, partition_id: partitions[s] },
    )
}

/// Places keys one after the other.
pub fn place_normal_keys(
    frequencies: &KeyMap<u64>,
    order: &Vec<usize>,
    mode: NormalKeyAssignment,
    loads: &mut Vec<u64>,
    seed: u64,
) -> (plans: Vec<NormalKeyPlan>)
    requires
        forall|k: int| 0 <= k < order@.len() ==> #[trigger] order@[k] < frequencies.pairs().len(),
        total_frequency(pairs_at(frequencies.pairs(), order@)) <= u64::MAX,
        old(loads)@.len() > 0,
        load_values(old(loads)@) == no_loads(old(loads)@.len() as usize),
    ensures
        ({
            let keys = pairs_at(frequencies.pairs(), order@);
            let placed = place_normals(keys, mode, old(loads)@.len() as usize, seed);
            &&& normal_plan_texts(plans@) == normal_plans(keys, placed.partitions)
            &&& load_values(final(loads)@) == placed.loads
        }),
{
    let n: usize = loads.len();
    let ghost keys = pairs_at(frequencies.pairs(), order@);
    let mut plans: Vec<NormalKeyPlan> = Vec::new();
    let mut i: usize = 0;
    assert(keys.take(0) =~= Seq::<(Seq<char>, u64)>::empty());
    while i < order.len()
        invariant
            n > 0,
            loads@.len() == n,
            keys == pairs_at(frequencies.pairs(), order@),
            forall|k: int| 0 <= k < order@.len() ==> #[trigger] order@[k] < frequencies.pairs().len(),
            total_frequency(keys) <= u64::MAX,
            i <= order@.len(),
            load_values(loads@) == place_normals(keys.take(i as int), mode, n, seed).loads,
            plans@.len() == i,
            place_normals(keys.take(i as int), mode, n, seed).partitions.len() == i,
            forall|j: int|
                0 <= j < i ==> #[trigger] plans@[j]@ == (NormalKeyPlanText {
                    key: keys[j].0,
                    estimated_frequency: keys[j].1,
                    partition_id: place_normals(keys.take(i as int), mode, n, seed).partitions[j],
                }),
        decreases order.len() - i,
    {
        let ghost done = keys.take(i as int);
        let ghost more = keys.take(i + 1);
        let ghost before = place_normals(done, mode, n, seed);
        let position: usize = order[i];
        let key = frequencies.key_at(position);
        let frequency: u64 = *frequencies.value_at(position);
        let id: usize = match mode {
            NormalKeyAssignment::Hash => partition_id(key, n, seed),
            NormalKeyAssignment::LoadAware => least_loaded(loads, key, None, seed),
        };
        proof {
            assert(more.drop_last() =~= done);
            assert(more.last() == keys[i as int]);
            assert(id == normal_partition(keys[i as int].0, mode, before.loads, seed));
            normals_placed(done, mode, n, seed);
            normals_placed(more, mode, n, seed);
            load_total_bounds(before.loads, id as int);
            assert(pair_values(more) =~= pair_values(keys).take(i + 1));
            assert(pair_values(more).drop_last() =~= pair_values(done));
            crate::arith::total_prefix(pair_values(keys), i + 1);
            assert(load_values(loads@)[id as int] == loads@[id as int]);
        }
        let ghost earlier = loads@;
        loads.set(id, loads[id] + frequency);
        plans.push(
            NormalKeyPlan { key: key.clone(), estimated_frequency: frequency, partition_id: id },
        );
        proof {
            assert(load_values(loads@) =~= with_load(before.loads, id as int, frequency as nat));
        }
        i += 1;
    }
    assert(keys.take(i as int) =~= keys);
    assert(normal_plan_texts(plans@) =~= normal_plans(
        keys,
        place_normals(keys, mode, n, seed).partitions,
    ));
    plans
}

/// Places the salts of a heavy key one after the other.
pub fn place_heavy_key(
    key: &str,
    frequency: u64,
    salt_count: usize,
    loads: &mut Vec<u64>,
    seed: u64,
) -> (plans: Vec<SaltPartitionPlan>)
    requires
        old(loads)@.len() > 0,
        load_total(load_values(old(loads)@)) + frequency <= u64::MAX,
    ensures
        ({
            let placed = place_salts(
                load_values(old(loads)@),
                key@,
                frequency,
                salt_count,
                salt_count as nat,
                seed,
            );
            &&& plans@ == salt_plans(placed.partitions)
            &&& load_values(final(loads)@) == placed.loads
        }),
{
    let ghost start = load_values(loads@);
    let ghost n = loads@.len();
    let mut plans: Vec<SaltPartitionPlan> = Vec::new();
    let mut s: usize = 0;
    assert(loads@.len() == loads.len());
    while s < salt_count
        invariant
            0 < start.len() <= usize::MAX,
            loads@.len() == start.len(),
            load_total(start) + frequency <= u64::MAX,
            s <= salt_count,
            load_values(loads@) == place_salts(
                start,
                key@,
                frequency,
                salt_count,
                s as nat,
                seed,
            ).loads,
            plans@ == salt_plans(
                place_salts(start, key@, frequency, salt_count, s as nat, seed).partitions,
            ),
        decreases salt_count - s,
    {
        let ghost before = place_salts(start, key@, frequency, salt_count, s as nat, seed);
        let ghost earlier = plans@;
        let id: usize = least_loaded(loads, key, Some(s), seed);
        let load: u64 = estimated_salt_load(frequency, salt_count, s);
        proof {
            salts_placed(start, key@, frequency, salt_count, s as nat, seed);
            salts_placed(start, key@, frequency, salt_count, (s + 1) as nat, seed);
            salt_sum_partial(frequency, salt_count, (s + 1) as nat);
            load_total_bounds(before.loads, id as int);
            assert(load_values(loads@)[id as int] == loads@[id as int]);
        }
        loads.set(id, loads[id] + load);
        plans.push(SaltPartitionPlan { salt_index: s, partition_id: id });
        proof {
            assert(load_values(loads@) =~= with_load(before.loads, id as int, load as nat));
            let after = place_salts(start, key@, frequency, salt_count, (s + 1) as nat, seed);
            assert(after.partitions == before.partitions.push(id));
            assert(plans@ =~= salt_plans(after.partitions));
        }
        s += 1;
    }
    plans
}

/// Numbers in another order have the same sum.
pub proof fn total_permuted(a: Seq<u64>, b: Seq<u64>)
    requires
        a.to_multiset() == b.to_multiset(),
    ensures
        total(a) == total(b),
    decreases a.len(),
{
    broadcast use vstd::seq_lib::group_to_multiset_ensures;

    a.to_multiset_ensures();
    b.to_multiset_ensures();
    if a.len() > 0 {
        let x = a.last();
        assert(a.contains(x)) by {
            assert(a[a.len() - 1] == x);
        }
        assert(a.to_multiset().count(x) > 0);
        assert(b.contains(x));
        let i = choose|i: int| 0 <= i < b.len() && b[i] == x;
        assert(a.drop_last() =~= a.remove(a.len() - 1));
        assert(a.drop_last().to_multiset() =~= b.remove(i).to_multiset());
        total_permuted(a.drop_last(), b.remove(i));
        crate::arith::total_remove(b, i);
    }
}

/// The keys that are not heavy keep their sum when they are put in order.
pub proof fn ordered_total(
    pairs: Seq<(Seq<char>, u64)>,
    alpha: Binary64,
    target_partition_rows: u64,
)
    ensures
        total_frequency(normal_keys_in_order(pairs, alpha, target_partition_rows))
            == total_frequency(
            pairs.filter(
                |pair: (Seq<char>, u64)|
                    heavy_of(pairs, alpha, target_partition_rows, pair) is None,
            ),
        ),
{
    let normals = pairs.filter(
        |pair: (Seq<char>, u64)| heavy_of(pairs, alpha, target_partition_rows, pair) is None,
    );
    let ordered = normals.sort_by(placement_order());
    placement_order_total();
    normals.lemma_sort_by_ensures(placement_order());
    let f = |pair: (Seq<char>, u64)| pair.1;
    mapped_multisets(ordered, normals, f);
    assert(pair_values(ordered) =~= ordered.map_values(f));
    assert(pair_values(normals) =~= normals.map_values(f));
    total_permuted(pair_values(ordered), pair_values(normals));
}

proof fn split_total(
    all: Seq<(Seq<char>, u64)>,
    pairs: Seq<(Seq<char>, u64)>,
    alpha: Binary64,
    rows: u64,
)
    ensures
        total_frequency(pairs) == total_frequency(
            pairs.filter(|pair: (Seq<char>, u64)| heavy_of(all, alpha, rows, pair) is None),
        ) + hitter_total(
            pairs.filter_map(|pair: (Seq<char>, u64)| heavy_of(all, alpha, rows, pair)),
        ),
    decreases pairs.len(),
{
    reveal(Seq::filter);
    reveal(Seq::filter_map);
    let keep = |pair: (Seq<char>, u64)| heavy_of(all, alpha, rows, pair) is None;
    let f = |pair: (Seq<char>, u64)| heavy_of(all, alpha, rows, pair);
    if pairs.len() == 0 {
        assert(pair_values(pairs) =~= Seq::<u64>::empty());
        assert(pair_values(pairs.filter(keep)) =~= Seq::<u64>::empty());
    } else {
        let rest = pairs.drop_last();
        let last = pairs.last();
        split_total(all, rest, alpha, rows);
        assert(pair_values(pairs).drop_last() =~= pair_values(rest));
        assert(pairs =~= rest.push(last));
        rest.lemma_filter_push(last, keep);
        let normals = rest.filter(keep);
        if keep(last) {
            assert(pair_values(normals.push(last)).drop_last() =~= pair_values(normals));
        } else {
            let heavies = rest.filter_map(f);
            assert(pairs.take(rest.len() as int) =~= rest);
            pairs.lemma_filter_map_take_succ(f, rest.len() as int);
            assert(pairs.take(rest.len() as int + 1) =~= pairs);
            assert(pairs.filter_map(f) =~= heavies.push(f(last)->0));
            assert(heavies.push(f(last)->0).drop_last() =~= heavies);
        }
        if keep(last) {
            assert(pairs.take(rest.len() as int) =~= rest);
            pairs.lemma_filter_map_take_succ(f, rest.len() as int);
            assert(pairs.take(rest.len() as int + 1) =~= pairs);
        }
    }
}

/// Each key is either heavy or not: the frequencies of the keys that are not and
/// of those that are add up to the frequencies of all.
pub proof fn frequencies_split(
    pairs: Seq<(Seq<char>, u64)>,
    alpha: Binary64,
    target_partition_rows: u64,
)
    ensures
        total_frequency(pairs) == total_frequency(
            normal_keys_in_order(pairs, alpha, target_partition_rows),
        ) + hitter_total(
            crate::heavy_hitters::heavy_keys_of(pairs, alpha, target_partition_rows),
        ),
{
    split_total(pairs, pairs, alpha, target_partition_rows);
    ordered_total(pairs, alpha, target_partition_rows);
}

/// The keys to place by load or hash are the keys that are not heavy.
pub proof fn normal_keys_listed(
    pairs: Seq<(Seq<char>, u64)>,
    alpha: Binary64,
    target_partition_rows: u64,
    pair: (Seq<char>, u64),
)
    ensures
        normal_keys_in_order(pairs, alpha, target_partition_rows).contains(pair)
            <==> pairs.contains(pair) && heavy_of(pairs, alpha, target_partition_rows, pair) is None,
{
    let keep = |pair: (Seq<char>, u64)|
        heavy_of(pairs, alpha, target_partition_rows, pair) is None;
    let normals = pairs.filter(keep);
    let ordered = normals.sort_by(placement_order());
    placement_order_total();
    normals.lemma_sort_by_ensures(placement_order());
    broadcast use vstd::seq_lib::group_filter_ensures;
    ordered.to_multiset_ensures();
    normals.to_multiset_ensures();
    if ordered.contains(pair) {
        assert(ordered.to_multiset().count(pair) > 0);
        assert(normals.contains(pair));
        pairs.lemma_filter_contains_rev(keep, pair);
        let m = choose|m: int| 0 <= m < normals.len() && normals[m] == pair;
        assert(keep(normals[m]));
    }
    if pairs.contains(pair) && keep(pair) {
        let i = choose|i: int| 0 <= i < pairs.len() && pairs[i] == pair;
        assert(normals.contains(pairs[i]));
        assert(normals.to_multiset().count(pair) > 0);
    }
}

pub proof fn filter_map_listed<A, B>(s: Seq<A>, f: spec_fn(A) -> Option<B>, b: B)
    ensures
        s.filter_map(f).contains(b) <==> exists|i: int| 0 <= i < s.len() && #[trigger] f(s[i]) == Some(b),
    decreases s.len(),
{
    reveal(Seq::filter_map);
    if s.len() > 0 {
        let n = s.len() - 1;
        let rest = s.take(n);
        filter_map_listed(rest, f, b);
        s.lemma_filter_map_take_succ(f, n);
        assert(s.take(n + 1) =~= s);
        let before = rest.filter_map(f);
        let after = s.filter_map(f);
        if exists|i: int| 0 <= i < rest.len() && #[trigger] f(rest[i]) == Some(b) {
            let i = choose|i: int| 0 <= i < rest.len() && #[trigger] f(rest[i]) == Some(b);
            assert(f(s[i]) == Some(b));
            let k = choose|k: int| 0 <= k < before.len() && before[k] == b;
            assert(after[k] == b);
        }
        if f(s[n]) == Some(b) {
            assert(after.last() == b);
            assert(after[after.len() - 1] == b);
        }
        if after.contains(b) {
            let k = choose|k: int| 0 <= k < after.len() && after[k] == b;
            if k < before.len() {
                assert(before[k] == b);
                let i = choose|i: int| 0 <= i < rest.len() && #[trigger] f(rest[i]) == Some(b);
                assert(f(s[i]) == Some(b));
            } else {
                assert(f(s[n]) == Some(b));
            }
        }
        if exists|i: int| 0 <= i < s.len() && #[trigger] f(s[i]) == Some(b) {
            let i = choose|i: int| 0 <= i < s.len() && #[trigger] f(s[i]) == Some(b);
            if i < n {
                assert(f(rest[i]) == Some(b));
            }
        }
    }
}

/// The heavy keys are the keys that are heavy.
pub proof fn heavy_keys_listed(
    pairs: Seq<(Seq<char>, u64)>,
    alpha: Binary64,
    target_partition_rows: u64,
    heavy: HeavyHitterText,
)
    ensures
        crate::heavy_hitters::heavy_keys_of(pairs, alpha, target_partition_rows).contains(heavy)
            <==> exists|i: int|
            0 <= i < pairs.len() && heavy_of(
                pairs,
                alpha,
                target_partition_rows,
                #[trigger] pairs[i],
            ) == Some(heavy),
{
    let f = |pair: (Seq<char>, u64)| heavy_of(pairs, alpha, target_partition_rows, pair);
    filter_map_listed(pairs, f, heavy);
    if exists|i: int|
        0 <= i < pairs.len() && heavy_of(pairs, alpha, target_partition_rows, #[trigger] pairs[i])
            == Some(heavy) {
        let i = choose|i: int|
            0 <= i < pairs.len() && heavy_of(
                pairs,
                alpha,
                target_partition_rows,
                #[trigger] pairs[i],
            ) == Some(heavy);
        assert(f(pairs[i]) == Some(heavy));
    }
    if exists|i: int| 0 <= i < pairs.len() && #[trigger] f(pairs[i]) == Some(heavy) {
        let i = choose|i: int| 0 <= i < pairs.len() && #[trigger] f(pairs[i]) == Some(heavy);
        assert(heavy_of(pairs, alpha, target_partition_rows, pairs[i]) == Some(heavy));
    }
}

} // verus!
