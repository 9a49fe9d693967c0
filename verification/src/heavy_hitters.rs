//! Which keys are so frequent that their rows have to be spread.

use vstd::prelude::*;
use crate::arith::{total, total_at_least, total_insert, total_prefix, total_remove, total_step, total_update};
use crate::binary64::{count_exceeds, exceeds_multiple, exponent_within, mean, mean_value, normal, Binary64, Magnitude, Scaled};
use crate::dataset::texts;
use crate::keymap::{as_map_at, holds_key, pairs_inserted, position_of, sorted_by_key, KeyMap};
use crate::manifest::HeavyKeyReason;
use crate::text::text_less;

verus! {

/// A key with the reasons why it is heavy.
#[derive(Debug, Clone, PartialEq, Eq)]
pub struct HeavyHitter {
    pub key: String,
    pub frequency: u64,
    pub detection_reasons: Vec<HeavyKeyReason>,
}

/// A heavy key, as text.
pub struct HeavyHitterText {
    pub key: Seq<char>,
    pub frequency: u64,
    pub reasons: Seq<HeavyKeyReason>,
}

impl View for HeavyHitter {
    type V = HeavyHitterText;

    open spec fn view(&self) -> HeavyHitterText {
        HeavyHitterText {
            key: self.key@,
            frequency: self.frequency,
            reasons: self.detection_reasons@,
        }
    }
}

/// The contents of a sequence of heavy keys.
pub open spec fn hitter_texts(hitters: Seq<HeavyHitter>) -> Seq<HeavyHitterText> {
    Seq::new(hitters.len(), |i: int| hitters[i]@)
}

/// The frequencies alone.
pub open spec fn pair_values(pairs: Seq<(Seq<char>, u64)>) -> Seq<u64> {
    Seq::new(pairs.len(), |i: int| pairs[i].1)
}

/// The sum of all frequencies.
pub open spec fn total_frequency(pairs: Seq<(Seq<char>, u64)>) -> nat {
    total(pair_values(pairs))
}

/// The mean frequency.
pub open spec fn mean_frequency_value(pairs: Seq<(Seq<char>, u64)>) -> Scaled {
    mean_value(total_frequency(pairs), pairs.len())
}

/// A key is above the mean threshold: its frequency exceeds `alpha` times the
/// mean frequency.
pub open spec fn above_mean(pairs: Seq<(Seq<char>, u64)>, alpha: Binary64, frequency: u64) -> bool {
    count_exceeds(frequency as nat, alpha, mean_frequency_value(pairs))
}

/// Why a key of a frequency is heavy, if it is.
pub open spec fn heavy_reasons(
    pairs: Seq<(Seq<char>, u64)>,
    alpha: Binary64,
    target_partition_rows: u64,
    frequency: u64,
) -> Seq<HeavyKeyReason> {
    let mean_part: Seq<HeavyKeyReason> = if above_mean(pairs, alpha, frequency) {
        seq![HeavyKeyReason::AboveMeanThreshold]
    } else {
        seq![]
    };
    if frequency > target_partition_rows {
        mean_part.push(HeavyKeyReason::ExceedsTargetPartitionRows)
    } else {
        mean_part
    }
}

/// A key as a candidate: heavy by the mean alone.
pub open spec fn candidate_of(
    pairs: Seq<(Seq<char>, u64)>,
    alpha: Binary64,
    pair: (Seq<char>, u64),
) -> Option<HeavyHitterText> {
    if above_mean(pairs, alpha, pair.1) {
        Some(
            HeavyHitterText {
                key: pair.0,
                frequency: pair.1,
                reasons: seq![HeavyKeyReason::AboveMeanThreshold],
            },
        )
    } else {
        None
    }
}

/// A key as a heavy key: by the mean, by the rows of a partition, or both.
pub open spec fn heavy_of(
    pairs: Seq<(Seq<char>, u64)>,
    alpha: Binary64,
    target_partition_rows: u64,
    pair: (Seq<char>, u64),
) -> Option<HeavyHitterText> {
    let reasons = heavy_reasons(pairs, alpha, target_partition_rows, pair.1);
    if reasons.len() > 0 {
        Some(HeavyHitterText { key: pair.0, frequency: pair.1, reasons })
    } else {
        None
    }
}

/// The candidates among the keys, in key order.
pub open spec fn candidates(pairs: Seq<(Seq<char>, u64)>, alpha: Binary64) -> Seq<HeavyHitterText> {
    pairs.filter_map(|pair: (Seq<char>, u64)| candidate_of(pairs, alpha, pair))
}

/// The heavy keys, in key order.
pub open spec fn heavy_keys_of(
    pairs: Seq<(Seq<char>, u64)>,
    alpha: Binary64,
    target_partition_rows: u64,
) -> Seq<HeavyHitterText> {
    pairs.filter_map(
        |pair: (Seq<char>, u64)| heavy_of(pairs, alpha, target_partition_rows, pair),
    )
}

/// Adds up the frequencies.
pub fn sum_frequencies(key_frequencies: &KeyMap<u64>) -> (sum: u64)
    requires
        total_frequency(key_frequencies.pairs()) <= u64::MAX,
    ensures
        sum == total_frequency(key_frequencies.pairs()),
{
    let ghost values = pair_values(key_frequencies.pairs());
    let mut sum: u64 = 0;
    let mut i: usize = 0;
    let count: usize = key_frequencies.len();
    while i < count
        invariant
            i <= count == key_frequencies.pairs().len(),
            values == pair_values(key_frequencies.pairs()),
            sum == total(values.take(i as int)),
            total(values) <= u64::MAX,
        decreases count - i,
    {
        proof {
            total_step(values, i as int);
            total_prefix(values, i + 1);
        }
        sum = sum + *key_frequencies.value_at(i);
        i += 1;
    }
    assert(values.take(i as int) =~= values);
    sum
}

/// The mean of the frequencies.
pub fn mean_of_frequencies(key_frequencies: &KeyMap<u64>) -> (m: Magnitude)
    requires
        total_frequency(key_frequencies.pairs()) <= u64::MAX,
    ensures
        m@ == mean_frequency_value(key_frequencies.pairs()),
        normal(m@),
        exponent_within(m@, 200),
{
    mean(sum_frequencies(key_frequencies), key_frequencies.len() as u64)
}

/// Finds the keys that are above the mean threshold.
pub fn detect_heavy_hitter_candidates(key_frequencies: &KeyMap<u64>, alpha: Binary64) -> (hitters: Vec<
    HeavyHitter,
>)
    requires
        total_frequency(key_frequencies.pairs()) <= u64::MAX,
    ensures
        hitter_texts(hitters@) == candidates(key_frequencies.pairs(), alpha),
{
    let ghost pairs = key_frequencies.pairs();
    let ghost f = |pair: (Seq<char>, u64)| candidate_of(pairs, alpha, pair);
    let mean_frequency = mean_of_frequencies(key_frequencies);
    let count: usize = key_frequencies.len();
    let mut hitters: Vec<HeavyHitter> = Vec::new();
    let mut i: usize = 0;
    proof {
        assert(pairs.take(0) =~= Seq::<(Seq<char>, u64)>::empty());
        reveal(Seq::filter_map);
        assert(hitter_texts(hitters@) =~= pairs.take(0).filter_map(f));
    }
    while i < count
        invariant
            i <= count == pairs.len(),
            pairs == key_frequencies.pairs(),
            f == (|pair: (Seq<char>, u64)| candidate_of(pairs, alpha, pair)),
            mean_frequency@ == mean_frequency_value(pairs),
            normal(mean_frequency@),
            exponent_within(mean_frequency@, 200),
            hitter_texts(hitters@) == pairs.take(i as int).filter_map(f),
        decreases count - i,
    {
        let frequency: u64 = *key_frequencies.value_at(i);
        let ghost before = hitters@;
        proof {
            pairs.lemma_filter_map_take_succ(f, i as int);
        }
        if exceeds_multiple(frequency, alpha, mean_frequency) {
            let mut reasons: Vec<HeavyKeyReason> = Vec::new();
            reasons.push(HeavyKeyReason::AboveMeanThreshold);
            assert(reasons@ =~= seq![HeavyKeyReason::AboveMeanThreshold]);
            hitters.push(
                HeavyHitter {
                    key: key_frequencies.key_at(i).clone(),
                    frequency,
                    detection_reasons: reasons,
                },
            );
            assert(f(pairs[i as int]) == Some(hitters@.last()@));
            assert(hitter_texts(hitters@) =~= hitter_texts(before).push(hitters@.last()@));
        } else {
            assert(f(pairs[i as int]) is None);
        }
        i += 1;
    }
    assert(pairs.take(i as int) =~= pairs);
    hitters
}

fn reasons_for(
    frequency: u64,
    alpha: Binary64,
    mean_frequency: Magnitude,
    target_partition_rows: u64,
    Ghost(pairs): Ghost<Seq<(Seq<char>, u64)>>,
) -> (reasons: Vec<HeavyKeyReason>)
    requires
        mean_frequency@ == mean_frequency_value(pairs),
        normal(mean_frequency@),
        exponent_within(mean_frequency@, 200),
    ensures
        reasons@ == heavy_reasons(pairs, alpha, target_partition_rows, frequency),
{
    let mut reasons: Vec<HeavyKeyReason> = Vec::new();
    if exceeds_multiple(frequency, alpha, mean_frequency) {
        reasons.push(HeavyKeyReason::AboveMeanThreshold);
    }
    assert(reasons@ =~= if above_mean(pairs, alpha, frequency) {
        seq![HeavyKeyReason::AboveMeanThreshold]
    } else {
        seq![]
    });
    if frequency > target_partition_rows {
        reasons.push(HeavyKeyReason::ExceedsTargetPartitionRows);
    }
    reasons
}

/// Finds the keys that are above the mean threshold or hold more rows than a
/// partition should.
pub fn detect_final_heavy_keys(
    key_frequencies: &KeyMap<u64>,
    alpha: Binary64,
    target_partition_rows: u64,
) -> (hitters: Vec<HeavyHitter>)
    requires
        total_frequency(key_frequencies.pairs()) <= u64::MAX,
    ensures
        hitter_texts(hitters@) == heavy_keys_of(
            key_frequencies.pairs(),
            alpha,
            target_partition_rows,
        ),
{
    let ghost pairs = key_frequencies.pairs();
    let ghost f = |pair: (Seq<char>, u64)| heavy_of(pairs, alpha, target_partition_rows, pair);
    let mean_frequency = mean_of_frequencies(key_frequencies);
    let count: usize = key_frequencies.len();
    let mut hitters: Vec<HeavyHitter> = Vec::new();
    let mut i: usize = 0;
    proof {
        assert(pairs.take(0) =~= Seq::<(Seq<char>, u64)>::empty());
        reveal(Seq::filter_map);
        assert(hitter_texts(hitters@) =~= pairs.take(0).filter_map(f));
    }
    while i < count
        invariant
            i <= count == pairs.len(),
            pairs == key_frequencies.pairs(),
            f == (|pair: (Seq<char>, u64)| heavy_of(pairs, alpha, target_partition_rows, pair)),
            mean_frequency@ == mean_frequency_value(pairs),
            normal(mean_frequency@),
            exponent_within(mean_frequency@, 200),
            hitter_texts(hitters@) == pairs.take(i as int).filter_map(f),
        decreases count - i,
    {
        let frequency: u64 = *key_frequencies.value_at(i);
        let ghost before = hitters@;
        proof {
            pairs.lemma_filter_map_take_succ(f, i as int);
        }
        let reasons = reasons_for(
            frequency,
            alpha,
            mean_frequency,
            target_partition_rows,
            Ghost(pairs),
        );
        if reasons.len() > 0 {
            hitters.push(
                HeavyHitter {
                    key: key_frequencies.key_at(i).clone(),
                    frequency,
                    detection_reasons: reasons,
                },
            );
            assert(f(pairs[i as int]) == Some(hitters@.last()@));
            assert(hitter_texts(hitters@) =~= hitter_texts(before).push(hitters@.last()@));
        } else {
            assert(f(pairs[i as int]) is None);
        }
        i += 1;
    }
    assert(pairs.take(i as int) =~= pairs);
    hitters
}

/// A bounded summary of key frequencies.
#[derive(Debug, Clone, PartialEq, Eq)]
pub struct SpaceSavingSummary {
    pub frequencies: KeyMap<u64>,
    pub max_error: u64,
}

/// A bounded summary, as a map.
pub struct SpaceSaving {
    pub counts: Map<Seq<char>, u64>,
    pub max_error: nat,
}

/// `k` has the lowest count, and is the first of those that have it.
pub open spec fn is_victim(counts: Map<Seq<char>, u64>, k: Seq<char>) -> bool {
    &&& counts.contains_key(k)
    &&& forall|j: Seq<char>| #[trigger]
        counts.contains_key(j) ==> counts[k] < counts[j] || (counts[k] == counts[j] && !text_less(
            j,
            k,
        ))
}

/// The key that gives way to a new one.
pub open spec fn victim(counts: Map<Seq<char>, u64>) -> Seq<char> {
    choose|k: Seq<char>| is_victim(counts, k)
}

/// The summary after one more key: a key that is held counts one more; a new key
/// starts at one while there is room; else it takes the place of the key with
/// the lowest count, and that count may be too much.
pub open spec fn space_saving_step(state: SpaceSaving, key: Seq<char>, capacity: nat) -> SpaceSaving {
    if state.counts.contains_key(key) {
        SpaceSaving {
            counts: state.counts.insert(key, (state.counts[key] + 1) as u64),
            max_error: state.max_error,
        }
    } else if state.counts.dom().len() < capacity {
        SpaceSaving { counts: state.counts.insert(key, 1), max_error: state.max_error }
    } else {
        let lowest = state.counts[victim(state.counts)];
        SpaceSaving {
            counts: state.counts.remove(victim(state.counts)).insert(key, (lowest + 1) as u64),
            max_error: if lowest > state.max_error {
                lowest as nat
            } else {
                state.max_error
            },
        }
    }
}

/// The summary of a sequence of keys.
pub open spec fn space_saving_of(keys: Seq<Seq<char>>, capacity: nat) -> SpaceSaving
    decreases keys.len(),
{
    if keys.len() == 0 {
        SpaceSaving { counts: Map::empty(), max_error: 0 }
    } else {
        space_saving_step(space_saving_of(keys.drop_last(), capacity), keys.last(), capacity)
    }
}

/// How often a key occurs.
pub open spec fn occurrences(keys: Seq<Seq<char>>, key: Seq<char>) -> nat
    decreases keys.len(),
{
    if keys.len() == 0 {
        0
    } else {
        occurrences(keys.drop_last(), key) + if keys.last() == key {
            1nat
        } else {
            0nat
        }
    }
}

/// Some key gives way to a new one.
pub proof fn victim_exists(counts: Map<Seq<char>, u64>)
    requires
        counts.dom().finite(),
        counts.dom().len() > 0,
    ensures
        is_victim(counts, victim(counts)),
    decreases counts.dom().len(),
{
    let a = counts.dom().choose();
    let rest = counts.remove(a);
    if rest.dom().len() == 0 {
        assert forall|j: Seq<char>| #[trigger] counts.contains_key(j) implies j == a by {
            if j != a {
                assert(rest.dom().contains(j));
            }
        }
        crate::text::text_less_irreflexive(a);
        assert(is_victim(counts, a));
    } else {
        victim_exists(rest);
        let v = victim(rest);
        assert(rest.contains_key(v));
        crate::text::text_less_irreflexive(a);
        crate::text::text_less_irreflexive(v);
        if counts[a] < counts[v] || (counts[a] == counts[v] && text_less(a, v)) {
            assert forall|j: Seq<char>| #[trigger] counts.contains_key(j) implies counts[a] < counts[j]
                || (counts[a] == counts[j] && !text_less(j, a)) by {
                if j != a {
                    assert(rest.contains_key(j));
                    if text_less(j, a) && counts[a] == counts[j] {
                        crate::text::text_less_transitive(j, a, v);
                    }
                }
            }
            assert(is_victim(counts, a));
        } else {
            crate::text::text_less_total(a, v);
            assert forall|j: Seq<char>| #[trigger] counts.contains_key(j) implies counts[v] < counts[j]
                || (counts[v] == counts[j] && !text_less(j, v)) by {
                if j != a {
                    assert(rest.contains_key(j));
                }
            }
            assert(is_victim(counts, v));
        }
    }
}

/// What holds of a summary of `keys`.
pub open spec fn summarises(keys: Seq<Seq<char>>, capacity: nat, state: SpaceSaving) -> bool {
    &&& state.counts.dom().finite()
    &&& state.counts.dom().len() <= capacity
    &&& forall|k: Seq<char>| #[trigger]
        state.counts.contains_key(k) ==> occurrences(keys, k) <= state.counts[k] <= occurrences(
            keys,
            k,
        ) + state.max_error
    &&& forall|k: Seq<char>|
        !(#[trigger] state.counts.contains_key(k)) ==> occurrences(keys, k) <= state.max_error
}

/// What holds of a summary while it is built.
spec fn summary_invariant(keys: Seq<Seq<char>>, capacity: nat, state: SpaceSaving) -> bool {
    &&& summarises(keys, capacity, state)
    &&& forall|k: Seq<char>| #[trigger] state.counts.contains_key(k) ==> state.counts[k] <= keys.len()
    &&& forall|k: Seq<char>, j: Seq<char>|
        !state.counts.contains_key(k) && state.counts.contains_key(j) ==> #[trigger] occurrences(
            keys,
            k,
        ) <= #[trigger] state.counts[j]
    &&& state.counts.dom().len() < capacity ==> forall|k: Seq<char>|
        !(#[trigger] state.counts.contains_key(k)) ==> occurrences(keys, k) == 0
}

proof fn summary_invariant_holds(keys: Seq<Seq<char>>, capacity: nat)
    requires
        capacity > 0,
        keys.len() < u64::MAX,
    ensures
        summary_invariant(keys, capacity, space_saving_of(keys, capacity)),
    decreases keys.len(),
{
    if keys.len() > 0 {
        let rest = keys.drop_last();
        let key = keys.last();
        summary_invariant_holds(rest, capacity);
        let state = space_saving_of(rest, capacity);
        let next = space_saving_of(keys, capacity);
        assert forall|k: Seq<char>| #[trigger] occurrences(keys, k) == occurrences(rest, k) + if k == key {
            1nat
        } else {
            0nat
        } by {}
        if state.counts.contains_key(key) {
            assert(next.counts.dom() =~= state.counts.dom());
        } else if state.counts.dom().len() < capacity {
        } else {
            victim_exists(state.counts);
            let v = victim(state.counts);
            assert(state.counts.contains_key(v));
            let lowest = state.counts[v];
            assert(occurrences(rest, key) <= lowest);
            assert forall|j: Seq<char>| #[trigger] state.counts.contains_key(j) implies lowest <= state.counts[j] by {}
            assert forall|k: Seq<char>, j: Seq<char>|
                !next.counts.contains_key(k) && next.counts.contains_key(j) implies #[trigger] occurrences(
                keys,
                k,
            ) <= #[trigger] next.counts[j] by {
                if k == v {
                    assert(occurrences(rest, k) <= lowest);
                } else {
                    assert(!state.counts.contains_key(k));
                    assert(occurrences(rest, k) <= state.counts[v]);
                }
                if j != key {
                    assert(state.counts.contains_key(j));
                }
            }
        }
    }
}

/// A summary holds no more keys than its capacity; the count of a key that it
/// holds is not below the key's occurrences and at most `max_error` above them;
/// a key that it does not hold occurs at most `max_error` times.
pub proof fn space_saving_guarantees(keys: Seq<Seq<char>>, capacity: nat)
    requires
        capacity > 0,
        keys.len() < u64::MAX,
    ensures
        summarises(keys, capacity, space_saving_of(keys, capacity)),
{
    summary_invariant_holds(keys, capacity);
}

/// The position of the key that gives way.
fn find_victim(frequencies: &KeyMap<u64>) -> (index: usize)
    requires
        frequencies.pairs().len() > 0,
    ensures
        index < frequencies.pairs().len(),
        frequencies.pairs()[index as int].0 == victim(frequencies@),
        frequencies.pairs()[index as int].1 == frequencies@[victim(frequencies@)],
        forall|j: int| 0 <= j < frequencies.pairs().len() ==> frequencies.pairs()[index as int].1
            <= #[trigger] frequencies.pairs()[j].1,
{
    let ghost p = frequencies.pairs();
    let count: usize = frequencies.len();
    let mut index: usize = 0;
    let mut lowest: u64 = *frequencies.value_at(0);
    let mut i: usize = 1;
    while i < count
        invariant
            1 <= i <= count == p.len(),
            p == frequencies.pairs(),
            index < i,
            lowest == p[index as int].1,
            forall|j: int| 0 <= j < index ==> lowest < #[trigger] p[j].1,
            forall|j: int| index <= j < i ==> lowest <= #[trigger] p[j].1,
        decreases count - i,
    {
        let value: u64 = *frequencies.value_at(i);
        if value < lowest {
            index = i;
            lowest = value;
        }
        i += 1;
    }
    proof {
        let k = p[index as int].0;
        as_map_at(p, index as int);
        assert forall|j: Seq<char>| #[trigger] frequencies@.contains_key(j) implies frequencies@[k]
            < frequencies@[j] || (frequencies@[k] == frequencies@[j] && !text_less(j, k)) by {
            let o = position_of(p, j);
            as_map_at(p, o);
            if o > index {
                crate::text::text_less_asymmetric(k, j);
            } else if o == index {
                crate::text::text_less_irreflexive(k);
            }
        }
        assert(is_victim(frequencies@, k));
        let v = victim(frequencies@);
        let o = position_of(p, v);
        as_map_at(p, o);
        if o < index {
            assert(frequencies@[v] > lowest);
            assert(frequencies@.contains_key(k));
        } else if o > index {
            assert(text_less(k, v));
            assert(frequencies@.contains_key(k));
        }
    }
    index
}

proof fn inserted_total(
    old_pairs: Seq<(Seq<char>, u64)>,
    key: Seq<char>,
    value: u64,
    new_pairs: Seq<(Seq<char>, u64)>,
)
    requires
        pairs_inserted(old_pairs, key, value, new_pairs),
    ensures
        holds_key(old_pairs, key) ==> total_frequency(new_pairs) == total_frequency(old_pairs)
            - old_pairs[position_of(old_pairs, key)].1 + value,
        !holds_key(old_pairs, key) ==> total_frequency(new_pairs) == total_frequency(old_pairs)
            + value,
{
    if holds_key(old_pairs, key) {
        let i = position_of(old_pairs, key);
        total_update(pair_values(old_pairs), i, value);
        assert(pair_values(new_pairs) =~= pair_values(old_pairs).update(i, value));
    } else {
        let i = choose|i: int|
            0 <= i <= old_pairs.len() && new_pairs == #[trigger] old_pairs.insert(i, (key, value));
        total_insert(pair_values(old_pairs), i, value);
        assert(pair_values(new_pairs) =~= pair_values(old_pairs).insert(i, value));
    }
}

/// Counts one more occurrence of a key.
pub fn count_key(frequencies: &mut KeyMap<u64>, key: String)
    requires
        old(frequencies)@.contains_key(key@) ==> old(frequencies)@[key@] < u64::MAX,
    ensures
        final(frequencies)@ == old(frequencies)@.insert(
            key@,
            if old(frequencies)@.contains_key(key@) {
                (old(frequencies)@[key@] + 1) as u64
            } else {
                1
            },
        ),
        total_frequency(final(frequencies).pairs()) == total_frequency(old(frequencies).pairs()) + 1,
{
    let count: u64 = match frequencies.get(&key) {
        Some(n) => *n + 1,
        None => 1,
    };
    let ghost p = frequencies.pairs();
    let length: usize = frequencies.len();
    let ghost k = key@;
    frequencies.insert(key, count);
    proof {
        inserted_total(p, k, count, frequencies.pairs());
        if holds_key(p, k) {
            as_map_at(p, position_of(p, k));
        }
    }
}

/// Summarises a sequence of keys in bounded space: at most `capacity` keys are
/// held, and the count of each is at most `max_error` above its occurrences.
pub fn space_saving(keys: &Vec<String>, capacity: usize) -> (summary: SpaceSavingSummary)
    requires
        capacity > 0,
    ensures
        summary.frequencies@ == space_saving_of(texts(keys@), capacity as nat).counts,
        summary.max_error == space_saving_of(texts(keys@), capacity as nat).max_error,
        summary.frequencies.pairs().len() <= capacity,
        total_frequency(summary.frequencies.pairs()) == keys@.len(),
        summary.max_error * capacity <= keys@.len(),
{
    let mut frequencies: KeyMap<u64> = KeyMap::new();
    let mut max_error: u64 = 0;
    let ghost all = texts(keys@);
    let mut i: usize = 0;
    proof {
        assert(pair_values(frequencies.pairs()) =~= Seq::<u64>::empty());
        assert(all.take(0) =~= Seq::<Seq<char>>::empty());
        assert(0 * capacity == 0) by (nonlinear_arith);
    }
    while i < keys.len()
        invariant
            i <= keys@.len(),
            capacity > 0,
            all == texts(keys@),
            frequencies@ == space_saving_of(all.take(i as int), capacity as nat).counts,
            max_error == space_saving_of(all.take(i as int), capacity as nat).max_error,
            frequencies.pairs().len() <= capacity,
            total_frequency(frequencies.pairs()) == i,
            max_error * capacity <= i,
            sorted_by_key(frequencies.pairs()),
        decreases keys.len() - i,
    {
        let ghost state = space_saving_of(all.take(i as int), capacity as nat);
        let ghost p = frequencies.pairs();
        let ghost k = keys@[i as int]@;
        proof {
            assert(all.take(i + 1).drop_last() =~= all.take(i as int));
            assert(all.take(i + 1).last() == k);
            crate::keymap::as_map_len(p);
        }
        let key = keys[i].clone();
        if frequencies.contains_key(&key) {
            proof {
                as_map_at(p, position_of(p, k));
                crate::arith::total_bounds(pair_values(p), position_of(p, k));
            }
            count_key(&mut frequencies, key);
            proof {
                crate::keymap::as_map_len(p);
            }
        } else if frequencies.len() < capacity {
            count_key(&mut frequencies, key);
        } else {
            let index: usize = find_victim(&frequencies);
            let lowest: u64 = *frequencies.value_at(index);
            proof {
                total_at_least(pair_values(p), lowest as int);
                crate::arith::total_bounds(pair_values(p), index as int);
                total_remove(pair_values(p), index as int);
            }
            let pair = frequencies.remove_at(index);
            let ghost q = frequencies.pairs();
            proof {
                assert(pair_values(q) =~= pair_values(p).remove(index as int));
            }
            let shrunk: usize = frequencies.len();
            frequencies.insert(key, lowest + 1);
            proof {
                inserted_total(q, k, (lowest + 1) as u64, frequencies.pairs());
                assert(!holds_key(q, k)) by {
                    if holds_key(q, k) {
                        as_map_at(q, position_of(q, k));
                        assert(as_map_contains(q, k));
                    }
                }
                assert(lowest * capacity <= i) by (nonlinear_arith)
                    requires
                        p.len() * lowest <= i,
                        p.len() == capacity,
                ;
            }
            if lowest > max_error {
                max_error = lowest;
            }
        }
        let length: usize = frequencies.len();
        proof {
            crate::keymap::as_map_len(frequencies.pairs());
        }
        i += 1;
    }
    assert(all.take(i as int) =~= all);
    SpaceSavingSummary { frequencies, max_error }
}

spec fn as_map_contains(p: Seq<(Seq<char>, u64)>, k: Seq<char>) -> bool {
    crate::keymap::as_map(p).contains_key(k)
}

} // verus!
