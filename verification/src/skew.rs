//! How uneven partition sizes are.

use vstd::prelude::*;
use crate::arith::{add_up, find_largest, largest, largest_bounds, total};
use crate::binary64::{
    count_value, distance, distance_value, divide, encoded, exponent_within, from_count, imbalance,
    max_mean_ratio, mean, mean_value, multiply, normal, pack, product, quotient, root_value,
    square_root, sum, sum_value, Binary64, Magnitude, Scaled,
};
use crate::manifest::SkewStats;
use crate::sorting::{ascending, sort_numbers};

verus! {

/// The squared distances of the sizes from their mean, added up in order.
pub open spec fn squares_value(sizes: Seq<u64>, mean: Scaled) -> Scaled
    decreases sizes.len(),
{
    if sizes.len() == 0 {
        Scaled { significand: 0, exponent: 0 }
    } else {
        let d = distance_value(count_value(sizes.last() as nat), mean);
        sum_value(squares_value(sizes.drop_last(), mean), product(d, d))
    }
}

/// The variance of the sizes.
pub open spec fn variance_value(sizes: Seq<u64>) -> Scaled {
    quotient(
        squares_value(sizes, mean_value(total(sizes), sizes.len())),
        count_value(sizes.len()),
    )
}

/// The standard deviation in terms of the mean; zero where the mean is zero.
pub open spec fn variation_value(sizes: Seq<u64>) -> Scaled {
    let mean = mean_value(total(sizes), sizes.len());
    if mean.significand == 0 {
        Scaled { significand: 0, exponent: 0 }
    } else {
        quotient(root_value(variance_value(sizes)), mean)
    }
}

/// Position of a percentile among `count` sorted sizes: `percent` of the way to
/// the last, rounded up.
pub open spec fn percentile_index(count: nat, percent: nat) -> int {
    ((count - 1) * percent + 99) / 100
}

/// The size at a percentile.
pub open spec fn percentile_value(sizes: Seq<u64>, percent: nat) -> u64 {
    sizes.sort_by(ascending())[percentile_index(sizes.len(), percent)]
}

/// The largest size in terms of the mean size.
pub open spec fn imbalance_value(sizes: Seq<u64>) -> Scaled {
    max_mean_ratio(largest(sizes) as nat, total(sizes), sizes.len())
}

/// `skew` says how uneven `sizes` are.
pub open spec fn is_skew(sizes: Seq<u64>, skew: SkewStats) -> bool {
    &&& skew.max_partition_size == largest(sizes)
    &&& skew.mean_partition_size.bits == encoded(mean_value(total(sizes), sizes.len()))
    &&& skew.max_mean_imbalance_ratio.bits == encoded(imbalance_value(sizes))
    &&& if sizes.len() == 0 {
        &&& skew.median_partition_size.bits == 0
        &&& skew.p95_partition_size.bits == 0
        &&& skew.partition_size_variance.bits == 0
        &&& skew.coefficient_of_variation.bits == 0
    } else {
        &&& skew.median_partition_size.bits == encoded(
            count_value(percentile_value(sizes, 50) as nat),
        )
        &&& skew.p95_partition_size.bits == encoded(count_value(percentile_value(sizes, 95) as nat))
        &&& skew.partition_size_variance.bits == encoded(variance_value(sizes))
        &&& skew.coefficient_of_variation.bits == encoded(variation_value(sizes))
    }
}

fn add_squares(sizes: &Vec<u64>, center: Magnitude) -> (squares: Magnitude)
    requires
        normal(center@),
        exponent_within(center@, 200),
    ensures
        squares@ == squares_value(sizes@, center@),
        normal(squares@),
        -700 <= squares.exponent <= 700 + sizes@.len(),
{
    let mut squares = Magnitude { significand: 0, exponent: 0 };
    let mut i: usize = 0;
    assert(sizes@.take(0) =~= Seq::<u64>::empty());
    while i < sizes.len()
        invariant
            i <= sizes@.len(),
            normal(center@),
            exponent_within(center@, 200),
            squares@ == squares_value(sizes@.take(i as int), center@),
            normal(squares@),
            -700 <= squares.exponent <= 700 + i,
        decreases sizes.len() - i,
    {
        let d = distance(from_count(sizes[i]), center);
        let square = multiply(d, d);
        proof {
            assert(sizes@.take(i + 1).drop_last() =~= sizes@.take(i as int));
        }
        squares = sum(squares, square);
        i += 1;
    }
    assert(sizes@.take(i as int) =~= sizes@);
    squares
}

fn percentile(sorted: &Vec<u64>, percent: u64) -> (value: u64)
    requires
        sorted@.len() > 0,
        percent <= 100,
    ensures
        value == sorted@[percentile_index(sorted@.len(), percent as nat)],
        0 <= percentile_index(sorted@.len(), percent as nat) < sorted@.len(),
{
    let last: u128 = (sorted.len() - 1) as u128;
    proof {
        assert(0 <= last * percent <= last * 100) by (nonlinear_arith)
            requires
                0 <= percent <= 100,
                0 <= last,
        ;
    }
    let index: u128 = (last * percent as u128 + 99) / 100;
    sorted[index as usize]
}

/// Measures how uneven partition sizes are.
pub fn skew_stats(partition_sizes: &Vec<u64>) -> (skew: SkewStats)
    requires
        total(partition_sizes@) <= u64::MAX,
    ensures
        is_skew(partition_sizes@, skew),
{
    let zero = Binary64 { bits: 0 };
    if partition_sizes.len() == 0 {
        return SkewStats {
            max_partition_size: 0,
            mean_partition_size: zero,
            median_partition_size: zero,
            p95_partition_size: zero,
            partition_size_variance: zero,
            coefficient_of_variation: zero,
            max_mean_imbalance_ratio: zero,
        };
    }
    let count: u64 = partition_sizes.len() as u64;
    let sorted = sort_numbers(partition_sizes);
    let max: u64 = find_largest(partition_sizes);
    let size_sum: u64 = add_up(partition_sizes);
    let center = mean(size_sum, count);
    let median: u64 = percentile(&sorted, 50);
    let p95: u64 = percentile(&sorted, 95);
    let squares = add_squares(partition_sizes, center);
    let variance = divide(squares, from_count(count));
    let variation = if center.significand > 0 {
        divide(square_root(variance), center)
    } else {
        Magnitude { significand: 0, exponent: 0 }
    };
    SkewStats {
        max_partition_size: max,
        mean_partition_size: pack(center),
        median_partition_size: pack(from_count(median)),
        p95_partition_size: pack(from_count(p95)),
        partition_size_variance: pack(variance),
        coefficient_of_variation: pack(variation),
        max_mean_imbalance_ratio: pack(imbalance(max, size_sum, count)),
    }
}

/// `value` is one of the numbers, and `behind` of them stand behind it when they are
/// sorted: no more than that are larger, and with it more than that are not smaller.
pub open spec fn stands_before(numbers: Seq<u64>, value: u64, behind: int) -> bool {
    &&& numbers.contains(value)
    &&& numbers.filter(|x: u64| x > value).len() <= behind
    &&& behind < numbers.filter(|x: u64| x >= value).len()
}

proof fn filter_permuted(a: Seq<u64>, b: Seq<u64>, keep: spec_fn(u64) -> bool)
    requires
        a.to_multiset() == b.to_multiset(),
    ensures
        a.filter(keep).len() == b.filter(keep).len(),
    decreases a.len(),
{
    broadcast use vstd::seq_lib::group_to_multiset_ensures;

    a.to_multiset_ensures();
    b.to_multiset_ensures();
    reveal(Seq::filter);
    if a.len() > 0 {
        let x = a.last();
        assert(a.contains(x)) by {
            assert(a[a.len() - 1] == x);
        }
        assert(a.to_multiset().count(x) > 0);
        assert(b.contains(x));
        let i = choose|i: int| 0 <= i < b.len() && b[i] == x;
        assert(a.drop_last() =~= a.remove(a.len() - 1));
        assert(a.drop_last().to_multiset() =~= b.remove(i).to_multiset());
        filter_permuted(a.drop_last(), b.remove(i), keep);
        filter_removed(b, i, keep);
    }
}

proof fn filter_removed(s: Seq<u64>, i: int, keep: spec_fn(u64) -> bool)
    requires
        0 <= i < s.len(),
    ensures
        s.filter(keep).len() == s.remove(i).filter(keep).len() + if keep(s[i]) {
            1nat
        } else {
            0nat
        },
    decreases s.len(),
{
    reveal(Seq::filter);
    let t = s.remove(i);
    if i == s.len() - 1 {
        assert(t =~= s.drop_last());
    } else {
        assert(t.drop_last() =~= s.drop_last().remove(i));
        assert(t.last() == s.last());
        filter_removed(s.drop_last(), i, keep);
    }
}

proof fn filter_leaves_out_first(s: Seq<u64>, keep: spec_fn(u64) -> bool, k: int)
    requires
        0 <= k <= s.len(),
        forall|i: int| 0 <= i < k ==> !keep(#[trigger] s[i]),
    ensures
        s.filter(keep).len() <= s.len() - k,
    decreases s.len(),
{
    reveal(Seq::filter);
    if s.len() > 0 {
        let rest = s.drop_last();
        if k < s.len() {
            filter_leaves_out_first(rest, keep, k);
        } else {
            assert(!keep(s[s.len() - 1]));
            filter_leaves_out_first(rest, keep, k - 1);
        }
    }
}

proof fn filter_keeps_last(s: Seq<u64>, keep: spec_fn(u64) -> bool, k: int)
    requires
        0 <= k <= s.len(),
        forall|i: int| k <= i < s.len() ==> keep(#[trigger] s[i]),
    ensures
        s.filter(keep).len() >= s.len() - k,
    decreases s.len(),
{
    reveal(Seq::filter);
    if k < s.len() {
        assert(keep(s[s.len() - 1]));
        filter_keeps_last(s.drop_last(), keep, k);
    }
}

proof fn sorted_position(sizes: Seq<u64>, k: int)
    requires
        0 <= k < sizes.len(),
    ensures
        sizes.sort_by(ascending()).len() == sizes.len(),
        stands_before(sizes, sizes.sort_by(ascending())[k], sizes.len() - 1 - k),
        forall|i: int, j: int|
            0 <= i <= j < sizes.len() ==> #[trigger] sizes.sort_by(ascending())[i]
                <= #[trigger] sizes.sort_by(ascending())[j],
        sizes.contains(sizes.sort_by(ascending())[k]),
{
    broadcast use vstd::seq_lib::group_to_multiset_ensures;

    let leq = ascending();
    let sorted = sizes.sort_by(leq);
    assert(vstd::relations::total_ordering(leq));
    sizes.lemma_sort_by_ensures(leq);
    sizes.to_multiset_ensures();
    sorted.to_multiset_ensures();
    let v = sorted[k];
    assert(sorted.contains(v));
    assert(sizes.to_multiset().count(v) > 0);
    let above = |x: u64| x > v;
    let at_least = |x: u64| x >= v;
    assert forall|i: int, j: int| 0 <= i <= j < sizes.len() implies #[trigger] sorted[i]
        <= #[trigger] sorted[j] by {
        if i < j {
            assert(leq(sorted[i], sorted[j]));
        }
    }
    assert forall|i: int| 0 <= i < k + 1 implies !above(#[trigger] sorted[i]) by {
        assert(sorted[i] <= sorted[k]);
    }
    assert forall|i: int| k <= i < sorted.len() implies at_least(#[trigger] sorted[i]) by {
        assert(sorted[k] <= sorted[i]);
    }
    filter_leaves_out_first(sorted, above, k + 1);
    filter_keeps_last(sorted, at_least, k);
    filter_permuted(sorted, sizes, above);
    filter_permuted(sorted, sizes, at_least);
}

/// Of the sorted sizes, half stand behind the median, and a twentieth behind the 95th
/// percentile, counted without the one that stands there and rounded down. Neither is
/// above the largest size, which is one of the sizes and not below any.
pub proof fn percentiles_leave_their_share_behind(sizes: Seq<u64>, skew: SkewStats)
    requires
        is_skew(sizes, skew),
        sizes.len() > 0,
    ensures
        exists|median: u64, p95: u64|
            {
                &&& #[trigger] stands_before(sizes, median, (sizes.len() - 1) / 2)
                &&& #[trigger] stands_before(sizes, p95, (sizes.len() - 1) * 5 / 100)
                &&& skew.median_partition_size.bits == encoded(count_value(median as nat))
                &&& skew.p95_partition_size.bits == encoded(count_value(p95 as nat))
                &&& median <= p95 <= skew.max_partition_size
            },
        forall|i: int| 0 <= i < sizes.len() ==> #[trigger] sizes[i] <= skew.max_partition_size,
        sizes.contains(skew.max_partition_size),
{
    let n = sizes.len() - 1;
    let m = percentile_index(sizes.len(), 50);
    let p = percentile_index(sizes.len(), 95);
    let median = percentile_value(sizes, 50);
    let p95 = percentile_value(sizes, 95);
    assert(n - m == n / 2 && n - p == n * 5 / 100 && 0 <= m <= p <= n);
    sorted_position(sizes, m);
    sorted_position(sizes, p);
    largest_bounds(sizes);
    let i = choose|i: int| 0 <= i < sizes.len() && sizes[i] == p95;
    assert(sizes[i] <= largest(sizes));
    assert(stands_before(sizes, median, (sizes.len() - 1) / 2));
    assert(stands_before(sizes, p95, (sizes.len() - 1) * 5 / 100));
}

} // verus!
