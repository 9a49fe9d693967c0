//! Arithmetic on numbers of double precision, held against the machine's own.

use repartitioner::binary64::{
    distance, divide, exceeds_multiple, from_count, greater, imbalance, less, mean, multiply, pack,
    square_root, sum, Binary64,
};
use repartitioner::skew::skew_stats;

const COUNTS: [u64; 14] = [
    1,
    2,
    3,
    7,
    10,
    97,
    1_000,
    4_097,
    1_000_003,
    9_007_199_254_740_991,
    9_007_199_254_740_993,
    9_007_199_254_740_995,
    12_345_678_901_234_567_890,
    u64::MAX,
];

fn number(value: Binary64) -> f64 {
    f64::from_bits(value.to_bits())
}

fn binary(value: f64) -> Binary64 {
    Binary64::from_bits(value.to_bits())
}

#[test]
fn counts_are_rounded_like_casts() {
    for a in COUNTS {
        assert_eq!(number(pack(from_count(a))), a as f64);
    }
    assert_eq!(number(pack(from_count(0))), 0.0);
}

#[test]
fn operations_agree_with_the_machine() {
    for a in COUNTS {
        for b in COUNTS {
            let x = a as f64;
            let y = b as f64;
            let p = from_count(a);
            let q = from_count(b);
            assert_eq!(number(pack(divide(p, q))), x / y);
            assert_eq!(number(pack(multiply(p, q))), x * y);
            assert_eq!(number(pack(sum(p, q))), x + y);
            assert_eq!(number(pack(distance(p, q))), (x - y).abs());
            assert_eq!(less(p, q), x < y);
            let thirds = divide(p, from_count(3));
            assert_eq!(number(pack(sum(thirds, q))), x / 3.0 + y);
            assert_eq!(number(pack(distance(thirds, q))), (x / 3.0 - y).abs());
        }
    }
}

#[test]
fn square_roots_agree_with_the_machine() {
    for a in COUNTS {
        assert_eq!(number(pack(square_root(from_count(a)))), (a as f64).sqrt());
        let third = divide(from_count(a), from_count(3));
        assert_eq!(number(pack(square_root(third))), (a as f64 / 3.0).sqrt());
    }
    assert_eq!(number(pack(square_root(from_count(0)))), 0.0);
}

#[test]
fn means_and_ratios_agree_with_the_machine() {
    for a in COUNTS {
        for n in [1u64, 3, 4, 128, 999] {
            assert_eq!(number(pack(mean(a, n))), a as f64 / n as f64);
            assert_eq!(
                number(pack(imbalance(a / 2, a, n))),
                (a / 2) as f64 / (a as f64 / n as f64)
            );
        }
    }
    assert_eq!(number(pack(mean(5, 0))), 0.0);
    assert_eq!(number(pack(imbalance(5, 0, 3))), 0.0);
}

#[test]
fn comparisons_agree_with_the_machine() {
    let values = [
        0.0,
        -0.0,
        1.0,
        -1.0,
        1.2,
        2.5,
        f64::MIN_POSITIVE,
        5e-324,
        f64::MAX,
        f64::INFINITY,
        f64::NEG_INFINITY,
        f64::NAN,
    ];
    for x in values {
        assert_eq!(binary(x).is_finite(), x.is_finite());
        assert_eq!(binary(x).is_positive(), x.is_finite() && x > 0.0);
        for y in values {
            assert_eq!(greater(binary(x), binary(y)), x > y);
        }
    }
}

#[test]
fn thresholds_agree_with_the_machine() {
    let factors = [0.0, -0.0, 0.1, 1.0, 2.0, 2.5, -3.0, 1e300, 5e-324, f64::INFINITY, f64::NAN];
    for factor in factors {
        for n in [0u64, 1, 2, 5, 20, 1_000_000] {
            for (total, count) in [(0u64, 4u64), (26, 4), (7, 3), (10_000, 4)] {
                let base = total as f64 / count as f64;
                assert_eq!(
                    exceeds_multiple(n, binary(factor), mean(total, count)),
                    n as f64 > factor * base
                );
            }
        }
    }
}

#[test]
fn skew_agrees_with_the_machine() {
    let cases: [&[u64]; 6] = [
        &[3, 1, 4, 1, 5],
        &[2, 2, 2, 2],
        &[0, 0],
        &[7],
        &[1_000_003, 17, 999_983, 4, 65_537, 2],
        &[10, 0, 0, 1],
    ];
    for sizes in cases {
        let skew = skew_stats(&sizes.to_vec());
        let n = sizes.len() as f64;
        let mean = sizes.iter().sum::<u64>() as f64 / n;
        let mut sorted = sizes.to_vec();
        sorted.sort();
        let at = |share: f64| sorted[((sorted.len() - 1) as f64 * share).ceil() as usize] as f64;
        let variance = sizes
            .iter()
            .map(|size| {
                let d = *size as f64 - mean;
                d * d
            })
            .sum::<f64>()
            / n;
        assert_eq!(skew.max_partition_size, *sorted.last().expect("there are sizes"));
        assert_eq!(number(skew.mean_partition_size), mean);
        assert_eq!(number(skew.median_partition_size), at(0.5));
        assert_eq!(number(skew.p95_partition_size), at(0.95));
        assert_eq!(number(skew.partition_size_variance), variance);
        let variation = if mean == 0.0 { 0.0 } else { variance.sqrt() / mean };
        assert_eq!(number(skew.coefficient_of_variation), variation);
        let ratio = if mean == 0.0 { 0.0 } else { *sorted.last().expect("there are sizes") as f64 / mean };
        assert_eq!(number(skew.max_mean_imbalance_ratio), ratio);
    }
    assert_eq!(skew_stats(&Vec::new()).max_partition_size, 0);
}
