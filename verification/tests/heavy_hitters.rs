//! Detection of heavy keys.

use repartitioner::binary64::Binary64;
use repartitioner::heavy_hitters::{
    detect_final_heavy_keys, detect_heavy_hitter_candidates, space_saving, HeavyHitter,
};
use repartitioner::keymap::KeyMap;
use repartitioner::manifest::HeavyKeyReason;

fn frequencies(pairs: Vec<(String, u64)>) -> KeyMap<u64> {
    let mut map = KeyMap::new();
    for (key, frequency) in pairs {
        map.insert(key, frequency);
    }
    map
}

fn alpha(value: f64) -> Binary64 {
    Binary64::from_bits(value.to_bits())
}

#[test]
fn detects_frequent_key_in_synthetic_skew() {
    let counted = frequencies(vec![
        ("user_id=heavy".to_string(), 20),
        ("user_id=a".to_string(), 2),
        ("user_id=b".to_string(), 2),
        ("user_id=c".to_string(), 2),
    ]);

    let hitters = detect_heavy_hitter_candidates(&counted, alpha(2.0));

    assert_eq!(
        hitters,
        vec![HeavyHitter {
            key: "user_id=heavy".to_string(),
            frequency: 20,
            detection_reasons: vec![HeavyKeyReason::AboveMeanThreshold],
        }]
    );
}

#[test]
fn ignores_uniform_distribution() {
    let counted = frequencies(vec![
        ("user_id=a".to_string(), 5),
        ("user_id=b".to_string(), 5),
        ("user_id=c".to_string(), 5),
    ]);

    let hitters = detect_heavy_hitter_candidates(&counted, alpha(2.0));

    assert!(hitters.is_empty());
}

#[test]
fn detects_final_heavy_keys_that_only_exceed_target_partition_rows() {
    let counted = frequencies(vec![
        ("user_id=a".to_string(), 2500),
        ("user_id=b".to_string(), 2500),
        ("user_id=c".to_string(), 2500),
        ("user_id=d".to_string(), 2500),
    ]);

    let hitters = detect_final_heavy_keys(&counted, alpha(2.0), 100);

    assert_eq!(hitters.len(), 4);
    assert!(hitters.iter().all(
        |heavy| heavy.detection_reasons == vec![HeavyKeyReason::ExceedsTargetPartitionRows]
    ));
}

#[test]
fn keys_can_be_heavy_for_both_reasons() {
    let counted = frequencies(vec![
        ("heavy".to_string(), 20),
        ("a".to_string(), 2),
        ("b".to_string(), 2),
    ]);
    let hitters = detect_final_heavy_keys(&counted, alpha(2.0), 10);
    assert_eq!(
        hitters,
        vec![HeavyHitter {
            key: "heavy".to_string(),
            frequency: 20,
            detection_reasons: vec![
                HeavyKeyReason::AboveMeanThreshold,
                HeavyKeyReason::ExceedsTargetPartitionRows,
            ],
        }]
    );
}

/// A negative multiple of the smallest number above zero.
fn tiny_negative(multiple: u64) -> Binary64 {
    alpha(-f64::from_bits(multiple))
}

#[test]
fn thresholds_below_zero_are_rounded_once() {
    let mut pairs = vec![("a".to_string(), 1)];
    for key in ["b", "c", "d", "e", "f", "g", "h", "i", "j"] {
        pairs.push((key.to_string(), 0));
    }
    let tenths = frequencies(pairs);
    assert!(-f64::from_bits(5) * (1.0 / 10.0) < 0.0);
    assert_eq!(detect_heavy_hitter_candidates(&tenths, tiny_negative(5)).len(), 10);
    assert_eq!(detect_heavy_hitter_candidates(&tenths, tiny_negative(4)).len(), 1);
    assert_eq!(detect_heavy_hitter_candidates(&tenths, alpha(-2.0)).len(), 10);

    let halves = frequencies(vec![("a".to_string(), 1), ("b".to_string(), 0)]);
    assert_eq!(detect_heavy_hitter_candidates(&halves, tiny_negative(1)).len(), 1);
    assert_eq!(detect_heavy_hitter_candidates(&halves, tiny_negative(2)).len(), 2);

    let quarters = frequencies(vec![
        ("a".to_string(), 3),
        ("b".to_string(), 0),
        ("c".to_string(), 0),
        ("d".to_string(), 0),
    ]);
    assert_eq!(detect_heavy_hitter_candidates(&quarters, tiny_negative(1)).len(), 4);
}

#[test]
fn bounds_are_exclusive() {
    let counted = frequencies(vec![("a".to_string(), 6), ("b".to_string(), 2)]);
    assert!(detect_heavy_hitter_candidates(&counted, alpha(1.5)).is_empty());
    assert!(detect_final_heavy_keys(&counted, alpha(1.5), 6).is_empty());
    assert_eq!(detect_final_heavy_keys(&counted, alpha(1.5), 5).len(), 1);
}

#[test]
fn summary_stays_small_and_never_undercounts_much() {
    let mut keys: Vec<String> = Vec::new();
    for i in 0..300 {
        keys.push("often".to_string());
        keys.push(format!("k{}", i % 50));
    }
    let summary = space_saving(&keys, 8);
    assert!(summary.frequencies.len() <= 8);
    let mut total: u64 = 0;
    for i in 0..summary.frequencies.len() {
        total += *summary.frequencies.value_at(i);
    }
    assert_eq!(total, 600);
    let counted = *summary.frequencies.get("often").expect("a frequent key stays");
    assert!(counted >= 300);
    assert!(counted <= 300 + summary.max_error);
    assert!(summary.max_error * 8 <= 600);
}

#[test]
fn summary_with_room_is_exact() {
    let keys: Vec<String> = ["a", "b", "a"].iter().map(|key| key.to_string()).collect();
    let summary = space_saving(&keys, 4);
    assert_eq!(summary.max_error, 0);
    assert_eq!(summary.frequencies, frequencies(vec![("a".to_string(), 2), ("b".to_string(), 1)]));
}
