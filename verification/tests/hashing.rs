//! Hashing of keys.

use repartitioner::hashing::{hash_bytes_seeded, hash_key, partition_id};

#[test]
fn same_key_and_seed_always_map_to_same_partition() {
    let first = partition_id("user_id=42", 16, 42);
    let second = partition_id("user_id=42", 16, 42);

    assert_eq!(first, second);
}

#[test]
fn different_seeds_can_produce_different_partition_assignments() {
    let has_different_assignment = (0..128).any(|index| {
        let key = format!("user_id={index}");
        partition_id(&key, 64, 42) != partition_id(&key, 64, 43)
    });

    assert!(has_different_assignment);
}

#[test]
fn hashes_are_those_of_fnv() {
    assert_eq!(hash_bytes_seeded(0, b""), 0xcbf2_9ce4_8422_2325);
    assert_eq!(hash_bytes_seeded(0, b"a"), 0xaf63_dc4c_8601_ec8c);
    assert_eq!(hash_bytes_seeded(0, b"foobar"), 0x8594_4171_f739_67e8);
    assert_eq!(hash_key(0, "foobar"), 0x8594_4171_f739_67e8);
    assert_eq!(hash_bytes_seeded(5, b""), 0xcbf2_9ce4_8422_2320);
}

#[test]
fn partitions_are_in_range() {
    assert_eq!(partition_id("key", 0, 1), 0);
    for n in 1..20 {
        assert!(partition_id("key", n, 7) < n);
    }
}
