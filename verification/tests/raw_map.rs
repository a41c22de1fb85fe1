//! Tests for the open-addressing table.

use swisstable::raw::HashMap;

#[test]
fn test() {
    let mut map: HashMap<u32, u32> = HashMap::new();

    for i in 0..3 {
        for j in 0..1_000_000 {
            let (key, val) = (j, j);
            match i {
                0 => {
                    map.insert(key, val);
                }
                1 => {
                    map.get_mut(&key).map(|x| {
                        *x *= 10;
                        x
                    });
                }
                2 => assert_eq!(val * 10, *map.get(&key).unwrap()),
                _ => (),
            }
        }
    }
    for j in 0..1_000_000 {
        let (key, val) = (j, j);
        assert_eq!(val * 10, *map.get(&key).unwrap());
    }
}

#[test]
fn test_insert_and_get() {
    let mut map = HashMap::new();

    map.insert(1, "value1");

    assert_eq!(map.get(&1), Some(&"value1"));

    map.insert(2, "value2");

    assert_eq!(map.get(&1), Some(&"value1"));
    assert_eq!(map.get(&2), Some(&"value2"));
}

#[test]
fn test_get_mut() {
    let mut map = HashMap::new();

    map.insert(1, "value1");

    if let Some(v) = map.get_mut(&1) {
        *v = "value1_modified";
    }

    assert_eq!(map.get(&1), Some(&"value1_modified"));
}

#[test]
fn test_remove() {
    let mut map = HashMap::new();

    map.insert(1, "value1");

    let removed_value = map.remove(&1);

    assert_eq!(removed_value, Some("value1"));

    assert_eq!(map.get(&1), None);
}

#[test]
fn test_insert_overwrite() {
    let mut map = HashMap::new();

    map.insert(1, "value1");

    let old_value = map.insert(1, "value1_new");

    assert_eq!(old_value, Some("value1"));

    assert_eq!(map.get(&1), Some(&"value1_new"));
}

#[test]
fn test_insert_and_remove_non_existent_key() {
    let mut map = HashMap::new();

    let removed_value = map.remove(&2);

    assert_eq!(removed_value, None);

    map.insert(2, "value2");
    let removed_value = map.remove(&2);

    assert_eq!(removed_value, Some("value2"));

    assert_eq!(map.get(&2), None);
}

#[test]
fn test_concrete_scenario() {
    let mut map = HashMap::new();
    assert!(map.is_empty());
    assert_eq!(map.insert(1, "a"), None);
    assert_eq!(map.insert(2, "b"), None);
    assert_eq!(map.insert(1, "c"), Some("a"));
    assert_eq!(map.get(&1), Some(&"c"));
    assert_eq!(map.remove(&2), Some("b"));
    assert_eq!(map.get(&2), None);
    assert_eq!(map.len(), 1);
    assert!(!map.is_empty());
}

#[test]
fn test_stress_and_resize() {
    let mut map: HashMap<u32, u32> = HashMap::new();
    for k in 0u32..1000 {
        assert_eq!(map.insert(k, k + 7), None);
    }
    assert_eq!(map.len(), 1000);
    for k in 0u32..1000 {
        assert_eq!(map.get(&k), Some(&(k + 7)));
    }
    for k in 0u32..500 {
        assert_eq!(map.remove(&k), Some(k + 7));
    }
    assert_eq!(map.len(), 500);
    for k in 0u32..500 {
        assert_eq!(map.get(&k), None);
    }
    for k in 500u32..1000 {
        assert_eq!(map.get(&k), Some(&(k + 7)));
    }
}

#[test]
fn test_tombstone_reuse() {
    let mut map: HashMap<u64, u64> = HashMap::new();
    for k in 0u64..40 {
        map.insert(k, k);
    }
    for k in 0u64..40 {
        assert_eq!(map.remove(&k), Some(k));
    }
    assert_eq!(map.len(), 0);
    assert!(map.is_empty());
    for k in 0u64..40 {
        assert_eq!(map.insert(k, k * 2), None);
    }
    assert_eq!(map.len(), 40);
    for k in 0u64..40 {
        assert_eq!(map.get(&k), Some(&(k * 2)));
    }
}

#[test]
fn test_differential_against_std() {
    let mut ours: HashMap<u32, u64> = HashMap::new();
    let mut reference: std::collections::HashMap<u32, u64> = std::collections::HashMap::new();

    // A fixed linear-congruential sequence drives the same operations
    // against both tables.
    let mut state: u64 = 0x2545_f491_4f6c_dd1d;
    for _ in 0..20_000 {
        state = state
            .wrapping_mul(6364136223846793005)
            .wrapping_add(1442695040888963407);
        let key = ((state >> 16) % 128) as u32;
        let val = state >> 32;
        match state % 4 {
            0 => {
                assert_eq!(ours.insert(key, val), reference.insert(key, val));
            }
            1 => {
                assert_eq!(ours.get(&key), reference.get(&key));
            }
            2 => {
                let a = ours.get_mut(&key);
                let b = reference.get_mut(&key);
                assert_eq!(a.is_some(), b.is_some());
                if let (Some(x), Some(y)) = (a, b) {
                    assert_eq!(*x, *y);
                    *x = x.wrapping_add(3);
                    *y = y.wrapping_add(3);
                }
            }
            _ => {
                assert_eq!(ours.remove(&key), reference.remove(&key));
            }
        }
        assert_eq!(ours.len(), reference.len());
    }
    for key in 0u32..128 {
        assert_eq!(ours.get(&key), reference.get(&key));
    }
}

#[test]
fn test_negative_keys() {
    let mut map: HashMap<i64, &str> = HashMap::new();
    map.insert(-1, "minus one");
    map.insert(i64::MIN, "smallest");
    map.insert(i64::MAX, "largest");
    assert_eq!(map.get(&-1), Some(&"minus one"));
    assert_eq!(map.get(&i64::MIN), Some(&"smallest"));
    assert_eq!(map.get(&i64::MAX), Some(&"largest"));
    assert_eq!(map.len(), 3);
}
