//! Tests for the chained table.

use swisstable::chained::HashMap;

#[test]
fn test_can_add_item() {
    let key: u32 = 17;
    let value: i32 = 1;

    let mut my_hash: HashMap<u32, i32> = HashMap::new();
    my_hash.put(key, value);
    assert_eq!(my_hash.length(), 1);
}

#[test]
fn test_can_add_multiple_items() {
    let mut my_hash: HashMap<u32, i32> = HashMap::new();

    for (i, key) in [3u32, 1414, 275, 9, 62].into_iter().enumerate() {
        my_hash.put(key, i as i32);
    }
    assert_eq!(my_hash.length(), 5);
}

#[test]
fn test_can_get_item() {
    let key: u32 = 17;
    let value: i32 = 1;

    let mut my_hash: HashMap<u32, i32> = HashMap::new();
    my_hash.put(key, value);

    let result = my_hash.get(key).unwrap();

    assert_eq!(result, value)
}

#[test]
fn test_can_update_item() {
    let key: u32 = 17;
    let value: i32 = 1;

    let mut my_hash: HashMap<u32, i32> = HashMap::new();
    my_hash.put(key, value);

    let mut result = my_hash.get(key).unwrap();

    assert_eq!(result, value);

    my_hash.put(key, 2);
    result = my_hash.get(key).unwrap();
    assert_eq!(result, 2);
}

#[test]
fn test_can_get_item_from_multiple() {
    let keys = [3u32, 1414, 275, 9, 62];
    let mut my_hash: HashMap<u32, i32> = HashMap::new();

    for (i, key) in keys.into_iter().enumerate() {
        my_hash.put(key, i as i32);
    }

    for (i, key) in keys.into_iter().enumerate() {
        let val = my_hash.get(key).unwrap();
        my_hash.put(key, i as i32);
        assert_eq!(val, i as i32);
    }
}

#[test]
fn test_can_still_put_values_from_greater_than_max_size() {
    // More keys than buckets: chains must grow past length one.
    let mut my_hash: HashMap<u32, i32> = HashMap::new();
    for i in 0u32..266 {
        my_hash.put(i * 131, i as i32);
    }
    assert_eq!(my_hash.length(), 266);
}

#[test]
fn test_can_still_get_values_from_greater_than_max_size() {
    let mut my_hash: HashMap<u32, i32> = HashMap::new();
    for i in 0u32..356 {
        my_hash.put(i * 131, i as i32);
    }
    for i in 0u32..356 {
        let result = my_hash.get(i * 131).unwrap();
        assert_eq!(result, i as i32);
    }
}

#[test]
fn test_can_remove_item() {
    let key: u32 = 17;
    let value: i32 = 1;

    let mut my_hash: HashMap<u32, i32> = HashMap::new();
    my_hash.put(key, value);

    let mut result = my_hash.get(key).unwrap();

    assert_eq!(result, value);

    result = my_hash.remove(key).unwrap();

    assert_eq!(result, value);
    assert_eq!(my_hash.get(key), None)
}

#[test]
fn test_can_add_more_than_max_vals_and_remove_all_vals() {
    let mut my_hash: HashMap<u32, i32> = HashMap::new();
    for i in 0u32..356 {
        my_hash.put(i * 37, i as i32);
    }
    for i in 0u32..356 {
        let result = my_hash.remove(i * 37).unwrap();
        assert_eq!(result, i as i32);
    }
    assert_eq!(my_hash.length(), 0);
}

#[test]
fn test_put_returns_old_value() {
    let mut my_hash: HashMap<u32, i32> = HashMap::new();
    assert_eq!(my_hash.put(5, 50), None);
    assert_eq!(my_hash.put(5, 60), Some(50));
    assert_eq!(my_hash.get(5), Some(60));
    assert_eq!(my_hash.length(), 1);
}

#[test]
fn test_remove_absent_key() {
    let mut my_hash: HashMap<u32, i32> = HashMap::new();
    my_hash.put(1, 10);
    assert_eq!(my_hash.remove(2), None);
    assert_eq!(my_hash.length(), 1);
}

#[test]
fn test_clear() {
    let mut my_hash: HashMap<u32, i32> = HashMap::new();
    for i in 0u32..300 {
        my_hash.put(i, i as i32);
    }
    my_hash.clear();
    assert_eq!(my_hash.length(), 0);
    for i in 0u32..300 {
        assert_eq!(my_hash.get(i), None);
    }
    my_hash.put(7, 70);
    assert_eq!(my_hash.get(7), Some(70));
    assert_eq!(my_hash.length(), 1);
}

#[test]
fn test_chained_differential_against_std() {
    let mut ours: HashMap<u32, u64> = HashMap::new();
    let mut reference: std::collections::HashMap<u32, u64> = std::collections::HashMap::new();

    let mut state: u64 = 0x9e37_79b9_7f4a_7c15;
    for _ in 0..20_000 {
        state = state
            .wrapping_mul(6364136223846793005)
            .wrapping_add(1442695040888963407);
        let key = ((state >> 16) % 600) as u32;
        let val = state >> 32;
        match state % 3 {
            0 => {
                assert_eq!(ours.put(key, val), reference.insert(key, val));
            }
            1 => {
                assert_eq!(ours.get(key), reference.get(&key).copied());
            }
            _ => {
                assert_eq!(ours.remove(key), reference.remove(&key));
            }
        }
        assert_eq!(ours.length(), reference.len());
    }
    for key in 0u32..600 {
        assert_eq!(ours.get(key), reference.get(&key).copied());
    }
}
