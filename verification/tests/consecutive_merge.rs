use mapbench::merge_consecutive;
use std::collections::BTreeMap;

fn map_of(entries: &[(u32, u64)]) -> BTreeMap<u32, u64> {
    let mut map = BTreeMap::new();
    for (k, v) in entries {
        map.insert(*k, *v);
    }
    map
}

fn sum_equal_values(map: &mut BTreeMap<u32, u64>) {
    merge_consecutive(
        map,
        |a, b| a.1 == b.1,
        |dest, src| *dest.1 += *src.1,
    );
}

#[test]
fn consecutive_sums_runs_of_equal_values() {
    let mut map = map_of(&[(1, 1), (2, 1), (3, 2), (4, 2)]);
    sum_equal_values(&mut map);
    assert_eq!(map, map_of(&[(1, 2), (3, 4)]));
}

#[test]
fn consecutive_leaves_empty_map_unchanged() {
    let mut map = map_of(&[]);
    sum_equal_values(&mut map);
    assert_eq!(map, map_of(&[]));
}

#[test]
fn consecutive_leaves_single_entry_unchanged() {
    let mut map = map_of(&[(7, 3)]);
    sum_equal_values(&mut map);
    assert_eq!(map, map_of(&[(7, 3)]));
}

#[test]
fn consecutive_without_match_changes_nothing() {
    let mut map = map_of(&[(1, 10), (2, 20), (3, 30), (4, 10)]);
    sum_equal_values(&mut map);
    assert_eq!(map, map_of(&[(1, 10), (2, 20), (3, 30), (4, 10)]));
}

#[test]
fn consecutive_keeps_the_total() {
    let mut map = map_of(&[(1, 5), (2, 5), (3, 5), (6, 9), (8, 9), (9, 1)]);
    let before: u64 = map.values().sum();
    sum_equal_values(&mut map);
    let after: u64 = map.values().sum();
    assert_eq!(before, after);
    assert_eq!(map, map_of(&[(1, 15), (6, 18), (9, 1)]));
}

#[test]
fn consecutive_keeps_only_keys_it_was_given() {
    let mut map = map_of(&[(2, 4), (4, 4), (5, 1), (7, 4)]);
    let before: Vec<u32> = map.keys().copied().collect();
    sum_equal_values(&mut map);
    assert!(map.keys().all(|k| before.contains(k)));
    assert_eq!(map, map_of(&[(2, 8), (5, 1), (7, 4)]));
}

#[test]
fn consecutive_does_not_merge_across_a_mismatch() {
    let mut map = map_of(&[(1, 3), (2, 8), (3, 3)]);
    sum_equal_values(&mut map);
    assert_eq!(map, map_of(&[(1, 3), (2, 8), (3, 3)]));
}

#[test]
fn consecutive_compares_with_the_unchanged_representative() {
    // After 2 is folded into 1 the sum is 2, yet 3 is still compared with
    // the value 1 that entry 1 started with.
    let mut map = map_of(&[(1, 1), (2, 1), (3, 2)]);
    sum_equal_values(&mut map);
    assert_eq!(map, map_of(&[(1, 2), (3, 2)]));
}

#[test]
fn consecutive_folds_a_chain_into_its_first_entry() {
    let mut map: BTreeMap<u32, String> = BTreeMap::new();
    map.insert(1, String::from("a"));
    map.insert(2, String::from("b"));
    map.insert(3, String::from("c"));
    map.insert(4, String::from("d"));
    let mut calls: Vec<(u32, u32)> = Vec::new();
    merge_consecutive(
        &mut map,
        |a, b| a.1.len() == b.1.len(),
        |dest, src| {
            calls.push((*dest.0, *src.0));
            dest.1.push_str(src.1);
        },
    );
    let mut expected: BTreeMap<u32, String> = BTreeMap::new();
    expected.insert(1, String::from("abcd"));
    assert_eq!(map, expected);
    assert_eq!(calls, vec![(1, 2), (1, 3), (1, 4)]);
}

#[test]
fn consecutive_hands_entries_over_in_ascending_order() {
    let mut map = map_of(&[(30, 1), (10, 2), (20, 3)]);
    let mut seen: Vec<(u32, u32)> = Vec::new();
    merge_consecutive(
        &mut map,
        |a, b| {
            seen.push((a.0, b.0));
            false
        },
        |_dest, _src| unreachable!(),
    );
    assert_eq!(seen, vec![(10, 20), (20, 30)]);
    assert_eq!(map, map_of(&[(10, 2), (20, 3), (30, 1)]));
}

#[test]
fn consecutive_sums_values_under_keys_of_equal_length() {
    let mut map: BTreeMap<String, usize> = BTreeMap::new();
    for (i, key) in ["ab", "abc", "b", "ba", "bcd", "c", "d"].iter().enumerate() {
        map.insert(key.to_string(), i);
    }
    merge_consecutive(
        &mut map,
        |(k1, _), (k2, _)| k1.len() == k2.len(),
        |(_, v1), (_, v2)| *v1 += *v2,
    );
    let mut expected: BTreeMap<String, usize> = BTreeMap::new();
    expected.insert("ab".to_string(), 0);
    expected.insert("abc".to_string(), 1);
    expected.insert("b".to_string(), 2);
    expected.insert("ba".to_string(), 3);
    expected.insert("bcd".to_string(), 4);
    expected.insert("c".to_string(), 5 + 6);
    assert_eq!(map, expected);
}

#[test]
fn consecutive_merges_everything_under_a_predicate_that_always_holds() {
    let mut map = map_of(&[(5, 1), (6, 2), (7, 3), (8, 4)]);
    merge_consecutive(&mut map, |_a, _b| true, |dest, src| *dest.1 += *src.1);
    assert_eq!(map, map_of(&[(5, 10)]));
}

#[test]
fn consecutive_merges_two_entries() {
    let mut map = map_of(&[(1, 4), (2, 4)]);
    sum_equal_values(&mut map);
    assert_eq!(map, map_of(&[(1, 8)]));
}

#[test]
fn consecutive_and_merge_agree() {
    let entries = [(1, 7), (2, 7), (4, 1), (5, 7), (6, 7), (9, 7), (10, 2), (11, 2)];
    let mut one = map_of(&entries);
    let mut other = map_of(&entries);
    sum_equal_values(&mut one);
    mapbench::merge(&mut other, |a, b| a.1 == b.1, |dest, src| *dest.1 += src.1);
    assert_eq!(one, other);
    assert_eq!(one, map_of(&[(1, 14), (4, 1), (5, 21), (10, 4)]));
}
