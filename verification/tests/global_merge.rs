use mapbench::{apply_merges, merge, plan_merges};
use std::collections::BTreeMap;

fn map_of(entries: &[(u32, u64)]) -> BTreeMap<u32, u64> {
    let mut map = BTreeMap::new();
    for (k, v) in entries {
        map.insert(*k, *v);
    }
    map
}

fn texts(entries: &[(u32, &str)]) -> BTreeMap<u32, String> {
    let mut map = BTreeMap::new();
    for (k, v) in entries {
        map.insert(*k, String::from(*v));
    }
    map
}

fn sum_equal_values(map: &mut BTreeMap<u32, u64>) {
    merge(map, |a, b| a.1 == b.1, |dest, src| *dest.1 += src.1);
}

#[test]
fn merge_chains_entries_of_equal_length() {
    let mut map = texts(&[(1, "aa"), (2, "bb"), (3, "aa")]);
    merge(
        &mut map,
        |a, b| a.1.len() == b.1.len(),
        |dest, src| dest.1.push_str(&src.1),
    );
    assert_eq!(map, texts(&[(1, "aabbaa")]));
}

#[test]
fn merge_leaves_empty_map_unchanged() {
    let mut map = map_of(&[]);
    sum_equal_values(&mut map);
    assert_eq!(map, map_of(&[]));
}

#[test]
fn merge_leaves_single_entry_unchanged() {
    let mut map = map_of(&[(7, 3)]);
    sum_equal_values(&mut map);
    assert_eq!(map, map_of(&[(7, 3)]));
}

#[test]
fn merge_without_match_changes_nothing() {
    let mut map = map_of(&[(1, 10), (2, 20), (3, 30), (4, 10)]);
    sum_equal_values(&mut map);
    assert_eq!(map, map_of(&[(1, 10), (2, 20), (3, 30), (4, 10)]));
}

#[test]
fn merge_keeps_the_total() {
    let mut map = map_of(&[(1, 5), (2, 5), (3, 5), (6, 9), (8, 9), (9, 1)]);
    let before: u64 = map.values().sum();
    sum_equal_values(&mut map);
    let after: u64 = map.values().sum();
    assert_eq!(before, after);
    assert_eq!(map, map_of(&[(1, 15), (6, 18), (9, 1)]));
}

#[test]
fn merge_keeps_only_keys_it_was_given() {
    let mut map = map_of(&[(2, 4), (4, 4), (5, 1), (7, 4)]);
    let before: Vec<u32> = map.keys().copied().collect();
    sum_equal_values(&mut map);
    assert!(map.keys().all(|k| before.contains(k)));
    assert_eq!(map, map_of(&[(2, 8), (5, 1), (7, 4)]));
}

#[test]
fn merge_does_not_merge_across_a_mismatch() {
    let mut map = map_of(&[(1, 3), (2, 8), (3, 3)]);
    sum_equal_values(&mut map);
    assert_eq!(map, map_of(&[(1, 3), (2, 8), (3, 3)]));
}

#[test]
fn merge_compares_with_the_unchanged_representative() {
    let mut map = map_of(&[(1, 1), (2, 1), (3, 2), (4, 2)]);
    sum_equal_values(&mut map);
    assert_eq!(map, map_of(&[(1, 2), (3, 4)]));
}

#[test]
fn merge_folds_a_chain_into_its_first_entry() {
    let mut map = texts(&[(1, "a"), (2, "b"), (3, "c"), (4, "d")]);
    let mut calls: Vec<(u32, u32)> = Vec::new();
    merge(
        &mut map,
        |a, b| a.1.len() == b.1.len(),
        |dest, src| {
            calls.push((*dest.0, *src.0));
            dest.1.push_str(&src.1);
        },
    );
    assert_eq!(map, texts(&[(1, "abcd")]));
    assert_eq!(calls, vec![(1, 2), (1, 3), (1, 4)]);
}

#[test]
fn merge_restarts_at_the_entry_that_did_not_match() {
    let mut map = texts(&[(1, "x"), (2, "y"), (3, "long"), (4, "also"), (5, "z")]);
    merge(
        &mut map,
        |a, b| a.1.len() == b.1.len(),
        |dest, src| dest.1.push_str(&src.1),
    );
    assert_eq!(map, texts(&[(1, "xy"), (3, "longalso"), (5, "z")]));
}

#[test]
fn plan_lists_destination_and_source_in_scan_order() {
    let map = map_of(&[(1, 5), (2, 5), (3, 5), (6, 9), (8, 9), (9, 1)]);
    let plan = plan_merges(&map, |a, b| a.1 == b.1);
    assert_eq!(plan, vec![(1, 2), (1, 3), (6, 8)]);
}

#[test]
fn plan_compares_each_entry_with_the_representative() {
    let map = map_of(&[(10, 0), (20, 0), (30, 1), (40, 0)]);
    let mut seen: Vec<(u32, u32)> = Vec::new();
    let plan = plan_merges(&map, |a, b| {
        seen.push((*a.0, *b.0));
        a.1 == b.1
    });
    assert_eq!(seen, vec![(10, 20), (10, 30), (30, 40)]);
    assert_eq!(plan, vec![(10, 20)]);
}

#[test]
fn plan_of_empty_or_single_entry_map_is_empty() {
    let plan = plan_merges(&map_of(&[]), |_a, _b| true);
    assert_eq!(plan, vec![]);
    let plan = plan_merges(&map_of(&[(4, 4)]), |_a, _b| true);
    assert_eq!(plan, vec![]);
}

#[test]
fn apply_removes_sources_and_folds_them_in_order() {
    let mut map = texts(&[(1, "a"), (2, "b"), (3, "c"), (4, "d")]);
    apply_merges(&mut map, vec![(1, 2), (3, 4)], |dest, src| {
        dest.1.push('+');
        dest.1.push_str(&src.1)
    });
    assert_eq!(map, texts(&[(1, "a+b"), (3, "c+d")]));
}

#[test]
fn apply_of_empty_plan_changes_nothing() {
    let mut map = map_of(&[(1, 1), (2, 2)]);
    apply_merges(&mut map, vec![], |_dest, _src: (&u32, u64)| unreachable!());
    assert_eq!(map, map_of(&[(1, 1), (2, 2)]));
}

#[test]
fn merge_sums_values_under_keys_of_equal_length() {
    let mut map: BTreeMap<String, usize> = BTreeMap::new();
    for (i, key) in ["ab", "abc", "b", "ba", "bcd", "c", "d"].iter().enumerate() {
        map.insert(key.to_string(), i);
    }
    merge(
        &mut map,
        |(k1, _), (k2, _)| k1.len() == k2.len(),
        |(_, v1), (_, v2)| *v1 += v2,
    );
    let mut expected: BTreeMap<String, usize> = BTreeMap::new();
    expected.insert("ab".to_string(), 0);
    expected.insert("abc".to_string(), 1);
    expected.insert("b".to_string(), 2);
    expected.insert("ba".to_string(), 3);
    expected.insert("bcd".to_string(), 4);
    expected.insert("c".to_string(), 5 + 6);
    assert_eq!(map, expected);
}

#[test]
fn merge_merges_everything_under_a_predicate_that_always_holds() {
    let mut map = map_of(&[(5, 1), (6, 2), (7, 3), (8, 4)]);
    merge(&mut map, |_a, _b| true, |dest, src| *dest.1 += src.1);
    assert_eq!(map, map_of(&[(5, 10)]));
}

#[test]
fn merge_passes_the_destination_key_and_the_removed_entry() {
    let mut map = map_of(&[(1, 10), (2, 20), (3, 30)]);
    let mut seen: Vec<(u32, u64, u32, u64)> = Vec::new();
    merge(
        &mut map,
        |a, b| *a.0 == 1 && *b.0 <= 3,
        |dest, src| {
            seen.push((*dest.0, *dest.1, *src.0, src.1));
            *dest.1 += src.1;
        },
    );
    assert_eq!(seen, vec![(1, 10, 2, 20), (1, 30, 3, 30)]);
    assert_eq!(map, map_of(&[(1, 60)]));
}
