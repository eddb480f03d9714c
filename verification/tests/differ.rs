use sam_env_diff::differ::{diff_env_maps, exit_code, DiffStatus};
use sam_env_diff::env_map::EnvMap;

fn map(pairs: &[(&str, &str)]) -> EnvMap {
    let mut m = EnvMap::new();
    for (k, v) in pairs {
        m.insert(k.to_string(), v.to_string());
    }
    m
}

#[test]
fn identical_maps() {
    let left = map(&[("FOO", "bar"), ("BAZ", "qux")]);
    let right = left.clone();
    let diff = diff_env_maps(&left, &right);
    assert!(diff.ok);
    assert_eq!(diff.match_entries.len(), 2);
    assert!(diff.missing.is_empty());
    assert!(diff.extra.is_empty());
    assert!(diff.changed.is_empty());
}

#[test]
fn missing_key() {
    let left = map(&[("FOO", "bar")]);
    let right = map(&[("FOO", "bar"), ("SECRET", "xyz")]);
    let diff = diff_env_maps(&left, &right);
    assert!(!diff.ok);
    assert_eq!(diff.missing.len(), 1);
    assert_eq!(diff.missing[0].key, "SECRET");
}

#[test]
fn extra_key() {
    let left = map(&[("FOO", "bar"), ("EXTRA", "val")]);
    let right = map(&[("FOO", "bar")]);
    let diff = diff_env_maps(&left, &right);
    assert!(!diff.ok);
    assert_eq!(diff.extra.len(), 1);
    assert_eq!(diff.extra[0].key, "EXTRA");
}

#[test]
fn changed_key() {
    let left = map(&[("FOO", "old")]);
    let right = map(&[("FOO", "new")]);
    let diff = diff_env_maps(&left, &right);
    assert!(!diff.ok);
    assert_eq!(diff.changed.len(), 1);
    assert_eq!(diff.changed[0].key, "FOO");
}

#[test]
fn entries_sorted() {
    let left = map(&[("Z", "1"), ("A", "2"), ("M", "3")]);
    let right = left.clone();
    let diff = diff_env_maps(&left, &right);
    let keys: Vec<_> = diff.entries.iter().map(|e| e.key.as_str()).collect();
    assert_eq!(keys, vec!["A", "M", "Z"]);
}

#[test]
fn entry_values_and_statuses() {
    let left = map(&[("A", "1"), ("B", "2"), ("C", "3")]);
    let right = map(&[("B", "2"), ("C", "4"), ("D", "5")]);
    let diff = diff_env_maps(&left, &right);
    let statuses: Vec<_> = diff.entries.iter().map(|e| e.status.clone()).collect();
    assert_eq!(
        statuses,
        vec![DiffStatus::Extra, DiffStatus::Match, DiffStatus::Changed, DiffStatus::Missing]
    );
    assert_eq!(diff.entries[0].left_val.as_deref(), Some("1"));
    assert_eq!(diff.entries[0].right_val, None);
    assert_eq!(diff.entries[2].left_val.as_deref(), Some("3"));
    assert_eq!(diff.entries[2].right_val.as_deref(), Some("4"));
    assert_eq!(diff.entries[3].left_val, None);
    assert_eq!(diff.entries[3].right_val.as_deref(), Some("5"));
    assert_eq!(diff.match_entries.len(), 1);
    assert_eq!(diff.match_entries[0].key, "B");
}

#[test]
fn buckets_partition_entries() {
    let left = map(&[("A", "1"), ("B", "2"), ("C", "3"), ("E", "x")]);
    let right = map(&[("B", "2"), ("C", "4"), ("D", "5"), ("E", "x")]);
    let diff = diff_env_maps(&left, &right);
    assert_eq!(diff.entries.len(), 5);
    assert_eq!(
        diff.missing.len() + diff.extra.len() + diff.changed.len() + diff.match_entries.len(),
        diff.entries.len()
    );
}

#[test]
fn swapping_sides_swaps_missing_and_extra() {
    let left = map(&[("A", "1"), ("C", "3")]);
    let right = map(&[("C", "4"), ("D", "5")]);
    let forward = diff_env_maps(&left, &right);
    let backward = diff_env_maps(&right, &left);
    assert_eq!(forward.missing.len(), backward.extra.len());
    assert_eq!(forward.extra.len(), backward.missing.len());
    assert_eq!(backward.missing[0].key, "A");
    assert_eq!(backward.extra[0].key, "D");
    assert_eq!(backward.changed[0].left_val.as_deref(), Some("4"));
    assert_eq!(backward.changed[0].right_val.as_deref(), Some("3"));
}

#[test]
fn empty_maps_match() {
    let diff = diff_env_maps(&EnvMap::new(), &EnvMap::new());
    assert!(diff.ok);
    assert!(diff.entries.is_empty());
    assert_eq!(exit_code(&diff), 0);
}

#[test]
fn exit_code_follows_ok() {
    let left = map(&[("A", "1")]);
    let right = map(&[("A", "2")]);
    assert_eq!(exit_code(&diff_env_maps(&left, &right)), 1);
    assert_eq!(exit_code(&diff_env_maps(&left, &left.clone())), 0);
}

#[test]
fn keys_sort_by_code_point() {
    let left = map(&[("b", "1"), ("B", "1"), ("_", "1"), ("AB", "1"), ("A", "1")]);
    let diff = diff_env_maps(&left, &EnvMap::new());
    let keys: Vec<_> = diff.entries.iter().map(|e| e.key.as_str()).collect();
    assert_eq!(keys, vec!["A", "AB", "B", "_", "b"]);
    assert_eq!(diff.extra.len(), 5);
}
