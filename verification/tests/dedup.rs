use unleash_types::{Deduplicate, Merge, Upsert};

#[test]
fn calling_deduplicate_correctly_removes_duplicated_items() {
    let first = vec![3, 2, 1];
    let second = vec![3, 4, 5];

    let result = first
        .into_iter()
        .chain(second.into_iter())
        .collect::<Vec<u32>>()
        .deduplicate();
    assert!(result.len() == 5);
}

#[test]
fn merging_also_deduplicates() {
    let first = vec![3, 2, 1];
    let second = vec![3, 4, 5];

    let result = first.merge(second);

    assert!(result.len() == 5);
}

#[test]
fn merging_unique_lists_keeps_everything() {
    let first = vec![1, 2, 3];
    let second = vec![4, 5, 6];

    let result = first.merge(second);

    assert!(result.len() == 6);
}

#[test]
fn deduplicate_keeps_first_occurrences_in_order() {
    let v: Vec<u32> = vec![3, 2, 3, 1, 2, 4];
    assert_eq!(v.deduplicate(), vec![3, 2, 1, 4]);
}

#[test]
fn deduplicate_of_empty_is_empty() {
    let v: Vec<u32> = vec![];
    assert_eq!(v.deduplicate(), Vec::<u32>::new());
}

#[test]
fn deduplicate_twice_changes_nothing() {
    let v: Vec<u32> = vec![5, 5, 1, 5, 2];
    let once = v.deduplicate();
    let twice = once.clone().deduplicate();
    assert_eq!(once, twice);
}

#[test]
fn merge_keeps_left_order_then_new_from_right() {
    let first: Vec<u32> = vec![1, 2, 3];
    let second: Vec<u32> = vec![3, 4, 1, 5];
    assert_eq!(first.merge(second), vec![1, 2, 3, 4, 5]);
}

#[test]
fn upsert_puts_new_data_first() {
    let old: Vec<u32> = vec![1, 2, 3];
    let new: Vec<u32> = vec![3, 4];
    assert_eq!(old.upsert(new), vec![3, 4, 1, 2]);
}

#[test]
fn strings_deduplicate_by_content() {
    let v: Vec<String> = vec!["a".into(), "b".into(), "a".into()];
    assert_eq!(v.deduplicate(), vec!["a".to_string(), "b".to_string()]);
}
