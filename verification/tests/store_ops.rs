use rolegate::store::PolicyStore;

#[test]
fn upsert_then_blacklisted_then_removed() {
    let mut s = PolicyStore::new();
    assert!(!s.is_blacklisted(10, 20));
    s.upsert_blacklist(10, 20, None);
    assert!(s.is_blacklisted(10, 20));
    s.remove_blacklist(10, 20);
    assert!(!s.is_blacklisted(10, 20));
}

#[test]
fn exception_insert_then_present_then_removed() {
    let mut s = PolicyStore::new();
    assert!(!s.is_exception(10, 20));
    s.insert_exception_if_absent(10, 20);
    assert!(s.is_exception(10, 20));
    s.remove_exception(10, 20);
    assert!(!s.is_exception(10, 20));
}

#[test]
fn upsert_replaces_message_no_duplicate() {
    let mut s = PolicyStore::new();
    s.upsert_blacklist(1, 2, Some("A".to_string()));
    s.upsert_blacklist(1, 2, Some("B".to_string()));
    let listed = s.list_blacklisted(1);
    assert_eq!(listed.len(), 1);
    assert_eq!(listed[0].0, 2);
    assert_eq!(listed[0].1, "B");
}

#[test]
fn upsert_is_idempotent() {
    let mut s = PolicyStore::new();
    s.upsert_blacklist(1, 2, Some("A".to_string()));
    s.upsert_blacklist(1, 2, Some("A".to_string()));
    let listed = s.list_blacklisted(1);
    assert_eq!(listed.len(), 1);
    assert_eq!(listed[0].1, "A");
}

#[test]
fn exception_insert_if_absent_never_duplicates() {
    let mut s = PolicyStore::new();
    s.insert_exception_if_absent(1, 2);
    s.insert_exception_if_absent(1, 2);
    let listed = s.list_exceptions(1);
    assert_eq!(listed, vec![2]);
}

#[test]
fn remove_nonexistent_is_successful_noop() {
    let mut s = PolicyStore::new();
    s.remove_blacklist(7, 8);
    assert!(!s.is_blacklisted(7, 8));
    s.remove_exception(7, 8);
    assert!(!s.is_exception(7, 8));
}

#[test]
fn keys_are_per_channel_and_per_role() {
    let mut s = PolicyStore::new();
    s.upsert_blacklist(1, 2, None);
    assert!(s.is_blacklisted(1, 2));
    assert!(!s.is_blacklisted(1, 3));
    assert!(!s.is_blacklisted(2, 2));
    s.remove_blacklist(1, 3);
    assert!(s.is_blacklisted(1, 2));
}

#[test]
fn find_blacklist_match_prefers_first_given_role() {
    let mut s = PolicyStore::new();
    s.upsert_blacklist(1, 2, Some("x".to_string()));
    s.upsert_blacklist(1, 3, Some("y".to_string()));
    let m = s.find_blacklist_match(1, &vec![3, 2]);
    assert_eq!(m, Some((3, "y".to_string())));
    let m = s.find_blacklist_match(1, &vec![2, 3]);
    assert_eq!(m, Some((2, "x".to_string())));
    let m = s.find_blacklist_match(1, &vec![4, 5]);
    assert_eq!(m, None);
}

#[test]
fn find_blacklist_match_folds_missing_message_to_empty() {
    let mut s = PolicyStore::new();
    s.upsert_blacklist(1, 2, None);
    let m = s.find_blacklist_match(1, &vec![2]);
    assert_eq!(m, Some((2, String::new())));
}

#[test]
fn has_exception_match_over_role_set() {
    let mut s = PolicyStore::new();
    s.insert_exception_if_absent(1, 3);
    assert!(s.has_exception_match(1, &vec![2, 3]));
    assert!(!s.has_exception_match(1, &vec![2, 4]));
    assert!(!s.has_exception_match(2, &vec![3]));
    assert!(!s.has_exception_match(1, &vec![]));
}

#[test]
fn extreme_identifiers_and_duplicate_roles() {
    let mut s = PolicyStore::new();
    s.upsert_blacklist(u64::MAX, u64::MAX, Some("edge".to_string()));
    assert!(s.is_blacklisted(u64::MAX, u64::MAX));
    let m = s.find_blacklist_match(u64::MAX, &vec![u64::MAX, u64::MAX]);
    assert_eq!(m, Some((u64::MAX, "edge".to_string())));
    s.remove_blacklist(u64::MAX, u64::MAX);
    assert!(!s.is_blacklisted(u64::MAX, u64::MAX));
}

#[test]
fn pair_may_be_blacklisted_and_excepted_at_once() {
    let mut s = PolicyStore::new();
    s.upsert_blacklist(1, 2, Some("m".to_string()));
    s.insert_exception_if_absent(1, 2);
    assert!(s.is_blacklisted(1, 2));
    assert!(s.is_exception(1, 2));
}

#[test]
fn listings_cover_only_the_channel() {
    let mut s = PolicyStore::new();
    s.upsert_blacklist(1, 2, Some("m".to_string()));
    s.upsert_blacklist(1, 3, None);
    s.upsert_blacklist(9, 4, None);
    s.insert_exception_if_absent(1, 5);
    s.insert_exception_if_absent(9, 6);
    let mut bl = s.list_blacklisted(1);
    bl.sort();
    assert_eq!(bl, vec![(2, "m".to_string()), (3, String::new())]);
    assert_eq!(s.list_exceptions(1), vec![5]);
    assert_eq!(s.list_exceptions(2), Vec::<u64>::new());
}
