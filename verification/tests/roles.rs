use bookkeeper::roles::{distinct_roles, keep_valid, role_ids_from_rows, sticky_subset, StickyRoles};

#[test]
fn empty_set_takes_the_user_out() {
    let mut store = StickyRoles::new();
    store.set("user", &vec![42]);
    assert!(store.contains("user"));
    assert_eq!(store.get("user"), vec![42]);
    store.set("user", &Vec::new());
    assert!(store.get("user").is_empty());
    assert!(!store.contains("user"));
    assert_eq!(store.len(), 0);
}

#[test]
fn unknown_user_has_no_roles() {
    let store = StickyRoles::new();
    assert!(store.get("nobody").is_empty());
    assert!(!store.contains("nobody"));
}

#[test]
fn set_replaces_what_was_set() {
    let mut store = StickyRoles::new();
    store.set("a", &vec![1, 2]);
    store.set("b", &vec![3]);
    store.set("a", &vec![4, 4, 5]);
    assert_eq!(store.get("a"), vec![4, 5]);
    assert_eq!(store.get("b"), vec![3]);
    assert_eq!(store.len(), 2);
    store.set("b", &Vec::new());
    assert_eq!(store.len(), 1);
    assert_eq!(store.get("a"), vec![4, 5]);
}

#[test]
fn empty_set_for_an_unknown_user_adds_nothing() {
    let mut store = StickyRoles::new();
    store.set("a", &Vec::new());
    assert_eq!(store.len(), 0);
    assert!(!store.contains("a"));
}

#[test]
fn roles_are_kept_once() {
    assert_eq!(distinct_roles(&vec![3, 1, 3, 2, 1]), vec![3, 1, 2]);
    assert!(distinct_roles(&Vec::new()).is_empty());
}

#[test]
fn only_sticky_roles_are_kept() {
    assert_eq!(sticky_subset(&vec![1, 2, 3, 2], &vec![2, 3, 9]), vec![2, 3]);
    assert!(sticky_subset(&vec![1, 2], &Vec::new()).is_empty());
    assert!(sticky_subset(&Vec::new(), &vec![1]).is_empty());
}

#[test]
fn rows_that_are_no_identifiers_are_passed_over() {
    let rows: Vec<String> = ["12", "x", "+7", "", "18446744073709551615", "18446744073709551616", "-1", " 5", "0"]
        .iter()
        .map(|row| row.to_string())
        .collect();
    assert_eq!(role_ids_from_rows(&rows), vec![12, 7, 18446744073709551615, 0]);
}

#[test]
fn valid_identifiers_keep_their_order() {
    assert_eq!(keep_valid(&vec![Some(3), None, Some(1), None]), vec![3, 1]);
    assert!(keep_valid(&vec![None]).is_empty());
}
