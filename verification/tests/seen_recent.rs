use bookkeeper::recent::RecentIds;
use bookkeeper::seen::SeenSet;

#[test]
fn seen_batch_is_new_once() {
    let mut seen = SeenSet::new();
    let ids = vec!["x".to_string(), "y".to_string()];
    assert!(seen.check_and_mark(&ids));
    assert!(!seen.check_and_mark(&ids));
    assert_eq!(seen.len(), 2);
}

#[test]
fn seen_set_holds_each_identifier_once() {
    let mut seen = SeenSet::new();
    assert!(seen.insert("a"));
    assert!(!seen.insert("a"));
    assert!(seen.insert("b"));
    assert!(seen.contains("a"));
    assert!(!seen.contains("c"));
    assert_eq!(seen.items(), vec!["a".to_string(), "b".to_string()]);
    assert!(seen.contains_unseen(&vec!["a".to_string(), "c".to_string()]));
    assert!(!seen.contains_unseen(&Vec::new()));
}

#[test]
fn recent_list_keeps_the_newest() {
    let mut list = RecentIds::new(2);
    list.note(1);
    list.note(2);
    list.note(3);
    assert_eq!(list.ids(), vec![2, 3]);
    assert!(!list.contains(1));
    assert!(list.contains(3));
    assert_eq!(list.len(), 2);
    assert_eq!(list.capacity(), 2);
}

#[test]
fn noting_again_moves_to_the_rear() {
    let mut list = RecentIds::new(3);
    list.note(1);
    list.note(2);
    list.note(1);
    assert_eq!(list.ids(), vec![2, 1]);
    list.note(1);
    assert_eq!(list.ids(), vec![2, 1]);
}

#[test]
fn smaller_capacity_drops_the_oldest() {
    let mut list = RecentIds::from_ids(&vec![5, 6, 7, 6, 8], 10);
    assert_eq!(list.ids(), vec![5, 7, 6, 8]);
    list.set_capacity(2);
    assert_eq!(list.ids(), vec![6, 8]);
    list.set_capacity(0);
    assert_eq!(list.len(), 0);
    list.note(9);
    assert_eq!(list.len(), 0);
}
