use bookkeeper::history::{History, HistoryWindow};

fn batch(ids: &[&str]) -> Vec<String> {
    ids.iter().map(|id| id.to_string()).collect()
}

#[test]
fn third_mark_drives_out_the_first() {
    let mut window = HistoryWindow::new(2);
    window.mark_seen("a", 1);
    window.mark_seen("b", 2);
    window.mark_seen("c", 3);
    assert_eq!(window.ids(), batch(&["b", "c"]));
    assert!(!window.is_seen("a"));
    assert!(window.is_seen("b"));
    assert!(window.is_seen("c"));
    assert_eq!(window.len(), 2);
    assert_eq!(window.capacity(), 2);
}

#[test]
fn checked_batch_is_new_once() {
    let mut window = HistoryWindow::new(10);
    let ids = batch(&["x", "y"]);
    assert!(window.check_and_mark(&ids, 5));
    assert!(!window.check_and_mark(&ids, 6));
    assert!(!window.contains_unseen(&ids));
}

#[test]
fn batch_with_one_new_identifier_is_new() {
    let mut window = HistoryWindow::new(10);
    window.mark_seen("x", 1);
    assert!(window.contains_unseen(&batch(&["x", "y"])));
    assert!(!window.contains_unseen(&batch(&["x"])));
    assert!(!window.contains_unseen(&batch(&[])));
}

#[test]
fn marking_again_renews_and_does_not_double() {
    let mut window = HistoryWindow::new(3);
    window.mark_seen("x", 1);
    assert_eq!(window.len(), 1);
    window.mark_seen("x", 2);
    assert_eq!(window.len(), 1);
    assert_eq!(window.last_seen("x"), Some(2));
    assert_eq!(window.last_seen("y"), None);
}

#[test]
fn renewed_identifier_outlives_older_ones() {
    let mut window = HistoryWindow::new(2);
    window.mark_seen("a", 1);
    window.mark_seen("b", 2);
    window.mark_seen("a", 3);
    window.mark_seen("c", 4);
    assert_eq!(window.ids(), batch(&["a", "c"]));
}

#[test]
fn window_without_capacity_remembers_nothing() {
    let mut window = HistoryWindow::new(0);
    let ids = batch(&["x"]);
    assert!(window.check_and_mark(&ids, 1));
    assert!(window.check_and_mark(&ids, 2));
    assert_eq!(window.len(), 0);
}

#[test]
fn marks_of_one_time_leave_in_the_order_they_came() {
    let mut window = HistoryWindow::new(2);
    window.mark_seen("a", 7);
    window.mark_seen("b", 7);
    window.mark_seen("c", 7);
    assert_eq!(window.ids(), batch(&["b", "c"]));
}

#[test]
fn mark_at_an_older_time_goes_in_front() {
    let mut window = HistoryWindow::new(3);
    window.mark_seen("a", 10);
    window.mark_seen("b", 20);
    window.mark_seen("c", 15);
    assert_eq!(window.ids(), batch(&["a", "c", "b"]));
    window.mark_seen("d", 5);
    assert_eq!(window.ids(), batch(&["a", "c", "b"]));
    assert!(!window.is_seen("d"));
}

#[test]
fn pools_do_not_drive_each_other_out() {
    let mut history = History::new(1);
    history.mark_seen("quiet", "q", 1);
    history.mark_seen("busy", "a", 2);
    history.mark_seen("busy", "b", 3);
    assert!(history.is_seen("quiet", "q"));
    assert!(!history.is_seen("busy", "a"));
    assert!(history.is_seen("busy", "b"));
    assert!(!history.is_seen("busy", "q"));
    assert_eq!(history.capacity(), 1);
}

#[test]
fn unknown_pool_has_seen_nothing() {
    let mut history = History::new(4);
    assert!(history.contains_unseen("reddit", &batch(&["t3_1"])));
    assert!(!history.contains_unseen("reddit", &batch(&[])));
    assert!(history.check_and_mark("reddit", &batch(&["t3_1", "t3_2"]), 9));
    assert!(!history.check_and_mark("reddit", &batch(&["t3_2", "t3_1"]), 9));
    assert!(history.check_and_mark("reddit", &batch(&["t3_2", "t3_3"]), 10));
}
