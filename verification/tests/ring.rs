use bookkeeper::ring::{CachedMessage, MessageCache, MessageUpdate};

fn message(id: u64, content: &str) -> CachedMessage {
    CachedMessage { id, author_id: 100 + id, content: content.to_string(), attachments: Vec::new(), edited_timestamp: None }
}

#[test]
fn fourth_insert_evicts_the_first() {
    let mut cache = MessageCache::new(3);
    for id in [1u64, 2, 3, 4] {
        cache.insert(message(id, "text"));
    }
    assert_eq!(cache.ids(), vec![4, 3, 2]);
    assert_eq!(cache.len(), 3);
    assert!(cache.lookup(1).is_none());
    assert_eq!(cache.lookup(2).map(|m| m.id), Some(2));
}

#[test]
fn newest_message_stands_at_the_front() {
    let mut cache = MessageCache::new(5);
    cache.insert(message(10, "a"));
    cache.insert(message(11, "b"));
    assert_eq!(cache.ids(), vec![11, 10]);
    assert_eq!(cache.capacity(), 5);
    assert!(!cache.is_empty());
}

#[test]
fn cache_without_capacity_holds_nothing() {
    let mut cache = MessageCache::new(0);
    cache.insert(message(1, "a"));
    assert!(cache.is_empty());
    assert!(cache.lookup(1).is_none());
}

#[test]
fn update_merges_the_fields_that_are_given() {
    let mut cache = MessageCache::new(3);
    let mut first = message(1, "old");
    first.attachments = vec!["one.png".to_string()];
    cache.insert(first);
    cache.insert(message(2, "other"));
    cache.apply_update(MessageUpdate {
        id: 1,
        content: Some("new".to_string()),
        attachments: None,
        edited_timestamp: Some(1_600_000_000),
    });
    let found = cache.lookup(1).unwrap();
    assert_eq!(found.content, "new");
    assert_eq!(found.author_id, 101);
    assert_eq!(found.attachments, vec!["one.png".to_string()]);
    assert_eq!(found.edited_timestamp, Some(1_600_000_000));
    assert_eq!(cache.lookup(2).unwrap(), &message(2, "other"));
}

#[test]
fn update_of_an_unknown_message_changes_nothing() {
    let mut cache = MessageCache::new(3);
    cache.insert(message(1, "a"));
    cache.apply_update(MessageUpdate {
        id: 9,
        content: Some("b".to_string()),
        attachments: Some(vec!["x".to_string()]),
        edited_timestamp: Some(5),
    });
    assert_eq!(cache.ids(), vec![1]);
    assert_eq!(cache.lookup(1).unwrap(), &message(1, "a"));
}

#[test]
fn update_and_lookup_take_the_first_of_two_with_one_id() {
    let mut cache = MessageCache::new(3);
    cache.insert(message(7, "older"));
    cache.insert(message(7, "newer"));
    assert_eq!(cache.lookup(7).unwrap().content, "newer");
    cache.apply_update(MessageUpdate {
        id: 7,
        content: Some("edited".to_string()),
        attachments: None,
        edited_timestamp: None,
    });
    assert_eq!(cache.lookup(7).unwrap().content, "edited");
    assert_eq!(cache.ids(), vec![7, 7]);
}
