use bookkeeper::state::CacheContent;
use bookkeeper::store::{Cache, CommitAction, CommitEvent, CommitStage, StoreError};

#[test]
fn empty_source_gives_the_blank_state() {
    let cache = Cache::from_file(0, || Err(StoreError::TomlRead)).unwrap();
    assert_eq!(cache.content().reddit_seen.len(), 0);
    assert_eq!(cache.content().gib_seen.len(), 0);
    assert_eq!(cache.content().sticky_roles.len(), 0);
    assert!(!Cache::holds_document(0));
    assert!(Cache::holds_document(1));
}

#[test]
fn source_with_a_document_gives_what_was_read() {
    let cache = Cache::from_file(10, || {
        let mut content = CacheContent::new(3);
        content.reddit_seen.insert("t3_1");
        content.gib_seen.note(9);
        content.sticky_roles.set("7", &vec![1, 2]);
        Ok(content)
    })
    .unwrap();
    assert!(cache.content().reddit_seen.contains("t3_1"));
    assert_eq!(cache.content().gib_seen.ids(), vec![9]);
    assert_eq!(cache.content().sticky_roles.get("7"), vec![1, 2]);
}

#[test]
fn unreadable_document_is_an_error() {
    assert!(matches!(Cache::from_file(5, || Err(StoreError::TomlRead)), Err(StoreError::TomlRead)));
    assert!(matches!(Cache::from_file(5, || Err(StoreError::Io)), Err(StoreError::Io)));
}

#[test]
fn default_state_is_blank() {
    let content = CacheContent::default();
    assert_eq!(content.reddit_seen.len(), 0);
    assert_eq!(content.gib_seen.capacity(), 0);
    assert_eq!(content.sticky_roles.len(), 0);
}

#[test]
fn result_is_handed_out_after_the_commit() {
    let mut cache = Cache::new(CacheContent::new(2));
    let mut pending = cache.with(|mut content| {
        content.sticky_roles.set("user", &vec![5]);
        (content, 17)
    });
    assert_eq!(cache.content().sticky_roles.get("user"), vec![5]);
    assert_eq!(pending.current_stage(), CommitStage::Serializing);
    assert!(!pending.is_settled());
    assert_eq!(
        pending.advance(CommitEvent::Serialized("doc".to_string())),
        CommitAction::WriteTemporary("doc".to_string())
    );
    assert_eq!(pending.advance(CommitEvent::Done), CommitAction::ReplaceDurable);
    assert_eq!(pending.current_stage(), CommitStage::Replacing);
    assert_eq!(pending.advance(CommitEvent::Done), CommitAction::Release);
    assert!(pending.is_settled());
    assert_eq!(pending.finish(), Ok(17));
}

#[test]
fn failed_serialization_touches_nothing() {
    let mut cache = Cache::new(CacheContent::new(2));
    let mut pending = cache.with(|content| (content, ()));
    assert_eq!(pending.advance(CommitEvent::SerializeFailed), CommitAction::Abort(StoreError::TomlWrite));
    assert_eq!(pending.current_stage(), CommitStage::Failed(StoreError::TomlWrite));
    assert_eq!(pending.advance(CommitEvent::Done), CommitAction::Abort(StoreError::TomlWrite));
    assert_eq!(pending.finish(), Err(StoreError::TomlWrite));
}

#[test]
fn failed_write_gives_the_commit_up() {
    let mut cache = Cache::new(CacheContent::new(2));
    let mut pending = cache.with(|content| (content, 1));
    pending.advance(CommitEvent::Serialized("doc".to_string()));
    assert_eq!(pending.advance(CommitEvent::IoFailed), CommitAction::Abort(StoreError::Io));
    assert_eq!(pending.finish(), Err(StoreError::Io));
}

#[test]
fn failed_replacement_gives_the_commit_up() {
    let mut cache = Cache::new(CacheContent::new(2));
    let mut pending = cache.with(|content| (content, 1));
    pending.advance(CommitEvent::Serialized("doc".to_string()));
    pending.advance(CommitEvent::Done);
    assert_eq!(pending.advance(CommitEvent::IoFailed), CommitAction::Abort(StoreError::Io));
    assert_eq!(pending.current_stage(), CommitStage::Failed(StoreError::Io));
}

#[test]
fn event_out_of_turn_ends_the_commit() {
    let mut cache = Cache::new(CacheContent::new(2));
    let mut pending = cache.with(|content| (content, 1));
    assert_eq!(pending.advance(CommitEvent::Done), CommitAction::Abort(StoreError::Io));
    assert!(pending.is_settled());
}
