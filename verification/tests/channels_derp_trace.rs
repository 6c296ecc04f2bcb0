use bookkeeper::channels::{can_talk_in, get_log_channels, LogChannel};
use bookkeeper::derp::{resolve_tag, Alias, Response, Search, SearchImages};
use bookkeeper::trace::tracer;

#[test]
fn blacklist_wins_over_whitelist() {
    assert!(can_talk_in(1, &vec![], &vec![]));
    assert!(!can_talk_in(1, &vec![1], &vec![]));
    assert!(!can_talk_in(1, &vec![1], &vec![1]));
    assert!(can_talk_in(1, &vec![2], &vec![1, 3]));
    assert!(!can_talk_in(4, &vec![2], &vec![1, 3]));
}

#[test]
fn log_channels_are_those_of_the_guild() {
    let channels = vec![
        LogChannel { id: 10, guild: Some(1) },
        LogChannel { id: 11, guild: Some(2) },
        LogChannel { id: 12, guild: None },
        LogChannel { id: 13, guild: Some(1) },
    ];
    assert_eq!(get_log_channels(1, &channels), vec![10, 13]);
    assert_eq!(get_log_channels(2, &channels), vec![11]);
    assert!(get_log_channels(3, &channels).is_empty());
}

fn found(id: u64, medium: &str) -> Search {
    Search {
        id,
        image: "//example.org/full.png".to_string(),
        representations: SearchImages {
            thumb: "//example.org/thumb.png".to_string(),
            medium: medium.to_string(),
        },
    }
}

#[test]
fn first_image_is_shown() {
    let none = Response { search: Vec::new() };
    assert!(none.first().is_none());
    let some = Response { search: vec![found(5, "//example.org/m5.png"), found(6, "//example.org/m6.png")] };
    let first = some.first().unwrap();
    assert_eq!(first.id, 5);
    assert_eq!(first.image_url(), "http://example.org/m5.png");
}

#[test]
fn alias_gives_its_tag() {
    let aliases = vec![
        Alias { tag: "twilight sparkle".to_string(), names: vec!["twi".to_string(), "ts".to_string()] },
        Alias { tag: "rainbow dash".to_string(), names: vec!["rd".to_string(), "ts".to_string()] },
    ];
    assert_eq!(resolve_tag("rd", &aliases), "rainbow dash");
    assert_eq!(resolve_tag("ts", &aliases), "twilight sparkle");
    assert_eq!(resolve_tag("applejack", &aliases), "applejack");
    assert_eq!(resolve_tag("x", &Vec::new()), "x");
}

#[test]
fn trace_line_has_its_prefix() {
    assert_eq!(tracer("SELECT 1"), "SQL: SELECT 1");
    assert_eq!(tracer(""), "SQL: ");
}
