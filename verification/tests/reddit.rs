use bookkeeper::history::History;
use bookkeeper::reddit::{
    basic_authorization, basic_header, bearer_header, check_batches, check_interval_secs, check_is_due,
    check_listings, listing_ids, next_sleep_secs, reply_ids, NotificationClass, PollRefusal, RedditListing,
    RedditMessageish, RedditObject, RedditReply, REDDIT_POOL,
};

fn batch(ids: &[&str]) -> Vec<String> {
    ids.iter().map(|id| id.to_string()).collect()
}

fn replies(ids: &[&str]) -> RedditObject<RedditListing<RedditReply>> {
    RedditObject {
        kind: "Listing".to_string(),
        data: RedditListing {
            after: None,
            before: None,
            children: ids
                .iter()
                .map(|id| RedditObject { kind: "t4".to_string(), data: RedditReply { id: id.to_string() } })
                .collect(),
        },
    }
}

fn listing(messages: &[(&str, &[&str])]) -> RedditListing<RedditMessageish> {
    RedditListing {
        after: None,
        before: None,
        children: messages
            .iter()
            .map(|(id, answers)| RedditObject {
                kind: "t4".to_string(),
                data: RedditMessageish { id: id.to_string(), replies: replies(answers) },
            })
            .collect(),
    }
}

#[test]
fn titles_name_the_class() {
    assert_eq!(NotificationClass::Modqueue.title(), "New stuff in the modqueue");
    assert_eq!(NotificationClass::Modmail.title(), "New modmail");
    assert_eq!(NotificationClass::ModmailReply.title(), "New reply to modmail");
}

#[test]
fn urls_point_to_the_subreddit() {
    assert_eq!(NotificationClass::Modqueue.url("rust"), "https://old.reddit.com/r/rust/about/modqueue/");
    assert_eq!(NotificationClass::Modmail.url("rust"), "https://old.reddit.com/r/rust/about/message/inbox/");
    assert_eq!(
        NotificationClass::ModmailReply.url("rust"),
        "https://old.reddit.com/r/rust/about/message/inbox/"
    );
}

#[test]
fn colours_tell_queue_from_mail() {
    assert_eq!(NotificationClass::Modqueue.colour(), 0x3498DB);
    assert_eq!(NotificationClass::Modmail.colour(), 0xE74C3C);
    assert_eq!(NotificationClass::ModmailReply.colour(), 0xE74C3C);
}

#[test]
fn empty_listing_is_empty() {
    let empty: RedditListing<RedditMessageish> = RedditListing::default();
    assert!(empty.is_empty());
    assert!(empty.after.is_none() && empty.before.is_none());
    assert!(!listing(&[("a", &[])]).is_empty());
    let object: RedditObject<RedditListing<RedditMessageish>> = RedditObject::default();
    assert_eq!(object.kind, "Listing");
    assert!(object.data.is_empty());
}

#[test]
fn identifiers_are_read_in_order() {
    let inbox = listing(&[("m1", &["r1", "r2"]), ("m2", &[]), ("m3", &["r3"])]);
    assert_eq!(listing_ids(&inbox), batch(&["m1", "m2", "m3"]));
    assert_eq!(reply_ids(&inbox), batch(&["r1", "r2", "r3"]));
}

#[test]
fn each_class_is_reported_once() {
    let mut history = History::new(100);
    let queue = batch(&["q1"]);
    let inbox = batch(&["m1"]);
    let answers = batch(&["r1"]);
    assert_eq!(
        check_batches(&mut history, &queue, &inbox, &answers, 1),
        vec![NotificationClass::Modqueue, NotificationClass::Modmail, NotificationClass::ModmailReply]
    );
    assert!(check_batches(&mut history, &queue, &inbox, &answers, 2).is_empty());
    assert!(history.is_seen(REDDIT_POOL, "q1"));
    assert_eq!(
        check_batches(&mut history, &queue, &batch(&["m1", "m2"]), &answers, 3),
        vec![NotificationClass::Modmail]
    );
}

#[test]
fn no_replies_are_no_news() {
    let mut history = History::new(100);
    assert_eq!(
        check_batches(&mut history, &Vec::new(), &batch(&["m1"]), &Vec::new(), 1),
        vec![NotificationClass::Modmail]
    );
}

#[test]
fn listings_are_checked_like_batches() {
    let mut history = History::new(100);
    let queue = listing(&[("q1", &[])]);
    let inbox = listing(&[("m1", &["r1"])]);
    assert_eq!(
        check_listings(&mut history, &queue, &inbox, 1),
        vec![NotificationClass::Modqueue, NotificationClass::Modmail, NotificationClass::ModmailReply]
    );
    let more = listing(&[("m1", &["r1", "r2"])]);
    assert_eq!(check_listings(&mut history, &queue, &more, 2), vec![NotificationClass::ModmailReply]);
}

#[test]
fn poller_checks_no_more_than_once_a_minute() {
    assert_eq!(check_interval_secs(true, 5), Ok(300));
    assert_eq!(check_interval_secs(true, 1), Ok(60));
    assert_eq!(check_interval_secs(true, 0), Err(PollRefusal::IntervalTooShort));
    assert_eq!(check_interval_secs(false, 5), Err(PollRefusal::Disabled));
    assert_eq!(check_interval_secs(false, 0), Err(PollRefusal::Disabled));
}

#[test]
fn poller_sleeps_to_the_end_of_the_interval() {
    assert_eq!(next_sleep_secs(300, 0), 300);
    assert_eq!(next_sleep_secs(300, 299), 1);
    assert_eq!(next_sleep_secs(300, 300), 1);
    assert!(!check_is_due(300, 299));
    assert!(check_is_due(300, 300));
    assert!(check_is_due(300, 301));
}

#[test]
fn credentials_are_encoded_into_the_header() {
    assert_eq!(basic_authorization("id", "secret"), Some("Basic aWQ6c2VjcmV0".to_string()));
    assert_eq!(basic_authorization("", ""), Some("Basic Og==".to_string()));
    assert_eq!(basic_header("abc"), "Basic abc");
    assert_eq!(bearer_header("token"), "Bearer token");
}
