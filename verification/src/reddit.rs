//! What is told about a subreddit: the classes of notification, the
//! listings they are read from, and the rule by which a listing counts as
//! news.

use crate::history::{any_unrecorded, marked_all, History, Seen};
use vstd::prelude::*;
use vstd::string::*;

verus! {

/// The pool of the history in which the identifiers of listings are kept.
pub const REDDIT_POOL: &'static str = "reddit";

/// What a notification is about.
#[derive(Debug, Clone, Copy, PartialEq, Eq, Hash, Structural)]
pub enum NotificationClass {
    Modqueue,
    Modmail,
    ModmailReply,
}

/// The title of a notification of the class `class`.
pub open spec fn title_of(class: NotificationClass) -> Seq<char> {
    match class {
        NotificationClass::Modqueue => "New stuff in the modqueue"@,
        NotificationClass::Modmail => "New modmail"@,
        NotificationClass::ModmailReply => "New reply to modmail"@,
    }
}

/// The page of the subreddit `sub` that a notification of the class
/// `class` points to.
pub open spec fn url_of(class: NotificationClass, sub: Seq<char>) -> Seq<char> {
    match class {
        NotificationClass::Modqueue => "https://old.reddit.com/r/"@ + sub + "/about/modqueue/"@,
        _ => "https://old.reddit.com/r/"@ + sub + "/about/message/inbox/"@,
    }
}

/// The colour of a notification of the class `class`, as `0xRRGGBB`: blue
/// for the modqueue, red for modmail.
pub open spec fn colour_of(class: NotificationClass) -> u32 {
    match class {
        NotificationClass::Modqueue => 0x3498DB,
        _ => 0xE74C3C,
    }
}

impl NotificationClass {
    pub fn title(&self) -> (title: &'static str)
        ensures
            title@ == title_of(*self),
    {
        match *self {
            NotificationClass::Modqueue => "New stuff in the modqueue",
            NotificationClass::Modmail => "New modmail",
            NotificationClass::ModmailReply => "New reply to modmail",
        }
    }

    pub fn url(&self, sub: &str) -> (url: String)
        ensures
            url@ == url_of(*self, sub@),
    {
        let front = String::from_str("https://old.reddit.com/r/").concat(sub);
        match *self {
            NotificationClass::Modqueue => front.concat("/about/modqueue/"),
            NotificationClass::Modmail | NotificationClass::ModmailReply => front.concat(
                "/about/message/inbox/",
            ),
        }
    }

    pub fn colour(&self) -> (colour: u32)
        ensures
            colour == colour_of(*self),
    {
        match *self {
            NotificationClass::Modqueue => 0x3498DB,
            NotificationClass::Modmail | NotificationClass::ModmailReply => 0xE74C3C,
        }
    }
}

/// A thing of the listing format: its kind, and what it holds.
pub struct RedditObject<T> {
    pub kind: String,
    pub data: T,
}

/// One page of a listing.
pub struct RedditListing<T> {
    pub after: Option<String>,
    pub before: Option<String>,
    pub children: Vec<RedditObject<T>>,
}

impl<T> RedditListing<T> {
    pub fn is_empty(&self) -> (empty: bool)
        ensures
            empty == (self.children@.len() == 0),
    {
        self.children.len() == 0
    }
}

impl<T> Default for RedditListing<T> {
    /// The listing that holds nothing.
    fn default() -> (listing: Self)
        ensures
            listing.after is None,
            listing.before is None,
            listing.children@ == Seq::<RedditObject<T>>::empty(),
    {
        RedditListing { after: None, before: None, children: Vec::new() }
    }
}

impl<T> Default for RedditObject<RedditListing<T>> {
    /// The empty listing as a thing of the kind `Listing`.
    fn default() -> (object: Self)
        ensures
            object.kind@ == "Listing"@,
            object.data.after is None,
            object.data.before is None,
            object.data.children@ == Seq::<RedditObject<T>>::empty(),
    {
        RedditObject { kind: "Listing".to_owned(), data: RedditListing::default() }
    }
}

/// The classes that a check of a subreddit reports: each class whose
/// batch held something new.
pub open spec fn reported(modqueue: bool, modmail: bool, replies: bool) -> Seq<NotificationClass> {
    (if modqueue {
        seq![NotificationClass::Modqueue]
    } else {
        seq![]
    }) + (if modmail {
        seq![NotificationClass::Modmail]
    } else {
        seq![]
    }) + (if replies {
        seq![NotificationClass::ModmailReply]
    } else {
        seq![]
    })
}

/// The ledger of the listings' pool after the three batches of a check
/// were marked at `now`, one after another.
pub open spec fn checked(
    ledger: Seq<Seen>,
    modqueue: Seq<Seq<char>>,
    inbox: Seq<Seq<char>>,
    replies: Seq<Seq<char>>,
    now: u64,
    limit: nat,
) -> Seq<Seen> {
    marked_all(marked_all(marked_all(ledger, modqueue, now, limit), inbox, now, limit), replies, now, limit)
}

/// Checks one subreddit. Each of the three batches (the modqueue, the
/// inbox, the replies to the messages of the inbox) is first asked for
/// anything new and then marked as seen at `now`, in this order; a class
/// is reported where its batch held something new. Replies are reported
/// only where there are any.
pub fn check_batches(
    history: &mut History,
    modqueue: &Vec<String>,
    inbox: &Vec<String>,
    replies: &Vec<String>,
    now: u64,
) -> (classes: Vec<NotificationClass>)
    requires
        old(history).well_formed(),
    ensures
        final(history).well_formed(),
        final(history).limit() == old(history).limit(),
        classes@ == reported(
            any_unrecorded(old(history).ledger(REDDIT_POOL@), modqueue.deep_view()),
            any_unrecorded(
                marked_all(
                    old(history).ledger(REDDIT_POOL@),
                    modqueue.deep_view(),
                    now,
                    old(history).limit() as nat,
                ),
                inbox.deep_view(),
            ),
            any_unrecorded(
                marked_all(
                    marked_all(
                        old(history).ledger(REDDIT_POOL@),
                        modqueue.deep_view(),
                        now,
                        old(history).limit() as nat,
                    ),
                    inbox.deep_view(),
                    now,
                    old(history).limit() as nat,
                ),
                replies.deep_view(),
            ),
        ),
        final(history).ledger(REDDIT_POOL@) == checked(
            old(history).ledger(REDDIT_POOL@),
            modqueue.deep_view(),
            inbox.deep_view(),
            replies.deep_view(),
            now,
            old(history).limit() as nat,
        ),
        forall|other: Seq<char>|
            other != REDDIT_POOL@ ==> final(history).ledger(other) == old(history).ledger(other),
{
    let mut classes: Vec<NotificationClass> = Vec::new();
    if history.check_and_mark(REDDIT_POOL, modqueue, now) {
        classes.push(NotificationClass::Modqueue);
    }
    let ghost first = classes@;
    if history.check_and_mark(REDDIT_POOL, inbox, now) {
        classes.push(NotificationClass::Modmail);
    }
    let ghost second = classes@;
    if replies.len() > 0 {
        if history.check_and_mark(REDDIT_POOL, replies, now) {
            classes.push(NotificationClass::ModmailReply);
        }
    } else {
        proof {
            assert(crate::history::stamped(replies.deep_view(), now) =~= Seq::<Seen>::empty());
        }
    }
    proof {
        assert(classes@ =~= first + (second.skip(first.len() as int)) + classes@.skip(
            second.len() as int,
        ));
    }
    classes
}

/// A reply to a message. Of a reply only the identifier is read: what
/// was replied to it in turn is not followed.
pub struct RedditReply {
    pub id: String,
}

/// A message, or something that is listed like one: its identifier, and
/// the replies to it.
pub struct RedditMessageish {
    pub id: String,
    pub replies: RedditObject<RedditListing<RedditReply>>,
}

/// The identifiers of the things of `children`, in their order.
pub open spec fn ids_of(children: Seq<RedditObject<RedditMessageish>>) -> Seq<Seq<char>> {
    Seq::new(children.len(), |i: int| children[i].data.id@)
}

/// The identifiers of the replies of `children`, in their order.
pub open spec fn replies_of(children: Seq<RedditObject<RedditReply>>) -> Seq<Seq<char>> {
    Seq::new(children.len(), |i: int| children[i].data.id@)
}

/// The identifiers of the replies to the things of `children`: those to
/// the first thing first, each group in its order.
pub open spec fn reply_ids_of(children: Seq<RedditObject<RedditMessageish>>) -> Seq<Seq<char>>
    decreases children.len(),
{
    if children.len() == 0 {
        Seq::empty()
    } else {
        reply_ids_of(children.drop_last()) + replies_of(children.last().data.replies.data.children@)
    }
}

/// The identifiers of the things that `listing` holds, in their order.
pub fn listing_ids(listing: &RedditListing<RedditMessageish>) -> (ids: Vec<String>)
    ensures
        ids.deep_view() == ids_of(listing.children@),
{
    let mut ids: Vec<String> = Vec::new();
    let mut i: usize = 0;
    while i < listing.children.len()
        invariant
            i <= listing.children.len(),
            ids@.len() == i,
            forall|j: int| 0 <= j < i ==> (#[trigger] ids@[j])@ == listing.children@[j].data.id@,
        decreases listing.children.len() - i,
    {
        ids.push(listing.children[i].data.id.clone());
        i += 1;
    }
    assert(ids.deep_view() =~= ids_of(listing.children@));
    ids
}

/// The identifiers of the replies to the things that `listing` holds.
pub fn reply_ids(listing: &RedditListing<RedditMessageish>) -> (ids: Vec<String>)
    ensures
        ids.deep_view() == reply_ids_of(listing.children@),
{
    let mut ids: Vec<String> = Vec::new();
    let mut i: usize = 0;
    while i < listing.children.len()
        invariant
            i <= listing.children.len(),
            ids.deep_view() == reply_ids_of(listing.children@.take(i as int)),
        decreases listing.children.len() - i,
    {
        let replies = &listing.children[i].data.replies.data;
        let ghost before = ids.deep_view();
        let mut k: usize = 0;
        while k < replies.children.len()
            invariant
                k <= replies.children.len(),
                ids.deep_view() == before + replies_of(replies.children@.take(k as int)),
            decreases replies.children.len() - k,
        {
            let ghost held = ids.deep_view();
            ids.push(replies.children[k].data.id.clone());
            proof {
                assert(ids.deep_view() =~= held.push(replies.children@[k as int].data.id@));
                assert(replies_of(replies.children@.take(k + 1)) =~= replies_of(
                    replies.children@.take(k as int),
                ).push(replies.children@[k as int].data.id@));
            }
            k += 1;
        }
        proof {
            assert(replies.children@.take(k as int) =~= replies.children@);
            assert(listing.children@.take(i + 1).drop_last() =~= listing.children@.take(i as int));
        }
        i += 1;
    }
    assert(listing.children@.take(i as int) =~= listing.children@);
    ids
}

/// Checks the listings of one subreddit: the modqueue and the inbox, with
/// the replies to the messages of the inbox. See `check_batches`.
pub fn check_listings(
    history: &mut History,
    modqueue: &RedditListing<RedditMessageish>,
    inbox: &RedditListing<RedditMessageish>,
    now: u64,
) -> (classes: Vec<NotificationClass>)
    requires
        old(history).well_formed(),
    ensures
        final(history).well_formed(),
        final(history).limit() == old(history).limit(),
        classes@ == reported(
            any_unrecorded(old(history).ledger(REDDIT_POOL@), ids_of(modqueue.children@)),
            any_unrecorded(
                marked_all(
                    old(history).ledger(REDDIT_POOL@),
                    ids_of(modqueue.children@),
                    now,
                    old(history).limit() as nat,
                ),
                ids_of(inbox.children@),
            ),
            any_unrecorded(
                marked_all(
                    marked_all(
                        old(history).ledger(REDDIT_POOL@),
                        ids_of(modqueue.children@),
                        now,
                        old(history).limit() as nat,
                    ),
                    ids_of(inbox.children@),
                    now,
                    old(history).limit() as nat,
                ),
                reply_ids_of(inbox.children@),
            ),
        ),
        final(history).ledger(REDDIT_POOL@) == checked(
            old(history).ledger(REDDIT_POOL@),
            ids_of(modqueue.children@),
            ids_of(inbox.children@),
            reply_ids_of(inbox.children@),
            now,
            old(history).limit() as nat,
        ),
        forall|other: Seq<char>|
            other != REDDIT_POOL@ ==> final(history).ledger(other) == old(history).ledger(other),
{
    let queued = listing_ids(modqueue);
    let mailed = listing_ids(inbox);
    let replied = reply_ids(inbox);
    check_batches(history, &queued, &mailed, &replied, now)
}

/// Why the poller does not start.
#[derive(Debug, Clone, Copy, PartialEq, Eq, Structural)]
pub enum PollRefusal {
    /// Polling is switched off.
    Disabled,
    /// The interval between two checks is shorter than a minute.
    IntervalTooShort,
}

/// The time between two checks in seconds, for an interval of `minutes`
/// minutes. A poller that is switched off is refused, and so is one that
/// would check more than once a minute.
pub fn check_interval_secs(enabled: bool, minutes: u64) -> (interval: Result<u64, PollRefusal>)
    requires
        60 * minutes <= u64::MAX,
    ensures
        !enabled ==> interval == Err::<u64, PollRefusal>(PollRefusal::Disabled),
        enabled && minutes == 0 ==> interval == Err::<u64, PollRefusal>(
            PollRefusal::IntervalTooShort,
        ),
        enabled && minutes > 0 ==> interval == Ok::<u64, PollRefusal>((60 * minutes) as u64),
{
    if !enabled {
        return Err(PollRefusal::Disabled);
    }
    let interval = 60 * minutes;
    if interval < 60 {
        return Err(PollRefusal::IntervalTooShort);
    }
    Ok(interval)
}

/// How long the poller sleeps when `elapsed` seconds of an interval of
/// `interval` seconds have gone by: to the end of the interval, and never
/// less than a second, also where the interval is over already.
pub fn next_sleep_secs(interval: u64, elapsed: u64) -> (sleep: u64)
    ensures
        sleep == if interval - elapsed >= 1 { interval - elapsed } else { 1 },
{
    if elapsed < interval {
        interval - elapsed
    } else {
        1
    }
}

/// Whether a check is due when `elapsed` seconds have gone by since the
/// last one.
pub fn check_is_due(interval: u64, elapsed: u64) -> (due: bool)
    ensures
        due == (elapsed >= interval),
{
    elapsed >= interval
}

/// The longest credentials, in bytes, that are put into a header.
pub const MAX_CREDENTIAL_BYTES: usize = 0x4000_0000;

/// The text that `base64::encode` gives for the bytes `input`: their
/// base64 form in the standard alphabet, with padding.
pub uninterp spec fn base64_text(input: Seq<u8>) -> Seq<char>;

/// Calls `base64::encode` on the bytes of `input`. The result is the
/// encoding of these bytes and of nothing else; what it looks like is
/// left to `base64_text`. The bound keeps the size of the encoding, four
/// bytes for every three, within what can be allocated: beyond it
/// `encode` panics.
#[verifier::external_body]
fn encode_base64(input: &str) -> (text: String)
    requires
        input.spec_bytes().len() <= MAX_CREDENTIAL_BYTES,
    ensures
        text@ == base64_text(input.spec_bytes()),
{
    base64::encode(input)
}

/// The value of an `Authorization` header of the scheme `Basic` for
/// credentials whose encoded form is `encoded`.
pub fn basic_header(encoded: &str) -> (header: String)
    ensures
        header@ == "Basic "@ + encoded@,
{
    String::from_str("Basic ").concat(encoded)
}

/// The value of an `Authorization` header of the scheme `Bearer` for the
/// access token `token`.
pub fn bearer_header(token: &str) -> (header: String)
    ensures
        header@ == "Bearer "@ + token@,
{
    String::from_str("Bearer ").concat(token)
}

/// The credentials of a client as they are encoded: the identifier, a
/// colon, the secret.
pub open spec fn credentials(client_id: Seq<char>, client_secret: Seq<char>) -> Seq<char> {
    client_id + ":"@ + client_secret
}

/// The value of the `Authorization` header by which a client logs in: the
/// scheme `Basic` with the encoded credentials. There is none for
/// credentials of more than `MAX_CREDENTIAL_BYTES` bytes.
pub fn basic_authorization(client_id: &str, client_secret: &str) -> (header: Option<String>)
    ensures
        header is Some <==> vstd::utf8::encode_utf8(credentials(client_id@, client_secret@)).len()
            <= MAX_CREDENTIAL_BYTES,
        header matches Some(value) ==> value@ == "Basic "@ + base64_text(
            vstd::utf8::encode_utf8(credentials(client_id@, client_secret@)),
        ),
{
    let joined = String::from_str(client_id).concat(":").concat(client_secret);
    if joined.as_str().as_bytes().len() <= MAX_CREDENTIAL_BYTES {
        let encoded = encode_base64(joined.as_str());
        Some(basic_header(encoded.as_str()))
    } else {
        None
    }
}

} // verus!
