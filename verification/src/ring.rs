//! The in-memory cache of recent messages: a fixed-capacity buffer with the
//! newest message at the front. Nothing in it outlives the process.

use vstd::prelude::*;

verus! {

/// What is remembered of one message.
#[derive(Debug, Clone, PartialEq, Eq)]
pub struct CachedMessage {
    pub id: u64,
    pub author_id: u64,
    pub content: String,
    pub attachments: Vec<String>,
    pub edited_timestamp: Option<i64>,
}

/// A partial edit of a message: every field that is `Some` replaces the
/// cached one, every field that is `None` leaves it alone.
#[derive(Debug, Clone, PartialEq, Eq)]
pub struct MessageUpdate {
    pub id: u64,
    pub content: Option<String>,
    pub attachments: Option<Vec<String>>,
    pub edited_timestamp: Option<i64>,
}

/// The message `message` after the edit `update` has been merged into it.
pub open spec fn merged(message: CachedMessage, update: MessageUpdate) -> CachedMessage {
    CachedMessage {
        id: message.id,
        author_id: message.author_id,
        content: match update.content {
            Some(content) => content,
            None => message.content,
        },
        attachments: match update.attachments {
            Some(attachments) => attachments,
            None => message.attachments,
        },
        edited_timestamp: match update.edited_timestamp {
            Some(at) => Some(at),
            None => message.edited_timestamp,
        },
    }
}

/// The first `limit` elements of `s`, or all of `s` where it has fewer.
pub open spec fn keep_front<T>(s: Seq<T>, limit: nat) -> Seq<T> {
    if s.len() <= limit {
        s
    } else {
        s.take(limit as int)
    }
}

/// Whether some message of `s` has the identifier `id`.
pub open spec fn holds_id(s: Seq<CachedMessage>, id: u64) -> bool {
    exists|i: int| 0 <= i < s.len() && (#[trigger] s[i]).id == id
}

/// Whether `i` is the position of the first message of `s` with the
/// identifier `id`.
pub open spec fn is_first_with_id(s: Seq<CachedMessage>, id: u64, i: int) -> bool {
    &&& 0 <= i < s.len()
    &&& s[i].id == id
    &&& forall|j: int| 0 <= j < i ==> (#[trigger] s[j]).id != id
}

/// The identifiers of the messages of `s`, in the same order.
pub open spec fn ids_of(s: Seq<CachedMessage>) -> Seq<u64> {
    Seq::new(s.len(), |i: int| s[i].id)
}

/// A buffer of at most `limit()` messages, newest first.
pub struct MessageCache {
    capacity: usize,
    entries: Vec<CachedMessage>,
}

impl View for MessageCache {
    type V = Seq<CachedMessage>;

    /// The cached messages, newest first.
    closed spec fn view(&self) -> Seq<CachedMessage> {
        self.entries@
    }
}

impl MessageCache {
    /// The number of messages the buffer may hold.
    pub closed spec fn limit(&self) -> usize {
        self.capacity
    }

    /// The buffer never holds more than its capacity.
    pub open spec fn well_formed(&self) -> bool {
        self@.len() <= self.limit()
    }

    /// An empty buffer for `capacity` messages.
    pub fn new(capacity: usize) -> (cache: Self)
        ensures
            cache.well_formed(),
            cache.limit() == capacity,
            cache@ == Seq::<CachedMessage>::empty(),
    {
        MessageCache { capacity, entries: Vec::new() }
    }

    pub fn capacity(&self) -> (capacity: usize)
        ensures
            capacity == self.limit(),
    {
        self.capacity
    }

    pub fn len(&self) -> (len: usize)
        ensures
            len == self@.len(),
    {
        self.entries.len()
    }

    pub fn is_empty(&self) -> (empty: bool)
        ensures
            empty == (self@.len() == 0),
    {
        self.entries.len() == 0
    }

    /// Puts `message` at the front. Where the buffer was full, the rearmost
    /// message leaves it, without notice.
    pub fn insert(&mut self, message: CachedMessage)
        requires
            old(self).well_formed(),
        ensures
            final(self).well_formed(),
            final(self).limit() == old(self).limit(),
            final(self)@ == keep_front(seq![message] + old(self)@, old(self).limit() as nat),
    {
        self.entries.insert(0, message);
        self.entries.truncate(self.capacity);
        proof {
            let grown = seq![message] + old(self)@;
            assert(old(self)@.insert(0, message) =~= grown);
            if grown.len() > self.capacity {
                assert(grown.subrange(0, self.capacity as int) =~= grown.take(self.capacity as int));
            }
        }
    }

    /// Merges `update` into the first message with its identifier. Where no
    /// message has it, nothing changes.
    pub fn apply_update(&mut self, update: MessageUpdate)
        requires
            old(self).well_formed(),
        ensures
            final(self).well_formed(),
            final(self).limit() == old(self).limit(),
            !holds_id(old(self)@, update.id) ==> final(self)@ == old(self)@,
            forall|i: int|
                is_first_with_id(old(self)@, update.id, i) ==> final(self)@ == old(self)@.update(
                    i,
                    merged(old(self)@[i], update),
                ),
    {
        let mut i: usize = 0;
        while i < self.entries.len()
            invariant
                i <= self.entries.len(),
                *self == *old(self),
                old(self).well_formed(),
                forall|j: int| 0 <= j < i ==> (#[trigger] self.entries@[j]).id != update.id,
            decreases self.entries.len() - i,
        {
            if self.entries[i].id == update.id {
                let MessageUpdate { id: _, content, attachments, edited_timestamp } = update;
                if let Some(content) = content {
                    self.entries[i].content = content;
                }
                if let Some(attachments) = attachments {
                    self.entries[i].attachments = attachments;
                }
                if let Some(at) = edited_timestamp {
                    self.entries[i].edited_timestamp = Some(at);
                }
                proof {
                    assert(is_first_with_id(old(self)@, update.id, i as int));
                    assert(self@ =~= old(self)@.update(
                        i as int,
                        merged(old(self)@[i as int], update),
                    ));
                    assert forall|k: int| is_first_with_id(old(self)@, update.id, k) implies k
                        == i by {
                        if k < i {
                            assert(old(self)@[k].id != update.id);
                        } else if k > i {
                            assert(old(self)@[i as int].id == update.id);
                        }
                    }
                }
                return ;
            }
            i += 1;
        }
        proof {
            assert forall|k: int| !is_first_with_id(old(self)@, update.id, k) by {
                if 0 <= k < old(self)@.len() {
                    assert(old(self)@[k].id != update.id);
                }
            }
        }
    }

    /// The first message with the identifier `id`, if the buffer holds one.
    pub fn lookup(&self, id: u64) -> (found: Option<&CachedMessage>)
        ensures
            found is None <==> !holds_id(self@, id),
            found matches Some(message) ==> exists|i: int|
                is_first_with_id(self@, id, i) && *message == self@[i],
    {
        let mut i: usize = 0;
        while i < self.entries.len()
            invariant
                i <= self.entries.len(),
                forall|j: int| 0 <= j < i ==> (#[trigger] self.entries@[j]).id != id,
            decreases self.entries.len() - i,
        {
            if self.entries[i].id == id {
                proof {
                    assert(is_first_with_id(self@, id, i as int));
                }
                return Some(&self.entries[i]);
            }
            i += 1;
        }
        None
    }

    /// The identifiers of the cached messages, newest first.
    pub fn ids(&self) -> (ids: Vec<u64>)
        ensures
            ids@ == ids_of(self@),
    {
        let mut ids: Vec<u64> = Vec::new();
        let mut i: usize = 0;
        while i < self.entries.len()
            invariant
                i <= self.entries.len(),
                ids@ == ids_of(self@.take(i as int)),
            decreases self.entries.len() - i,
        {
            ids.push(self.entries[i].id);
            proof {
                assert(ids@ =~= ids_of(self@.take(i + 1)));
            }
            i += 1;
        }
        proof {
            assert(self@.take(i as int) =~= self@);
        }
        ids
    }
}

} // verus!
