//! The ledger of identifiers that were already seen. It keeps, for every
//! pool, the `limit` most recently marked identifiers; whatever is older
//! leaves the ledger and counts as new when it turns up again.

use vstd::prelude::*;

verus! {

/// One line of a ledger: an identifier, and the time at which it was last
/// marked.
pub type Seen = (Seq<char>, u64);

/// Whether the ledger `s` has a line for `id`.
pub open spec fn recorded(s: Seq<Seen>, id: Seq<char>) -> bool {
    exists|i: int| 0 <= i < s.len() && (#[trigger] s[i]).0 == id
}

/// No identifier has two lines.
pub open spec fn distinct_ids(s: Seq<Seen>) -> bool {
    forall|i: int, j: int| 0 <= i < j < s.len() ==> (#[trigger] s[i]).0 != (#[trigger] s[j]).0
}

/// The lines stand in the order of their times, the oldest first.
pub open spec fn oldest_first(s: Seq<Seen>) -> bool {
    forall|i: int, j: int| 0 <= i <= j < s.len() ==> (#[trigger] s[i]).1 <= (#[trigger] s[j]).1
}

/// A ledger as the operations below keep it: at most `limit` lines, one
/// line for each identifier, the oldest first.
pub open spec fn orderly(s: Seq<Seen>, limit: nat) -> bool {
    &&& s.len() <= limit
    &&& distinct_ids(s)
    &&& oldest_first(s)
}

/// The place of a line for `id` in `s`.
pub open spec fn position_of(s: Seq<Seen>, id: Seq<char>) -> int {
    choose|i: int| 0 <= i < s.len() && (#[trigger] s[i]).0 == id
}

/// The ledger `s` with the line for `id` taken out.
pub open spec fn without(s: Seq<Seen>, id: Seq<char>) -> Seq<Seen> {
    if recorded(s, id) {
        s.remove(position_of(s, id))
    } else {
        s
    }
}

/// The place at which a line marked at `now` enters `s`: behind the last
/// line that is not newer. Among lines of one time, the one that entered
/// first stays in front.
pub open spec fn rank(s: Seq<Seen>, now: u64) -> int
    decreases s.len(),
{
    if s.len() == 0 || s.last().1 <= now {
        s.len() as int
    } else {
        rank(s.drop_last(), now)
    }
}

/// The ledger `s` with a line for `id`, marked at `now`, put in its place.
pub open spec fn placed(s: Seq<Seen>, id: Seq<char>, now: u64) -> Seq<Seen> {
    s.insert(rank(s, now), (id, now))
}

/// The `limit` lines at the rear of `s`, or all of `s` where it has fewer.
pub open spec fn keep_newest(s: Seq<Seen>, limit: nat) -> Seq<Seen> {
    if s.len() <= limit {
        s
    } else {
        s.skip(s.len() - limit)
    }
}

/// The ledger after `id` was marked at `now`: the line for `id` is new or
/// renewed, and the lines beyond `limit` have left, the oldest first.
pub open spec fn marked(s: Seq<Seen>, id: Seq<char>, now: u64, limit: nat) -> Seq<Seen> {
    keep_newest(placed(without(s, id), id, now), limit)
}

/// Whether some identifier of `ids` has no line in `s`.
pub open spec fn any_unrecorded(s: Seq<Seen>, ids: Seq<Seq<char>>) -> bool {
    exists|i: int| 0 <= i < ids.len() && !recorded(s, #[trigger] ids[i])
}

/// The ledger after every mark of `marks` was made, in the order of
/// `marks`: each is an identifier and the time at which it is marked.
pub open spec fn marked_each(s: Seq<Seen>, marks: Seq<Seen>, limit: nat) -> Seq<Seen>
    decreases marks.len(),
{
    if marks.len() == 0 {
        s
    } else {
        marked(marked_each(s, marks.drop_last(), limit), marks.last().0, marks.last().1, limit)
    }
}

/// The marks of a batch: every identifier of `ids`, at the time `now`.
pub open spec fn stamped(ids: Seq<Seq<char>>, now: u64) -> Seq<Seen> {
    Seq::new(ids.len(), |i: int| (ids[i], now))
}

/// The ledger after every identifier of `ids` was marked at `now`, in the
/// order of `ids`.
pub open spec fn marked_all(s: Seq<Seen>, ids: Seq<Seq<char>>, now: u64, limit: nat) -> Seq<Seen> {
    marked_each(s, stamped(ids, now), limit)
}

/// In a ledger without double lines, the line for `id` is where it is found.
pub proof fn lemma_position_of(s: Seq<Seen>, id: Seq<char>, i: int)
    requires
        distinct_ids(s),
        0 <= i < s.len(),
        s[i].0 == id,
    ensures
        recorded(s, id),
        position_of(s, id) == i,
        without(s, id) == s.remove(i),
{
    let k = position_of(s, id);
    assert(0 <= k < s.len() && s[k].0 == id);
    if k < i {
        assert(s[k].0 != s[i].0);
    } else if i < k {
        assert(s[i].0 != s[k].0);
    }
}

/// Taking the line for `id` out keeps a ledger orderly and leaves no line
/// for `id`; every other identifier is recorded as before.
pub proof fn lemma_without(s: Seq<Seen>, id: Seq<char>, limit: nat)
    requires
        orderly(s, limit),
    ensures
        orderly(without(s, id), limit),
        !recorded(without(s, id), id),
        recorded(s, id) ==> without(s, id).len() == s.len() - 1,
        forall|other: Seq<char>| other != id ==> (recorded(without(s, id), other) <==> recorded(s, other)),
{
    let w = without(s, id);
    if recorded(s, id) {
        let k = position_of(s, id);
        assert forall|i: int, j: int| 0 <= i < j < w.len() implies (#[trigger] w[i]).0 != (
        #[trigger] w[j]).0 by {
            let a = if i < k { i } else { i + 1 };
            let b = if j < k { j } else { j + 1 };
            assert(w[i] == s[a] && w[j] == s[b]);
        }
        assert forall|i: int, j: int| 0 <= i <= j < w.len() implies (#[trigger] w[i]).1 <= (
        #[trigger] w[j]).1 by {
            let a = if i < k { i } else { i + 1 };
            let b = if j < k { j } else { j + 1 };
            assert(w[i] == s[a] && w[j] == s[b]);
        }
        assert forall|i: int| 0 <= i < w.len() implies (#[trigger] w[i]).0 != id by {
            let a = if i < k { i } else { i + 1 };
            assert(w[i] == s[a]);
            if a < k {
                assert(s[a].0 != s[k].0);
            } else {
                assert(s[k].0 != s[a].0);
            }
        }
        assert forall|other: Seq<char>| other != id implies (recorded(w, other) <==> recorded(
            s,
            other,
        )) by {
            if recorded(w, other) {
                let i = choose|i: int| 0 <= i < w.len() && (#[trigger] w[i]).0 == other;
                let a = if i < k { i } else { i + 1 };
                assert(s[a].0 == other);
            }
            if recorded(s, other) {
                let a = choose|a: int| 0 <= a < s.len() && (#[trigger] s[a]).0 == other;
                let i = if a < k { a } else { a - 1 };
                assert(w[i].0 == other);
            }
        }
    }
}

/// Where every line of `s` from `p` on is newer than `now`, a line marked
/// at `now` enters `s` where it would enter the first `p` lines.
pub proof fn lemma_rank_front(s: Seq<Seen>, now: u64, p: int)
    requires
        0 <= p <= s.len(),
        forall|j: int| p <= j < s.len() ==> (#[trigger] s[j]).1 > now,
    ensures
        rank(s, now) == rank(s.take(p), now),
    decreases s.len() - p,
{
    if p == s.len() {
        assert(s.take(p) =~= s);
    } else {
        assert(s.last().1 > now);
        lemma_rank_front(s.drop_last(), now, p);
        assert(s.drop_last().take(p) =~= s.take(p));
    }
}

/// The place of a new line splits an ordered ledger: nothing in front of
/// it is newer than `now`, everything behind it is.
pub proof fn lemma_rank_splits(s: Seq<Seen>, now: u64)
    requires
        oldest_first(s),
    ensures
        0 <= rank(s, now) <= s.len(),
        forall|j: int| 0 <= j < rank(s, now) ==> (#[trigger] s[j]).1 <= now,
        forall|j: int| rank(s, now) <= j < s.len() ==> (#[trigger] s[j]).1 > now,
    decreases s.len(),
{
    if s.len() == 0 {
    } else if s.last().1 <= now {
        assert forall|j: int| 0 <= j < s.len() implies (#[trigger] s[j]).1 <= now by {
            assert(s[j].1 <= s[s.len() - 1].1);
        }
    } else {
        let front = s.drop_last();
        assert forall|i: int, j: int| 0 <= i <= j < front.len() implies (#[trigger] front[i]).1 <= (
        #[trigger] front[j]).1 by {
            assert(front[i] == s[i] && front[j] == s[j]);
        }
        lemma_rank_splits(front, now);
        assert forall|j: int| 0 <= j < rank(s, now) implies (#[trigger] s[j]).1 <= now by {
            assert(front[j] == s[j]);
        }
        assert forall|j: int| rank(s, now) <= j < s.len() implies (#[trigger] s[j]).1 > now by {
            if j < front.len() {
                assert(front[j] == s[j]);
            }
        }
    }
}

/// Putting a line for an identifier that has none keeps the ledger
/// ordered and free of double lines, and records the identifier.
pub proof fn lemma_placed(s: Seq<Seen>, id: Seq<char>, now: u64)
    requires
        distinct_ids(s),
        oldest_first(s),
        !recorded(s, id),
    ensures
        distinct_ids(placed(s, id, now)),
        oldest_first(placed(s, id, now)),
        placed(s, id, now).len() == s.len() + 1,
        recorded(placed(s, id, now), id),
        forall|other: Seq<char>| recorded(s, other) ==> recorded(placed(s, id, now), other),
        forall|other: Seq<char>|
            other != id && recorded(placed(s, id, now), other) ==> recorded(s, other),
{
    lemma_rank_splits(s, now);
    let p = rank(s, now);
    let t = placed(s, id, now);
    assert forall|i: int| 0 <= i < t.len() implies (#[trigger] t[i]) == (if i < p {
        s[i]
    } else if i == p {
        (id, now)
    } else {
        s[i - 1]
    }) by {}
    assert forall|i: int, j: int| 0 <= i < j < t.len() implies (#[trigger] t[i]).0 != (
    #[trigger] t[j]).0 by {
        let a = if i < p { i } else { i - 1 };
        let b = if j < p { j } else { j - 1 };
        if i != p && j != p {
            assert(s[a].0 != s[b].0);
        } else if i == p {
            assert(s[b].0 != id);
        } else {
            assert(s[a].0 != id);
        }
    }
    assert forall|i: int, j: int| 0 <= i <= j < t.len() implies (#[trigger] t[i]).1 <= (
    #[trigger] t[j]).1 by {
        let a = if i < p { i } else { i - 1 };
        let b = if j < p { j } else { j - 1 };
        if i != p && j != p {
            assert(s[a].1 <= s[b].1);
        } else if i == p && j != p {
            assert(s[b].1 > now);
        } else if j == p && i != p {
            assert(s[a].1 <= now);
        }
    }
    assert(t[p].0 == id);
    assert forall|other: Seq<char>| recorded(s, other) implies recorded(t, other) by {
        let a = choose|a: int| 0 <= a < s.len() && (#[trigger] s[a]).0 == other;
        let i = if a < p { a } else { a + 1 };
        assert(t[i].0 == other);
    }
    assert forall|other: Seq<char>| other != id && recorded(t, other) implies recorded(
        s,
        other,
    ) by {
        let i = choose|i: int| 0 <= i < t.len() && (#[trigger] t[i]).0 == other;
        let a = if i < p { i } else { i - 1 };
        assert(s[a].0 == other);
    }
}

/// Dropping the oldest lines keeps a ledger ordered and free of double
/// lines, and brings it within the limit.
pub proof fn lemma_keep_newest(s: Seq<Seen>, limit: nat)
    requires
        distinct_ids(s),
        oldest_first(s),
    ensures
        orderly(keep_newest(s, limit), limit),
{
    let t = keep_newest(s, limit);
    if s.len() > limit {
        let d = s.len() - limit;
        assert forall|i: int, j: int| 0 <= i < j < t.len() implies (#[trigger] t[i]).0 != (
        #[trigger] t[j]).0 by {
            assert(t[i] == s[i + d] && t[j] == s[j + d]);
        }
        assert forall|i: int, j: int| 0 <= i <= j < t.len() implies (#[trigger] t[i]).1 <= (
        #[trigger] t[j]).1 by {
            assert(t[i] == s[i + d] && t[j] == s[j + d]);
        }
    }
}

/// Marking keeps a ledger orderly.
pub proof fn lemma_marked_orderly(s: Seq<Seen>, id: Seq<char>, now: u64, limit: nat)
    requires
        orderly(s, limit),
    ensures
        orderly(marked(s, id, now, limit), limit),
{
    lemma_without(s, id, limit);
    lemma_placed(without(s, id), id, now);
    lemma_keep_newest(placed(without(s, id), id, now), limit);
}

struct SeenEntry {
    id: String,
    last_seen: u64,
}

/// The ledger of one pool.
pub struct HistoryWindow {
    capacity: usize,
    entries: Vec<SeenEntry>,
}

impl View for HistoryWindow {
    type V = Seq<Seen>;

    /// The lines of the ledger, the oldest first.
    closed spec fn view(&self) -> Seq<Seen> {
        Seq::new(self.entries@.len(), |i: int| (self.entries@[i].id@, self.entries@[i].last_seen))
    }
}

impl HistoryWindow {
    /// The number of identifiers the ledger remembers.
    pub closed spec fn limit(&self) -> usize {
        self.capacity
    }

    pub open spec fn well_formed(&self) -> bool {
        orderly(self@, self.limit() as nat)
    }

    /// An empty ledger that remembers `capacity` identifiers. With a
    /// capacity of zero it never remembers anything.
    pub fn new(capacity: usize) -> (window: Self)
        ensures
            window.well_formed(),
            window.limit() == capacity,
            window@ == Seq::<Seen>::empty(),
    {
        let window = HistoryWindow { capacity, entries: Vec::new() };
        assert(window@ =~= Seq::<Seen>::empty());
        window
    }

    pub fn capacity(&self) -> (capacity: usize)
        ensures
            capacity == self.limit(),
    {
        self.capacity
    }

    pub fn len(&self) -> (len: usize)
        ensures
            len == self@.len(),
    {
        self.entries.len()
    }

    /// Where the line for `wanted` stands, if there is one.
    fn position(&self, wanted: &String) -> (found: Option<usize>)
        ensures
            found is None <==> !recorded(self@, wanted@),
            found matches Some(i) ==> i < self@.len() && self@[i as int].0 == wanted@,
    {
        let mut i: usize = 0;
        while i < self.entries.len()
            invariant
                i <= self.entries.len(),
                forall|j: int| 0 <= j < i ==> (#[trigger] self@[j]).0 != wanted@,
            decreases self.entries.len() - i,
        {
            if self.entries[i].id == *wanted {
                assert(self@[i as int].0 == wanted@);
                return Some(i);
            }
            i += 1;
        }
        None
    }

    /// Whether `id` is recorded.
    pub fn is_seen(&self, id: &str) -> (seen: bool)
        ensures
            seen == recorded(self@, id@),
    {
        let wanted = id.to_owned();
        self.position(&wanted).is_some()
    }

    /// The time at which `id` was last marked, if it is recorded.
    pub fn last_seen(&self, id: &str) -> (at: Option<u64>)
        ensures
            at is None <==> !recorded(self@, id@),
            at matches Some(time) ==> exists|i: int|
                0 <= i < self@.len() && #[trigger] self@[i] == (id@, time),
    {
        let wanted = id.to_owned();
        match self.position(&wanted) {
            Some(i) => {
                assert(self@[i as int] == (id@, self.entries@[i as int].last_seen));
                Some(self.entries[i].last_seen)
            },
            None => None,
        }
    }

    /// Records `id` as seen at `now`. A line that `id` had is renewed, not
    /// doubled; then the oldest lines beyond the capacity leave.
    pub fn mark_seen(&mut self, id: &str, now: u64)
        requires
            old(self).well_formed(),
        ensures
            final(self).well_formed(),
            final(self).limit() == old(self).limit(),
            final(self)@ == marked(old(self)@, id@, now, old(self).limit() as nat),
    {
        let wanted = id.to_owned();
        let ghost limit = self.capacity as nat;
        let ghost before = self@;
        match self.position(&wanted) {
            Some(i) => {
                proof {
                    lemma_position_of(before, id@, i as int);
                }
                self.entries.remove(i);
                assert(self@ =~= before.remove(i as int));
            },
            None => {},
        }
        let ghost rest = self@;
        proof {
            assert(rest == without(before, id@));
            lemma_without(before, id@, limit);
        }
        let mut p: usize = self.entries.len();
        while p > 0 && self.entries[p - 1].last_seen > now
            invariant
                p <= self.entries.len(),
                self@ == rest,
                forall|j: int| p <= j < rest.len() ==> (#[trigger] rest[j]).1 > now,
            decreases p,
        {
            p -= 1;
        }
        proof {
            lemma_rank_front(rest, now, p as int);
            if p > 0 {
                assert(rest.take(p as int).last() == rest[p - 1]);
            }
            assert(rank(rest, now) == p);
            lemma_placed(rest, id@, now);
        }
        self.entries.insert(p, SeenEntry { id: wanted, last_seen: now });
        let ghost grown = self@;
        assert(grown =~= placed(rest, id@, now));
        if self.entries.len() > self.capacity {
            self.entries.remove(0);
            assert(self@ =~= grown.skip(1));
        }
        proof {
            assert(self@ == keep_newest(grown, limit));
            lemma_keep_newest(grown, limit);
        }
    }

    /// Whether some identifier of `ids` is not recorded: whether the batch
    /// holds anything new.
    pub fn contains_unseen(&self, ids: &Vec<String>) -> (unseen: bool)
        ensures
            unseen == any_unrecorded(self@, ids.deep_view()),
    {
        let mut i: usize = 0;
        while i < ids.len()
            invariant
                i <= ids.len(),
                forall|j: int| 0 <= j < i ==> recorded(self@, #[trigger] ids.deep_view()[j]),
            decreases ids.len() - i,
        {
            let found = self.position(&ids[i]);
            assert(ids.deep_view()[i as int] == ids[i as int]@);
            if found.is_none() {
                return true;
            }
            i += 1;
        }
        false
    }

    /// Tells whether the batch `ids` holds anything new, and then records
    /// every identifier of it as seen at `now`. The answer is that of
    /// `contains_unseen` before anything was marked.
    pub fn check_and_mark(&mut self, ids: &Vec<String>, now: u64) -> (unseen: bool)
        requires
            old(self).well_formed(),
        ensures
            final(self).well_formed(),
            final(self).limit() == old(self).limit(),
            unseen == any_unrecorded(old(self)@, ids.deep_view()),
            final(self)@ == marked_all(old(self)@, ids.deep_view(), now, old(self).limit() as nat),
    {
        let unseen = self.contains_unseen(ids);
        let ghost all = ids.deep_view();
        let mut i: usize = 0;
        while i < ids.len()
            invariant
                i <= ids.len(),
                all == ids.deep_view(),
                self.well_formed(),
                self.limit() == old(self).limit(),
                self@ == marked_all(old(self)@, all.take(i as int), now, old(self).limit() as nat),
            decreases ids.len() - i,
        {
            proof {
                let next = stamped(all.take(i + 1), now);
                assert(all[i as int] == ids[i as int]@);
                assert(next.drop_last() =~= stamped(all.take(i as int), now));
                assert(next.last() == (ids[i as int]@, now));
            }
            self.mark_seen(ids[i].as_str(), now);
            i += 1;
        }
        assert(all.take(i as int) =~= all);
        unseen
    }

    /// The recorded identifiers, the oldest first.
    pub fn ids(&self) -> (ids: Vec<String>)
        ensures
            ids.deep_view() == Seq::new(self@.len(), |i: int| self@[i].0),
    {
        let mut ids: Vec<String> = Vec::new();
        let mut i: usize = 0;
        while i < self.entries.len()
            invariant
                i <= self.entries.len(),
                ids@.len() == i,
                forall|j: int| 0 <= j < i ==> (#[trigger] ids@[j])@ == self@[j].0,
            decreases self.entries.len() - i,
        {
            ids.push(self.entries[i].id.clone());
            i += 1;
        }
        assert(ids.deep_view() =~= Seq::new(self@.len(), |i: int| self@[i].0));
        ids
    }
}

struct Pool {
    name: String,
    window: HistoryWindow,
}

/// The ledgers of all pools. Every pool has a ledger of its own, with the
/// same limit: what is marked in one pool never drives an identifier out
/// of another.
pub struct History {
    capacity: usize,
    pools: Vec<Pool>,
}

impl History {
    /// The number of identifiers that each pool remembers.
    pub closed spec fn limit(&self) -> usize {
        self.capacity
    }

    /// Whether the pool `pool` has a ledger at the place `i`.
    spec fn stands_at(&self, pool: Seq<char>, i: int) -> bool {
        0 <= i < self.pools@.len() && self.pools@[i].name@ == pool
    }

    /// The ledger of the pool `pool`, the oldest line first. A pool in
    /// which nothing was marked yet has the empty ledger.
    pub closed spec fn ledger(&self, pool: Seq<char>) -> Seq<Seen> {
        if exists|i: int| self.stands_at(pool, i) {
            self.pools@[choose|i: int| self.stands_at(pool, i)].window@
        } else {
            Seq::empty()
        }
    }

    pub closed spec fn well_formed(&self) -> bool {
        &&& forall|i: int|
            0 <= i < self.pools@.len() ==> (#[trigger] self.pools@[i]).window.well_formed()
                && self.pools@[i].window.limit() == self.capacity
        &&& forall|i: int, j: int|
            0 <= i < j < self.pools@.len() ==> (#[trigger] self.pools@[i]).name@ != (
            #[trigger] self.pools@[j]).name@
    }

    /// Every pool's ledger is orderly within the common limit.
    pub proof fn lemma_ledger_orderly(&self, pool: Seq<char>)
        requires
            self.well_formed(),
        ensures
            orderly(self.ledger(pool), self.limit() as nat),
    {
    }

    /// Where the pool `pool` stands at `i`, its ledger is the one there.
    proof fn lemma_stands_at(&self, pool: Seq<char>, i: int)
        requires
            self.well_formed(),
            self.stands_at(pool, i),
        ensures
            self.ledger(pool) == self.pools@[i].window@,
    {
        let k = choose|k: int| self.stands_at(pool, k);
        if k < i {
            assert(self.pools@[k].name@ != self.pools@[i].name@);
        } else if i < k {
            assert(self.pools@[i].name@ != self.pools@[k].name@);
        }
    }

    /// A history without any pool, in which each pool will remember
    /// `capacity` identifiers.
    pub fn new(capacity: usize) -> (history: Self)
        ensures
            history.well_formed(),
            history.limit() == capacity,
            forall|pool: Seq<char>| history.ledger(pool) == Seq::<Seen>::empty(),
    {
        History { capacity, pools: Vec::new() }
    }

    pub fn capacity(&self) -> (capacity: usize)
        ensures
            capacity == self.limit(),
    {
        self.capacity
    }

    /// Where the ledger of `wanted` stands, if the pool has one.
    fn pool_index(&self, wanted: &String) -> (found: Option<usize>)
        ensures
            found is None ==> forall|i: int| !self.stands_at(wanted@, i),
            found matches Some(i) ==> self.stands_at(wanted@, i as int),
    {
        let mut i: usize = 0;
        while i < self.pools.len()
            invariant
                i <= self.pools.len(),
                forall|j: int| 0 <= j < i ==> (#[trigger] self.pools@[j]).name@ != wanted@,
            decreases self.pools.len() - i,
        {
            if self.pools[i].name == *wanted {
                return Some(i);
            }
            i += 1;
        }
        None
    }

    /// Whether `id` is recorded in the pool `pool`.
    pub fn is_seen(&self, pool: &str, id: &str) -> (seen: bool)
        requires
            self.well_formed(),
        ensures
            seen == recorded(self.ledger(pool@), id@),
    {
        let wanted = pool.to_owned();
        match self.pool_index(&wanted) {
            Some(i) => {
                proof {
                    self.lemma_stands_at(pool@, i as int);
                }
                self.pools[i].window.is_seen(id)
            },
            None => false,
        }
    }

    /// Whether some identifier of `ids` is not recorded in the pool `pool`.
    /// To learn whether a batch holds anything new, ask before marking it.
    pub fn contains_unseen(&self, pool: &str, ids: &Vec<String>) -> (unseen: bool)
        requires
            self.well_formed(),
        ensures
            unseen == any_unrecorded(self.ledger(pool@), ids.deep_view()),
    {
        let wanted = pool.to_owned();
        match self.pool_index(&wanted) {
            Some(i) => {
                proof {
                    self.lemma_stands_at(pool@, i as int);
                }
                self.pools[i].window.contains_unseen(ids)
            },
            None => {
                proof {
                    if ids.len() > 0 {
                        assert(!recorded(Seq::<Seen>::empty(), ids.deep_view()[0]));
                    }
                }
                ids.len() > 0
            },
        }
    }

    /// The place of the ledger of `wanted`, which is made, empty, where the
    /// pool had none.
    fn pool_index_or_new(&mut self, wanted: String) -> (i: usize)
        requires
            old(self).well_formed(),
        ensures
            final(self).well_formed(),
            final(self).limit() == old(self).limit(),
            final(self).stands_at(wanted@, i as int),
            forall|pool: Seq<char>| final(self).ledger(pool) == old(self).ledger(pool),
    {
        match self.pool_index(&wanted) {
            Some(i) => i,
            None => {
                let window = HistoryWindow::new(self.capacity);
                self.pools.push(Pool { name: wanted, window });
                let i = self.pools.len() - 1;
                proof {
                    assert forall|k: int| 0 <= k < old(self).pools@.len() implies self.pools@[k]
                        == old(self).pools@[k] by {}
                    assert forall|a: int, b: int| 0 <= a < b < self.pools@.len() implies (
                    #[trigger] self.pools@[a]).name@ != (#[trigger] self.pools@[b]).name@ by {
                        if b == i {
                            assert(!old(self).stands_at(wanted@, a));
                        }
                    }
                    assert(self.well_formed());
                    assert(self.stands_at(wanted@, i as int));
                    assert forall|pool: Seq<char>| self.ledger(pool) == old(self).ledger(pool) by {
                        if pool == wanted@ {
                            self.lemma_stands_at(pool, i as int);
                        } else if exists|k: int| old(self).stands_at(pool, k) {
                            let k = choose|k: int| old(self).stands_at(pool, k);
                            assert(self.stands_at(pool, k));
                            self.lemma_stands_at(pool, k);
                        } else {
                            assert forall|k: int| !self.stands_at(pool, k) by {
                                if self.stands_at(pool, k) {
                                    assert(old(self).stands_at(pool, k));
                                }
                            }
                        }
                    }
                }
                i
            },
        }
    }

    /// Records `id` as seen at `now` in the pool `pool`, as
    /// `HistoryWindow::mark_seen` does in the ledger of one pool. The
    /// ledgers of all other pools stay as they are.
    pub fn mark_seen(&mut self, pool: &str, id: &str, now: u64)
        requires
            old(self).well_formed(),
        ensures
            final(self).well_formed(),
            final(self).limit() == old(self).limit(),
            final(self).ledger(pool@) == marked(
                old(self).ledger(pool@),
                id@,
                now,
                old(self).limit() as nat,
            ),
            forall|other: Seq<char>|
                other != pool@ ==> final(self).ledger(other) == old(self).ledger(other),
    {
        let i = self.pool_index_or_new(pool.to_owned());
        let ghost before = *self;
        proof {
            before.lemma_stands_at(pool@, i as int);
        }
        self.pools[i].window.mark_seen(id, now);
        proof {
            assert(self.pools@.len() == before.pools@.len());
            assert forall|k: int| 0 <= k < self.pools@.len() && k != i implies self.pools@[k]
                == before.pools@[k] by {}
            assert(self.pools@[i as int].name == before.pools@[i as int].name);
            assert(self.well_formed());
            self.lemma_stands_at(pool@, i as int);
            assert forall|other: Seq<char>| other != pool@ implies self.ledger(other)
                == before.ledger(other) by {
                if exists|k: int| before.stands_at(other, k) {
                    let k = choose|k: int| before.stands_at(other, k);
                    assert(self.stands_at(other, k));
                    self.lemma_stands_at(other, k);
                } else {
                    assert forall|k: int| !self.stands_at(other, k) by {
                        if self.stands_at(other, k) {
                            assert(before.stands_at(other, k));
                        }
                    }
                }
            }
        }
    }

    /// Tells whether the batch `ids` holds anything new for the pool
    /// `pool`, and then records every identifier of it as seen at `now`.
    /// The check comes first: asked after the marking, no batch would ever
    /// be new.
    pub fn check_and_mark(&mut self, pool: &str, ids: &Vec<String>, now: u64) -> (unseen: bool)
        requires
            old(self).well_formed(),
        ensures
            final(self).well_formed(),
            final(self).limit() == old(self).limit(),
            unseen == any_unrecorded(old(self).ledger(pool@), ids.deep_view()),
            final(self).ledger(pool@) == marked_all(
                old(self).ledger(pool@),
                ids.deep_view(),
                now,
                old(self).limit() as nat,
            ),
            forall|other: Seq<char>|
                other != pool@ ==> final(self).ledger(other) == old(self).ledger(other),
    {
        let unseen = self.contains_unseen(pool, ids);
        let ghost all = ids.deep_view();
        let mut i: usize = 0;
        while i < ids.len()
            invariant
                i <= ids.len(),
                all == ids.deep_view(),
                self.well_formed(),
                self.limit() == old(self).limit(),
                self.ledger(pool@) == marked_all(
                    old(self).ledger(pool@),
                    all.take(i as int),
                    now,
                    old(self).limit() as nat,
                ),
                forall|other: Seq<char>|
                    other != pool@ ==> self.ledger(other) == old(self).ledger(other),
            decreases ids.len() - i,
        {
            proof {
                let next = stamped(all.take(i + 1), now);
                assert(all[i as int] == ids[i as int]@);
                assert(next.drop_last() =~= stamped(all.take(i as int), now));
                assert(next.last() == (ids[i as int]@, now));
            }
            self.mark_seen(pool, ids[i].as_str(), now);
            i += 1;
        }
        assert(all.take(i as int) =~= all);
        unseen
    }
}

} // verus!
