//! A bounded list of numeric identifiers in the order in which they were
//! last noted: the form in which a window of the history is kept inside
//! the stored state, where the place of an identifier stands for its time.

use vstd::prelude::*;

verus! {

/// The list `s` without `id`.
pub open spec fn omitted(s: Seq<u64>, id: u64) -> Seq<u64> {
    if s.contains(id) {
        s.remove(s.index_of(id))
    } else {
        s
    }
}

/// The `limit` identifiers at the rear of `s`, or all of `s` where it has
/// fewer.
pub open spec fn rear(s: Seq<u64>, limit: nat) -> Seq<u64> {
    if s.len() <= limit {
        s
    } else {
        s.skip(s.len() - limit)
    }
}

/// The list after `id` was noted: `id` stands at the rear, once, and the
/// identifiers beyond `limit` have left, the oldest first.
pub open spec fn noted(s: Seq<u64>, id: u64, limit: nat) -> Seq<u64> {
    rear(omitted(s, id).push(id), limit)
}

/// The list after every identifier of `ids` was noted, in the order of
/// `ids`.
pub open spec fn noted_all(s: Seq<u64>, ids: Seq<u64>, limit: nat) -> Seq<u64>
    decreases ids.len(),
{
    if ids.len() == 0 {
        s
    } else {
        noted(noted_all(s, ids.drop_last(), limit), ids.last(), limit)
    }
}

/// A list as the operations below keep it: at most `limit` identifiers,
/// none twice.
pub open spec fn tidy(s: Seq<u64>, limit: nat) -> bool {
    s.len() <= limit && s.no_duplicates()
}

/// In a list without doubles, an identifier is where it is found.
pub proof fn lemma_omitted_at(s: Seq<u64>, id: u64, i: int)
    requires
        s.no_duplicates(),
        0 <= i < s.len(),
        s[i] == id,
    ensures
        s.contains(id),
        omitted(s, id) == s.remove(i),
{
    let k = s.index_of(id);
    assert(0 <= k < s.len() && s[k] == id);
}

/// Leaving `id` out keeps a list free of doubles and leaves every other
/// identifier in its order.
pub proof fn lemma_omitted(s: Seq<u64>, id: u64)
    requires
        s.no_duplicates(),
    ensures
        omitted(s, id).no_duplicates(),
        !omitted(s, id).contains(id),
        omitted(s, id).len() == if s.contains(id) { s.len() - 1 } else { s.len() as int },
        forall|other: u64| other != id ==> (omitted(s, id).contains(other) <==> s.contains(other)),
{
    let w = omitted(s, id);
    if s.contains(id) {
        let k = s.index_of(id);
        assert forall|i: int| 0 <= i < w.len() implies #[trigger] w[i] == s[if i < k {
            i
        } else {
            i + 1
        }] by {}
        assert forall|i: int, j: int| 0 <= i < w.len() && 0 <= j < w.len() && i != j implies w[i]
            != w[j] by {
            let a = if i < k { i } else { i + 1 };
            let b = if j < k { j } else { j + 1 };
            assert(s[a] != s[b]);
        }
        assert forall|i: int| 0 <= i < w.len() implies #[trigger] w[i] != id by {
            let a = if i < k { i } else { i + 1 };
            assert(s[a] != s[k]);
        }
        assert forall|other: u64| other != id implies (w.contains(other) <==> s.contains(
            other,
        )) by {
            if w.contains(other) {
                let i = choose|i: int| 0 <= i < w.len() && w[i] == other;
                let a = if i < k { i } else { i + 1 };
                assert(s[a] == other);
            }
            if s.contains(other) {
                let a = choose|a: int| 0 <= a < s.len() && s[a] == other;
                let i = if a < k { a } else { a - 1 };
                assert(w[i] == other);
            }
        }
    }
}

/// Noting keeps a list tidy.
pub proof fn lemma_noted_tidy(s: Seq<u64>, id: u64, limit: nat)
    requires
        s.no_duplicates(),
    ensures
        tidy(noted(s, id, limit), limit),
{
    lemma_omitted(s, id);
    let g = omitted(s, id).push(id);
    assert forall|i: int, j: int| 0 <= i < g.len() && 0 <= j < g.len() && i != j implies g[i]
        != g[j] by {
        if i < g.len() - 1 && j < g.len() - 1 {
            assert(omitted(s, id)[i] != omitted(s, id)[j]);
        } else if i < g.len() - 1 {
            assert(omitted(s, id).contains(g[i]));
        } else {
            assert(omitted(s, id).contains(g[j]));
        }
    }
    let r = noted(s, id, limit);
    if g.len() > limit {
        let d = g.len() - limit;
        assert forall|i: int, j: int| 0 <= i < r.len() && 0 <= j < r.len() && i != j implies r[i]
            != r[j] by {
            assert(r[i] == g[i + d] && r[j] == g[j + d]);
        }
    }
}

/// Noting an identifier twice in a row is noting it once.
pub proof fn law_noted_again(s: Seq<u64>, id: u64, limit: nat)
    requires
        tidy(s, limit),
    ensures
        noted(noted(s, id, limit), id, limit) == noted(s, id, limit),
{
    let once = noted(s, id, limit);
    lemma_noted_tidy(s, id, limit);
    lemma_omitted(s, id);
    if limit == 0 {
        assert(once.len() == 0);
        assert(!once.contains(id));
        assert(noted(once, id, limit) =~= once);
    } else {
        let g = omitted(s, id).push(id);
        assert(once.len() > 0 && once[once.len() - 1] == id) by {
            if g.len() > limit {
                assert(once[once.len() - 1] == g[once.len() - 1 + (g.len() - limit)]);
            }
        }
        lemma_omitted_at(once, id, once.len() - 1);
        assert(omitted(once, id).push(id) =~= once);
    }
}

/// Bounded history. Where as many distinct identifiers as the limit, or
/// more, are noted one after another, the list then holds exactly the
/// last `limit` of them, in their order, and none that was noted before
/// them.
pub proof fn law_newest_stay(s: Seq<u64>, ids: Seq<u64>, limit: nat)
    requires
        tidy(s, limit),
        ids.no_duplicates(),
        ids.len() >= limit,
    ensures
        noted_all(s, ids, limit) == ids.skip(ids.len() - limit),
        forall|j: int|
            0 <= j < ids.len() - limit ==> !noted_all(s, ids, limit).contains(#[trigger] ids[j]),
{
    lemma_rear_is_newest(s, ids, limit);
    let r = noted_all(s, ids, limit);
    let kept = ids.skip(ids.len() - limit);
    assert(r.len() == limit);
    assert forall|i: int| 0 <= i < r.len() implies r[i] == kept[i] by {
        assert(r[i] == ids[i - r.len() + ids.len()]);
    }
    assert(r =~= kept);
    assert forall|j: int| 0 <= j < ids.len() - limit implies !r.contains(#[trigger] ids[j]) by {
        if r.contains(ids[j]) {
            let i = choose|i: int| 0 <= i < r.len() && r[i] == ids[j];
            assert(r[i] == ids[i - r.len() + ids.len()]);
        }
    }
}

/// The `n` identifiers at the rear of `r` are the last `n` of `ids`.
pub open spec fn rear_alike(r: Seq<u64>, ids: Seq<u64>, n: nat) -> bool {
    &&& n <= r.len()
    &&& n <= ids.len()
    &&& forall|i: int| r.len() - n <= i < r.len() ==> #[trigger] r[i] == ids[i - r.len() + ids.len()]
}

/// After distinct identifiers were noted one after another, the rear of
/// the list is the rear of the run, as far as the limit admits.
pub proof fn lemma_rear_is_newest(s: Seq<u64>, ids: Seq<u64>, limit: nat)
    requires
        tidy(s, limit),
        ids.no_duplicates(),
    ensures
        tidy(noted_all(s, ids, limit), limit),
        rear_alike(
            noted_all(s, ids, limit),
            ids,
            if ids.len() <= limit { ids.len() } else { limit },
        ),
    decreases ids.len(),
{
    if ids.len() > 0 {
        let m = ids.drop_last();
        let x = ids.last();
        assert forall|i: int, j: int| 0 <= i < m.len() && 0 <= j < m.len() && i != j implies m[i]
            != m[j] by {
            assert(m[i] == ids[i] && m[j] == ids[j]);
        }
        lemma_rear_is_newest(s, m, limit);
        let w = noted_all(s, m, limit);
        let n0: nat = if m.len() <= limit { m.len() } else { limit };
        let w1 = omitted(w, x);
        lemma_omitted(w, x);
        assert(rear_alike(w1, m, n0)) by {
            if w.contains(x) {
                let k = w.index_of(x);
                assert(0 <= k < w.len() && w[k] == x);
                if k >= w.len() - n0 {
                    assert(w[k] == m[k - w.len() + m.len()]);
                    assert(ids[k - w.len() + m.len()] != ids[ids.len() - 1]);
                }
                assert forall|i: int| w1.len() - n0 <= i < w1.len() implies #[trigger] w1[i]
                    == m[i - w1.len() + m.len()] by {
                    assert(w1[i] == w[i + 1]);
                }
            }
        }
        let g = w1.push(x);
        assert(rear_alike(g, ids, n0 + 1)) by {
            assert forall|i: int| g.len() - (n0 + 1) <= i < g.len() implies #[trigger] g[i]
                == ids[i - g.len() + ids.len()] by {
                if i < w1.len() {
                    assert(g[i] == w1[i]);
                    assert(m[i - w1.len() + m.len()] == ids[i - w1.len() + m.len()]);
                }
            }
        }
        lemma_noted_tidy(w, x, limit);
        let r = noted(w, x, limit);
        let n: nat = if ids.len() <= limit { ids.len() } else { limit };
        assert(rear_alike(r, ids, n)) by {
            if g.len() > limit {
                let d = g.len() - limit;
                assert forall|i: int| r.len() - n <= i < r.len() implies #[trigger] r[i]
                    == ids[i - r.len() + ids.len()] by {
                    assert(r[i] == g[i + d]);
                }
            }
        }
    }
}

/// The bounded list of the identifiers that were noted last.
pub struct RecentIds {
    capacity: usize,
    ids: Vec<u64>,
}

impl View for RecentIds {
    type V = Seq<u64>;

    /// The identifiers, the one that was noted longest ago first.
    closed spec fn view(&self) -> Seq<u64> {
        self.ids@
    }
}

impl RecentIds {
    /// The number of identifiers the list keeps.
    pub closed spec fn limit(&self) -> usize {
        self.capacity
    }

    pub open spec fn well_formed(&self) -> bool {
        tidy(self@, self.limit() as nat)
    }

    /// An empty list that keeps `capacity` identifiers.
    pub fn new(capacity: usize) -> (list: Self)
        ensures
            list.well_formed(),
            list.limit() == capacity,
            list@ == Seq::<u64>::empty(),
    {
        RecentIds { capacity, ids: Vec::new() }
    }

    pub fn capacity(&self) -> (capacity: usize)
        ensures
            capacity == self.limit(),
    {
        self.capacity
    }

    pub fn len(&self) -> (len: usize)
        ensures
            len == self@.len(),
    {
        self.ids.len()
    }

    /// Where `id` stands, if it is in the list.
    fn position(&self, id: u64) -> (found: Option<usize>)
        ensures
            found is None <==> !self@.contains(id),
            found matches Some(i) ==> i < self@.len() && self@[i as int] == id,
    {
        let mut i: usize = 0;
        while i < self.ids.len()
            invariant
                i <= self.ids.len(),
                forall|j: int| 0 <= j < i ==> self.ids@[j] != id,
            decreases self.ids.len() - i,
        {
            if self.ids[i] == id {
                return Some(i);
            }
            i += 1;
        }
        None
    }

    /// Whether `id` is in the list.
    pub fn contains(&self, id: u64) -> (held: bool)
        ensures
            held == self@.contains(id),
    {
        self.position(id).is_some()
    }

    /// Notes `id`: it goes to the rear of the list, where it stands once,
    /// and the oldest identifier leaves where the list would grow beyond
    /// its capacity.
    pub fn note(&mut self, id: u64)
        requires
            old(self).well_formed(),
        ensures
            final(self).well_formed(),
            final(self).limit() == old(self).limit(),
            final(self)@ == noted(old(self)@, id, old(self).limit() as nat),
    {
        match self.position(id) {
            Some(i) => {
                proof {
                    lemma_omitted_at(self@, id, i as int);
                }
                self.ids.remove(i);
            },
            None => {},
        }
        proof {
            lemma_omitted(old(self)@, id);
            lemma_noted_tidy(old(self)@, id, self.capacity as nat);
        }
        self.ids.push(id);
        let ghost grown = self@;
        if self.ids.len() > self.capacity {
            self.ids.remove(0);
            assert(self@ =~= grown.skip(1));
        }
    }

    /// Changes the capacity to `capacity`. Where the list holds more, the
    /// oldest identifiers leave.
    pub fn set_capacity(&mut self, capacity: usize)
        requires
            old(self).well_formed(),
        ensures
            final(self).well_formed(),
            final(self).limit() == capacity,
            final(self)@ == rear(old(self)@, capacity as nat),
    {
        self.capacity = capacity;
        while self.ids.len() > capacity
            invariant
                self.capacity == capacity,
                self@.no_duplicates(),
                self@.len() <= old(self)@.len(),
                self@.len() >= capacity || self@.len() == old(self)@.len(),
                self@ == old(self)@.skip(old(self)@.len() - self@.len()),
            decreases self.ids.len(),
        {
            let ghost before = self@;
            self.ids.remove(0);
            proof {
                assert(self@ =~= before.skip(1));
                assert(self@ =~= old(self)@.skip(old(self)@.len() - self@.len()));
                assert forall|i: int, j: int|
                    0 <= i < self@.len() && 0 <= j < self@.len() && i != j implies self@[i]
                    != self@[j] by {
                    assert(self@[i] == before[i + 1] && self@[j] == before[j + 1]);
                }
            }
        }
        proof {
            if old(self)@.len() <= capacity {
                assert(self@ =~= old(self)@);
            }
        }
    }

    /// The list that keeps `capacity` identifiers, after every identifier
    /// of `ids` was noted in it, in the order of `ids`.
    pub fn from_ids(ids: &Vec<u64>, capacity: usize) -> (list: Self)
        ensures
            list.well_formed(),
            list.limit() == capacity,
            list@ == noted_all(Seq::empty(), ids@, capacity as nat),
    {
        let mut list = RecentIds::new(capacity);
        let mut i: usize = 0;
        while i < ids.len()
            invariant
                i <= ids.len(),
                list.well_formed(),
                list.limit() == capacity,
                list@ == noted_all(Seq::empty(), ids@.take(i as int), capacity as nat),
            decreases ids.len() - i,
        {
            proof {
                assert(ids@.take(i + 1).drop_last() =~= ids@.take(i as int));
            }
            list.note(ids[i]);
            i += 1;
        }
        assert(ids@.take(i as int) =~= ids@);
        list
    }

    /// The identifiers, the one that was noted longest ago first.
    pub fn ids(&self) -> (ids: Vec<u64>)
        ensures
            ids@ == self@,
    {
        let mut ids: Vec<u64> = Vec::new();
        let mut i: usize = 0;
        while i < self.ids.len()
            invariant
                i <= self.ids.len(),
                ids@ == self@.take(i as int),
            decreases self.ids.len() - i,
        {
            ids.push(self.ids[i]);
            assert(ids@ =~= self@.take(i + 1));
            i += 1;
        }
        assert(self@.take(i as int) =~= self@);
        ids
    }
}

} // verus!
