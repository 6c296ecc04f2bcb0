//! The set of items that were already reported. It only grows: an
//! identifier that was marked once is never new again.

use vstd::prelude::*;

verus! {

/// Whether some identifier of `ids` is not in `seen`.
pub open spec fn any_new(seen: Set<Seq<char>>, ids: Seq<Seq<char>>) -> bool {
    exists|i: int| 0 <= i < ids.len() && !seen.contains(#[trigger] ids[i])
}

/// The set `seen` with every identifier of `ids` added.
pub open spec fn with_all(seen: Set<Seq<char>>, ids: Seq<Seq<char>>) -> Set<Seq<char>> {
    seen.union(ids.to_set())
}

/// A batch that was checked and marked is not new a second time,
/// whatever the set held before.
pub proof fn law_marked_batch_is_old(seen: Set<Seq<char>>, ids: Seq<Seq<char>>)
    ensures
        !any_new(with_all(seen, ids), ids),
{
    assert forall|i: int| 0 <= i < ids.len() implies with_all(seen, ids).contains(
        #[trigger] ids[i],
    ) by {
        assert(ids.contains(ids[i]));
    }
}

/// A batch of identifiers of which the set holds none is new.
pub proof fn law_unmarked_batch_is_new(seen: Set<Seq<char>>, ids: Seq<Seq<char>>)
    requires
        ids.len() > 0,
        forall|i: int| 0 <= i < ids.len() ==> !seen.contains(#[trigger] ids[i]),
    ensures
        any_new(seen, ids),
{
    assert(!seen.contains(ids[0]));
}

/// The identifiers of the items that were seen.
pub struct SeenSet {
    items: Vec<String>,
}

impl View for SeenSet {
    type V = Set<Seq<char>>;

    closed spec fn view(&self) -> Set<Seq<char>> {
        Set::new(|id: Seq<char>| exists|i: int| self.stands_at(id, i))
    }
}

impl SeenSet {
    /// Whether `id` stands at the place `i`.
    spec fn stands_at(&self, id: Seq<char>, i: int) -> bool {
        0 <= i < self.items@.len() && self.items@[i]@ == id
    }

    /// No identifier is held twice.
    pub closed spec fn well_formed(&self) -> bool {
        forall|i: int, j: int|
            0 <= i < j < self.items@.len() ==> (#[trigger] self.items@[i])@ != (
            #[trigger] self.items@[j])@
    }

    /// The empty set.
    pub fn new() -> (set: Self)
        ensures
            set.well_formed(),
            set@ == Set::<Seq<char>>::empty(),
    {
        let set = SeenSet { items: Vec::new() };
        assert(set@ =~= Set::<Seq<char>>::empty());
        set
    }

    /// Whether `wanted` is held.
    fn holds(&self, wanted: &String) -> (held: bool)
        ensures
            held == self@.contains(wanted@),
    {
        let mut i: usize = 0;
        while i < self.items.len()
            invariant
                i <= self.items.len(),
                forall|j: int| 0 <= j < i ==> (#[trigger] self.items@[j])@ != wanted@,
            decreases self.items.len() - i,
        {
            if self.items[i] == *wanted {
                assert(self.stands_at(wanted@, i as int));
                return true;
            }
            i += 1;
        }
        assert forall|k: int| !self.stands_at(wanted@, k) by {
            if 0 <= k < self.items@.len() {
                assert(self.items@[k]@ != wanted@);
            }
        }
        false
    }

    /// Whether `id` was seen.
    pub fn contains(&self, id: &str) -> (held: bool)
        ensures
            held == self@.contains(id@),
    {
        let wanted = id.to_owned();
        self.holds(&wanted)
    }

    /// Marks `id` as seen, and tells whether it was new.
    pub fn insert(&mut self, id: &str) -> (fresh: bool)
        requires
            old(self).well_formed(),
        ensures
            final(self).well_formed(),
            fresh == !old(self)@.contains(id@),
            final(self)@ == old(self)@.insert(id@),
    {
        let wanted = id.to_owned();
        if self.holds(&wanted) {
            assert(self@ =~= old(self)@.insert(id@));
            return false;
        }
        self.items.push(wanted);
        proof {
            let last = self.items@.len() - 1;
            assert forall|k: int| 0 <= k < last implies self.items@[k] == old(self).items@[k] by {}
            assert forall|a: int, b: int| 0 <= a < b < self.items@.len() implies (
            #[trigger] self.items@[a])@ != (#[trigger] self.items@[b])@ by {
                if b == last {
                    assert(old(self).stands_at(self.items@[a]@, a));
                }
            }
            assert forall|other: Seq<char>| self@.contains(other) <==> old(self)@.insert(
                id@,
            ).contains(other) by {
                if self@.contains(other) {
                    let k = choose|k: int| self.stands_at(other, k);
                    if k < last {
                        assert(old(self).stands_at(other, k));
                    }
                }
                if old(self)@.contains(other) {
                    let k = choose|k: int| old(self).stands_at(other, k);
                    assert(self.stands_at(other, k));
                }
                if other == id@ {
                    assert(self.stands_at(other, last));
                }
            }
            assert(self@ =~= old(self)@.insert(id@));
        }
        true
    }

    /// Whether some identifier of `ids` was not seen yet: whether the batch
    /// holds anything new.
    pub fn contains_unseen(&self, ids: &Vec<String>) -> (unseen: bool)
        ensures
            unseen == any_new(self@, ids.deep_view()),
    {
        let mut i: usize = 0;
        while i < ids.len()
            invariant
                i <= ids.len(),
                forall|j: int| 0 <= j < i ==> self@.contains(#[trigger] ids.deep_view()[j]),
            decreases ids.len() - i,
        {
            assert(ids.deep_view()[i as int] == ids[i as int]@);
            if !self.holds(&ids[i]) {
                return true;
            }
            i += 1;
        }
        false
    }

    /// Tells whether the batch `ids` holds anything new, and then marks
    /// every identifier of it as seen. The check comes first: asked after
    /// the marking, no batch would ever be new.
    pub fn check_and_mark(&mut self, ids: &Vec<String>) -> (unseen: bool)
        requires
            old(self).well_formed(),
        ensures
            final(self).well_formed(),
            unseen == any_new(old(self)@, ids.deep_view()),
            final(self)@ == with_all(old(self)@, ids.deep_view()),
    {
        let unseen = self.contains_unseen(ids);
        let ghost all = ids.deep_view();
        let mut i: usize = 0;
        while i < ids.len()
            invariant
                i <= ids.len(),
                all == ids.deep_view(),
                self.well_formed(),
                self@ == with_all(old(self)@, all.take(i as int)),
            decreases ids.len() - i,
        {
            let ghost before = self@;
            self.insert(ids[i].as_str());
            proof {
                let front = all.take(i as int);
                let next = all.take(i + 1);
                assert(all[i as int] == ids[i as int]@);
                assert forall|other: Seq<char>| next.to_set().contains(other) <==> (
                front.to_set().contains(other) || other == all[i as int]) by {
                    if next.contains(other) {
                        let k = choose|k: int| 0 <= k < next.len() && next[k] == other;
                        if k < i {
                            assert(front[k] == other);
                        }
                    }
                    if front.contains(other) {
                        let k = choose|k: int| 0 <= k < front.len() && front[k] == other;
                        assert(next[k] == other);
                    }
                    if other == all[i as int] {
                        assert(next[i as int] == other);
                    }
                }
                assert(self@ =~= with_all(old(self)@, next));
            }
            i += 1;
        }
        assert(all.take(i as int) =~= all);
        unseen
    }

    /// The identifiers that were seen, each once.
    pub fn items(&self) -> (items: Vec<String>)
        requires
            self.well_formed(),
        ensures
            items.deep_view().no_duplicates(),
            items.deep_view().to_set() == self@,
    {
        let mut items: Vec<String> = Vec::new();
        let mut i: usize = 0;
        while i < self.items.len()
            invariant
                i <= self.items.len(),
                items@.len() == i,
                forall|j: int| 0 <= j < i ==> (#[trigger] items@[j])@ == self.items@[j]@,
            decreases self.items.len() - i,
        {
            items.push(self.items[i].clone());
            i += 1;
        }
        proof {
            let listed = items.deep_view();
            assert forall|k: int| 0 <= k < listed.len() implies #[trigger] listed[k]
                == self.items@[k]@ by {
                assert(listed[k] == items@[k]@);
            }
            assert forall|a: int, b: int| 0 <= a < listed.len() && 0 <= b < listed.len() && a
                != b implies listed[a] != listed[b] by {
                if a < b {
                    assert(self.items@[a]@ != self.items@[b]@);
                } else {
                    assert(self.items@[b]@ != self.items@[a]@);
                }
            }
            assert forall|other: Seq<char>| listed.to_set().contains(other) <==> self@.contains(
                other,
            ) by {
                if listed.contains(other) {
                    let k = choose|k: int| 0 <= k < listed.len() && listed[k] == other;
                    assert(self.stands_at(other, k));
                }
                if self@.contains(other) {
                    let k = choose|k: int| self.stands_at(other, k);
                    assert(listed[k] == other);
                }
            }
            assert(listed.to_set() =~= self@);
        }
        items
    }

    /// The first `n` places hold `n` identifiers.
    proof fn lemma_count(&self, n: int)
        requires
            self.well_formed(),
            0 <= n <= self.items@.len(),
        ensures
            Set::new(|id: Seq<char>| exists|i: int| 0 <= i < n && self.stands_at(id, i)).finite(),
            Set::new(|id: Seq<char>| exists|i: int| 0 <= i < n && self.stands_at(id, i)).len() == n,
        decreases n,
    {
        let here = Set::new(|id: Seq<char>| exists|i: int| 0 <= i < n && self.stands_at(id, i));
        if n == 0 {
            assert(here =~= Set::<Seq<char>>::empty());
        } else {
            self.lemma_count(n - 1);
            let front = Set::new(
                |id: Seq<char>| exists|i: int| 0 <= i < n - 1 && self.stands_at(id, i),
            );
            let last = self.items@[n - 1]@;
            assert forall|id: Seq<char>| here.contains(id) <==> front.insert(last).contains(
                id,
            ) by {
                if here.contains(id) {
                    let i = choose|i: int| 0 <= i < n && self.stands_at(id, i);
                    if i < n - 1 {
                        assert(0 <= i < n - 1 && self.stands_at(id, i));
                    }
                }
                if front.contains(id) {
                    let i = choose|i: int| 0 <= i < n - 1 && self.stands_at(id, i);
                    assert(0 <= i < n && self.stands_at(id, i));
                }
                if id == last {
                    assert(0 <= n - 1 < n && self.stands_at(id, n - 1));
                }
            }
            assert(here =~= front.insert(last));
            assert(!front.contains(last)) by {
                if front.contains(last) {
                    let i = choose|i: int| 0 <= i < n - 1 && self.stands_at(last, i);
                    assert(self.items@[i]@ != self.items@[n - 1]@);
                }
            }
        }
    }

    /// The number of identifiers that were seen.
    pub fn len(&self) -> (len: usize)
        requires
            self.well_formed(),
        ensures
            len == self@.len(),
    {
        proof {
            self.lemma_count(self.items@.len() as int);
            assert(self@ =~= Set::new(
                |id: Seq<char>| exists|i: int| 0 <= i < self.items@.len() && self.stands_at(id, i),
            ));
        }
        self.items.len()
    }
}

} // verus!
