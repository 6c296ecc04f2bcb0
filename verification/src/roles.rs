//! The roles that a user gets back on rejoining. The store is sparse: a
//! user stands in it only while the set of their roles is not empty.

use vstd::prelude::*;

verus! {

/// The store `m` after the roles of `user` were set to `roles`: the set
/// replaces the one that `user` had, and an empty set takes `user` out.
pub open spec fn assigned(
    m: Map<Seq<char>, Set<u64>>,
    user: Seq<char>,
    roles: Set<u64>,
) -> Map<Seq<char>, Set<u64>> {
    if roles == Set::<u64>::empty() {
        m.remove(user)
    } else {
        m.insert(user, roles)
    }
}

/// The roles that `user` has in `m`: none where `user` does not stand in it.
pub open spec fn roles_of(m: Map<Seq<char>, Set<u64>>, user: Seq<char>) -> Set<u64> {
    if m.dom().contains(user) {
        m[user]
    } else {
        Set::empty()
    }
}

/// No user of `m` stands in it with an empty set of roles.
pub open spec fn sparse(m: Map<Seq<char>, Set<u64>>) -> bool {
    forall|user: Seq<char>| m.dom().contains(user) ==> #[trigger] m[user] != Set::<u64>::empty()
}

/// Setting roles keeps a store sparse.
pub proof fn law_assigned_sparse(m: Map<Seq<char>, Set<u64>>, user: Seq<char>, roles: Set<u64>)
    requires
        sparse(m),
    ensures
        sparse(assigned(m, user, roles)),
{
    let n = assigned(m, user, roles);
    assert forall|other: Seq<char>| n.dom().contains(other) implies #[trigger] n[other]
        != Set::<u64>::empty() by {
        if other != user {
            assert(m.dom().contains(other));
            assert(n[other] == m[other]);
        }
    }
}

/// Setting the empty set takes the user out of the store, whatever was
/// set before: the user then has no roles, and does not stand in the
/// store with an empty set.
pub proof fn law_empty_set_removes(m: Map<Seq<char>, Set<u64>>, user: Seq<char>, roles: Set<u64>)
    ensures
        !assigned(assigned(m, user, roles), user, Set::empty()).dom().contains(user),
        roles_of(assigned(assigned(m, user, roles), user, Set::empty()), user) == Set::<u64>::empty(),
        assigned(assigned(m, user, roles), user, Set::empty()) == m.remove(user),
{
    assert(assigned(assigned(m, user, roles), user, Set::empty()) =~= m.remove(user));
}

/// Setting roles replaces what was set before; it never adds to it.
pub proof fn law_set_replaces(
    m: Map<Seq<char>, Set<u64>>,
    user: Seq<char>,
    first: Set<u64>,
    second: Set<u64>,
)
    ensures
        assigned(assigned(m, user, first), user, second) == assigned(m, user, second),
        roles_of(assigned(m, user, second), user) == second,
{
    assert(assigned(assigned(m, user, first), user, second) =~= assigned(m, user, second));
}

/// Whether `role` stands in `roles`.
fn holds_role(roles: &Vec<u64>, role: u64) -> (held: bool)
    ensures
        held == roles@.contains(role),
{
    let mut i: usize = 0;
    while i < roles.len()
        invariant
            i <= roles.len(),
            forall|j: int| 0 <= j < i ==> roles@[j] != role,
        decreases roles.len() - i,
    {
        if roles[i] == role {
            return true;
        }
        i += 1;
    }
    false
}

/// The roles of `roles`, each once.
pub fn distinct_roles(roles: &Vec<u64>) -> (kept: Vec<u64>)
    ensures
        kept@.no_duplicates(),
        kept@.to_set() == roles@.to_set(),
{
    let mut kept: Vec<u64> = Vec::new();
    let mut i: usize = 0;
    while i < roles.len()
        invariant
            i <= roles.len(),
            kept@.no_duplicates(),
            forall|role: u64|
                #![trigger kept@.contains(role)]
                #![trigger roles@.take(i as int).contains(role)]
                kept@.contains(role) <==> roles@.take(i as int).contains(role),
        decreases roles.len() - i,
    {
        let role = roles[i];
        let ghost front = roles@.take(i as int);
        let ghost next = roles@.take(i + 1);
        let ghost before = kept@;
        let held = holds_role(&kept, role);
        if !held {
            kept.push(role);
        }
        proof {
            assert(next =~= front.push(role));
            assert forall|other: u64|
                #![trigger kept@.contains(other)]
                #![trigger next.contains(other)]
                kept@.contains(other) <==> next.contains(other) by {
                if kept@.contains(other) {
                    let k = choose|k: int| 0 <= k < kept@.len() && kept@[k] == other;
                    if k < before.len() {
                        assert(before[k] == other);
                        assert(before.contains(other));
                        let a = choose|a: int| 0 <= a < front.len() && front[a] == other;
                        assert(next[a] == other);
                    } else {
                        assert(next[i as int] == other);
                    }
                }
                if next.contains(other) {
                    let a = choose|a: int| 0 <= a < next.len() && next[a] == other;
                    if a < i {
                        assert(front[a] == other);
                        assert(front.contains(other));
                        let k = choose|k: int| 0 <= k < before.len() && before[k] == other;
                        assert(kept@[k] == other);
                    } else if held {
                        let k = choose|k: int| 0 <= k < before.len() && before[k] == role;
                        assert(kept@[k] == other);
                    } else {
                        assert(kept@[kept@.len() - 1] == other);
                    }
                }
            }
        }
        i += 1;
    }
    proof {
        assert(roles@.take(i as int) =~= roles@);
        assert(kept@.to_set() =~= roles@.to_set());
    }
    kept
}

/// The roles of `held` that are sticky: those that stand in `sticky` too,
/// each once.
pub fn sticky_subset(held: &Vec<u64>, sticky: &Vec<u64>) -> (kept: Vec<u64>)
    ensures
        kept@.no_duplicates(),
        kept@.to_set() == held@.to_set().intersect(sticky@.to_set()),
{
    let mut kept: Vec<u64> = Vec::new();
    let mut i: usize = 0;
    while i < held.len()
        invariant
            i <= held.len(),
            kept@.no_duplicates(),
            forall|role: u64|
                #![trigger kept@.contains(role)]
                #![trigger held@.take(i as int).contains(role)]
                kept@.contains(role) <==> held@.take(i as int).contains(role) && sticky@.contains(
                    role,
                ),
        decreases held.len() - i,
    {
        let role = held[i];
        let ghost front = held@.take(i as int);
        let ghost next = held@.take(i + 1);
        let ghost before = kept@;
        let wanted = holds_role(sticky, role);
        let already = holds_role(&kept, role);
        if wanted && !already {
            kept.push(role);
        }
        proof {
            assert(next =~= front.push(role));
            assert forall|other: u64|
                #![trigger kept@.contains(other)]
                #![trigger next.contains(other)]
                kept@.contains(other) <==> next.contains(other) && sticky@.contains(other) by {
                if kept@.contains(other) {
                    let k = choose|k: int| 0 <= k < kept@.len() && kept@[k] == other;
                    if k < before.len() {
                        assert(before[k] == other);
                        assert(before.contains(other));
                        let a = choose|a: int| 0 <= a < front.len() && front[a] == other;
                        assert(next[a] == other);
                    } else {
                        assert(next[i as int] == other);
                    }
                }
                if next.contains(other) && sticky@.contains(other) {
                    let a = choose|a: int| 0 <= a < next.len() && next[a] == other;
                    if a < i {
                        assert(front[a] == other);
                        assert(front.contains(other));
                        let k = choose|k: int| 0 <= k < before.len() && before[k] == other;
                        assert(kept@[k] == other);
                    } else if already {
                        let k = choose|k: int| 0 <= k < before.len() && before[k] == role;
                        assert(kept@[k] == other);
                    } else {
                        assert(kept@[kept@.len() - 1] == other);
                    }
                }
            }
        }
        i += 1;
    }
    proof {
        assert(held@.take(i as int) =~= held@);
        assert(kept@.to_set() =~= held@.to_set().intersect(sticky@.to_set()));
    }
    kept
}

/// The value of the decimal digits `digits`.
pub open spec fn decimal_value(digits: Seq<char>) -> nat
    decreases digits.len(),
{
    if digits.len() == 0 {
        0
    } else {
        decimal_value(digits.drop_last()) * 10 + ((digits.last() as u32 - '0' as u32) as nat)
    }
}

/// Whether `digits` holds decimal digits and nothing else.
pub open spec fn all_decimal(digits: Seq<char>) -> bool {
    forall|i: int| 0 <= i < digits.len() ==> '0' <= #[trigger] digits[i] <= '9'
}

/// The identifier that `text` is read as: `text` is a `+`, or none, and
/// then decimal digits, one at least, whose value fits 64 bits. Any
/// other text is not an identifier.
pub open spec fn parsed_id(text: Seq<char>) -> Option<u64> {
    let digits = if text.len() > 0 && text[0] == '+' {
        text.skip(1)
    } else {
        text
    };
    if digits.len() > 0 && all_decimal(digits) && decimal_value(digits) <= u64::MAX {
        Some(decimal_value(digits) as u64)
    } else {
        None
    }
}

/// Calls `str::parse::<u64>`, which reads decimal digits behind at most
/// one `+`, and refuses the empty text, any other character, and a value
/// beyond 64 bits.
#[verifier::external_body]
fn parse_id(text: &str) -> (id: Option<u64>)
    ensures
        id == parsed_id(text@),
{
    text.parse::<u64>().ok()
}

/// The identifiers that were read, in their order: every `Some` of `read`.
pub open spec fn valid_ids(read: Seq<Option<u64>>) -> Seq<u64>
    decreases read.len(),
{
    if read.len() == 0 {
        Seq::empty()
    } else {
        match read.last() {
            Some(id) => valid_ids(read.drop_last()).push(id),
            None => valid_ids(read.drop_last()),
        }
    }
}

/// What each of the stored texts `rows` is read as.
pub open spec fn read_rows(rows: Seq<Seq<char>>) -> Seq<Option<u64>> {
    Seq::new(rows.len(), |i: int| parsed_id(rows[i]))
}

/// The identifiers among `read`, in their order. What could not be read
/// is left out.
pub fn keep_valid(read: &Vec<Option<u64>>) -> (ids: Vec<u64>)
    ensures
        ids@ == valid_ids(read@),
{
    let mut ids: Vec<u64> = Vec::new();
    let mut i: usize = 0;
    while i < read.len()
        invariant
            i <= read.len(),
            ids@ == valid_ids(read@.take(i as int)),
        decreases read.len() - i,
    {
        proof {
            assert(read@.take(i + 1).drop_last() =~= read@.take(i as int));
        }
        match read[i] {
            Some(id) => {
                ids.push(id);
            },
            None => {},
        }
        i += 1;
    }
    assert(read@.take(i as int) =~= read@);
    ids
}

/// The role identifiers that the stored texts `rows` hold. A text that is
/// no identifier is passed over; it does not spoil the rest.
pub fn role_ids_from_rows(rows: &Vec<String>) -> (ids: Vec<u64>)
    ensures
        ids@ == valid_ids(read_rows(rows.deep_view())),
{
    let mut read: Vec<Option<u64>> = Vec::new();
    let mut i: usize = 0;
    while i < rows.len()
        invariant
            i <= rows.len(),
            read@.len() == i,
            forall|j: int| 0 <= j < i ==> read@[j] == parsed_id(#[trigger] rows.deep_view()[j]),
        decreases rows.len() - i,
    {
        assert(rows.deep_view()[i as int] == rows@[i as int]@);
        read.push(parse_id(rows[i].as_str()));
        i += 1;
    }
    assert(read@ =~= read_rows(rows.deep_view()));
    keep_valid(&read)
}

struct Holder {
    user: String,
    roles: Vec<u64>,
}

/// For every user that has any, the set of their sticky roles.
pub struct StickyRoles {
    holders: Vec<Holder>,
}

impl View for StickyRoles {
    type V = Map<Seq<char>, Set<u64>>;

    /// The users that stand in the store, each with the set of their roles.
    closed spec fn view(&self) -> Map<Seq<char>, Set<u64>> {
        Map::new(
            |user: Seq<char>| exists|i: int| self.stands_at(user, i),
            |user: Seq<char>| self.holders@[choose|i: int| self.stands_at(user, i)].roles@.to_set(),
        )
    }
}

impl StickyRoles {
    /// Whether `user` stands at the place `i`.
    spec fn stands_at(&self, user: Seq<char>, i: int) -> bool {
        0 <= i < self.holders@.len() && self.holders@[i].user@ == user
    }

    /// Every user stands in the store once, with roles, none of them twice.
    pub closed spec fn well_formed(&self) -> bool {
        &&& forall|i: int|
            0 <= i < self.holders@.len() ==> (#[trigger] self.holders@[i]).roles@.len() > 0
                && self.holders@[i].roles@.no_duplicates()
        &&& forall|i: int, j: int|
            0 <= i < j < self.holders@.len() ==> (#[trigger] self.holders@[i]).user@ != (
            #[trigger] self.holders@[j]).user@
    }

    /// The store holds a user only with a set of roles that is not empty.
    pub proof fn lemma_sparse(&self)
        requires
            self.well_formed(),
        ensures
            sparse(self@),
            self@.dom().finite(),
    {
        assert forall|user: Seq<char>| self@.dom().contains(user) implies #[trigger] self@[user]
            != Set::<u64>::empty() by {
            let i = choose|i: int| self.stands_at(user, i);
            assert(self.holders@[i].roles@[0] == self.holders@[i].roles@[0]);
            assert(self.holders@[i].roles@.to_set().contains(self.holders@[i].roles@[0]));
        }
        self.lemma_count(self.holders@.len() as int);
        assert(self@.dom() =~= Set::new(
            |user: Seq<char>|
                exists|i: int| 0 <= i < self.holders@.len() && self.stands_at(user, i),
        ));
    }

    /// Where `user` stands at `i`, the roles there are the roles of `user`.
    proof fn lemma_stands_at(&self, user: Seq<char>, i: int)
        requires
            self.well_formed(),
            self.stands_at(user, i),
        ensures
            self@.dom().contains(user),
            self@[user] == self.holders@[i].roles@.to_set(),
    {
        let k = choose|k: int| self.stands_at(user, k);
        if k < i {
            assert(self.holders@[k].user@ != self.holders@[i].user@);
        } else if i < k {
            assert(self.holders@[i].user@ != self.holders@[k].user@);
        }
    }

    /// A store in which nobody has roles.
    pub fn new() -> (store: Self)
        ensures
            store.well_formed(),
            store@ == Map::<Seq<char>, Set<u64>>::empty(),
    {
        let store = StickyRoles { holders: Vec::new() };
        assert(store@ =~= Map::<Seq<char>, Set<u64>>::empty());
        store
    }

    /// The number of users that have roles.
    pub fn len(&self) -> (len: usize)
        requires
            self.well_formed(),
        ensures
            len == self@.dom().len(),
    {
        proof {
            self.lemma_count(self.holders@.len() as int);
            assert(self@.dom() =~= Set::new(
                |user: Seq<char>|
                    exists|i: int| 0 <= i < self.holders@.len() && self.stands_at(user, i),
            ));
        }
        self.holders.len()
    }

    /// The first `n` places hold `n` users.
    proof fn lemma_count(&self, n: int)
        requires
            self.well_formed(),
            0 <= n <= self.holders@.len(),
        ensures
            Set::new(|user: Seq<char>| exists|i: int| 0 <= i < n && self.stands_at(user, i)).finite(),
            Set::new(|user: Seq<char>| exists|i: int| 0 <= i < n && self.stands_at(user, i)).len()
                == n,
        decreases n,
    {
        let here = Set::new(|user: Seq<char>| exists|i: int| 0 <= i < n && self.stands_at(user, i));
        if n == 0 {
            assert(here =~= Set::<Seq<char>>::empty());
        } else {
            self.lemma_count(n - 1);
            let front = Set::new(
                |user: Seq<char>| exists|i: int| 0 <= i < n - 1 && self.stands_at(user, i),
            );
            let last = self.holders@[n - 1].user@;
            assert forall|user: Seq<char>| here.contains(user) <==> front.insert(last).contains(
                user,
            ) by {
                if here.contains(user) {
                    let i = choose|i: int| 0 <= i < n && self.stands_at(user, i);
                    if i < n - 1 {
                        assert(0 <= i < n - 1 && self.stands_at(user, i));
                    }
                }
                if front.contains(user) {
                    let i = choose|i: int| 0 <= i < n - 1 && self.stands_at(user, i);
                    assert(0 <= i < n && self.stands_at(user, i));
                }
                if user == last {
                    assert(0 <= n - 1 < n && self.stands_at(user, n - 1));
                }
            }
            assert(here =~= front.insert(last));
            assert(!front.contains(last)) by {
                if front.contains(last) {
                    let i = choose|i: int| 0 <= i < n - 1 && self.stands_at(last, i);
                    assert(self.holders@[i].user@ != self.holders@[n - 1].user@);
                }
            }
        }
    }

    /// Where `wanted` stands, if it does.
    fn position(&self, wanted: &String) -> (found: Option<usize>)
        ensures
            found is None ==> forall|i: int| !self.stands_at(wanted@, i),
            found matches Some(i) ==> self.stands_at(wanted@, i as int),
    {
        let mut i: usize = 0;
        while i < self.holders.len()
            invariant
                i <= self.holders.len(),
                forall|j: int| 0 <= j < i ==> (#[trigger] self.holders@[j]).user@ != wanted@,
            decreases self.holders.len() - i,
        {
            if self.holders[i].user == *wanted {
                return Some(i);
            }
            i += 1;
        }
        None
    }

    /// The users that have roles, each once.
    pub fn users(&self) -> (users: Vec<String>)
        requires
            self.well_formed(),
        ensures
            users.deep_view().no_duplicates(),
            users.deep_view().to_set() == self@.dom(),
    {
        let mut users: Vec<String> = Vec::new();
        let mut i: usize = 0;
        while i < self.holders.len()
            invariant
                i <= self.holders.len(),
                users@.len() == i,
                forall|j: int| 0 <= j < i ==> (#[trigger] users@[j])@ == self.holders@[j].user@,
            decreases self.holders.len() - i,
        {
            users.push(self.holders[i].user.clone());
            i += 1;
        }
        proof {
            let listed = users.deep_view();
            assert forall|k: int| 0 <= k < listed.len() implies #[trigger] listed[k]
                == self.holders@[k].user@ by {
                assert(listed[k] == users@[k]@);
            }
            assert forall|a: int, b: int| 0 <= a < listed.len() && 0 <= b < listed.len() && a
                != b implies listed[a] != listed[b] by {
                if a < b {
                    assert(self.holders@[a].user@ != self.holders@[b].user@);
                } else {
                    assert(self.holders@[b].user@ != self.holders@[a].user@);
                }
            }
            assert forall|other: Seq<char>| listed.to_set().contains(other) <==> self@.dom().contains(
                other,
            ) by {
                if listed.contains(other) {
                    let k = choose|k: int| 0 <= k < listed.len() && listed[k] == other;
                    assert(self.stands_at(other, k));
                }
                if self@.dom().contains(other) {
                    let k = choose|k: int| self.stands_at(other, k);
                    assert(listed[k] == other);
                }
            }
            assert(listed.to_set() =~= self@.dom());
        }
        users
    }

    /// Whether `user` stands in the store.
    pub fn contains(&self, user: &str) -> (held: bool)
        requires
            self.well_formed(),
        ensures
            held == self@.dom().contains(user@),
    {
        let wanted = user.to_owned();
        match self.position(&wanted) {
            Some(i) => {
                proof {
                    self.lemma_stands_at(user@, i as int);
                }
                true
            },
            None => false,
        }
    }

    /// The roles of `user`, each once; none for a user that the store does
    /// not hold.
    pub fn get(&self, user: &str) -> (roles: Vec<u64>)
        requires
            self.well_formed(),
        ensures
            roles@.no_duplicates(),
            roles@.to_set() == roles_of(self@, user@),
    {
        let wanted = user.to_owned();
        match self.position(&wanted) {
            Some(i) => {
                proof {
                    self.lemma_stands_at(user@, i as int);
                }
                distinct_roles(&self.holders[i].roles)
            },
            None => {
                let roles: Vec<u64> = Vec::new();
                assert(roles@.to_set() =~= Set::<u64>::empty());
                roles
            },
        }
    }

    /// Sets the roles of `user` to those of `roles`, in place of what was
    /// set before. With no roles, `user` leaves the store.
    pub fn set(&mut self, user: &str, roles: &Vec<u64>)
        requires
            old(self).well_formed(),
        ensures
            final(self).well_formed(),
            final(self)@ == assigned(old(self)@, user@, roles@.to_set()),
    {
        let wanted = user.to_owned();
        let kept = distinct_roles(roles);
        let found = self.position(&wanted);
        let ghost target = assigned(old(self)@, user@, roles@.to_set());
        proof {
            if kept.len() == 0 {
                assert(kept@.to_set() =~= Set::<u64>::empty());
            } else {
                assert(kept@.to_set().contains(kept@[0]));
            }
        }
        match found {
            Some(i) => {
                proof {
                    old(self).lemma_stands_at(user@, i as int);
                }
                if kept.len() == 0 {
                    self.holders.remove(i);
                    proof {
                        assert forall|k: int| 0 <= k < self.holders@.len() implies (
                        #[trigger] self.holders@[k]) == old(self).holders@[if k < i {
                            k
                        } else {
                            k + 1
                        }] by {}
                        assert(self.well_formed()) by {
                            assert forall|a: int, b: int|
                                0 <= a < b < self.holders@.len() implies (
                            #[trigger] self.holders@[a]).user@ != (
                            #[trigger] self.holders@[b]).user@ by {
                                let a0 = if a < i { a } else { a + 1 };
                                let b0 = if b < i { b } else { b + 1 };
                                assert(old(self).holders@[a0].user@ != old(self).holders@[b0].user@);
                            }
                        }
                        assert forall|other: Seq<char>| #[trigger]
                            self@.dom().contains(other) <==> target.dom().contains(other) by {
                            if self@.dom().contains(other) {
                                let k = choose|k: int| self.stands_at(other, k);
                                let k0 = if k < i { k } else { k + 1 };
                                assert(old(self).stands_at(other, k0));
                                if other == user@ {
                                    if k0 < i {
                                        assert(old(self).holders@[k0].user@ != old(
                                            self,
                                        ).holders@[i as int].user@);
                                    } else {
                                        assert(old(self).holders@[i as int].user@ != old(
                                            self,
                                        ).holders@[k0].user@);
                                    }
                                }
                            }
                            if target.dom().contains(other) {
                                let k0 = choose|k0: int| old(self).stands_at(other, k0);
                                let k = if k0 < i { k0 } else { k0 - 1 };
                                assert(self.stands_at(other, k));
                            }
                        }
                        assert forall|other: Seq<char>| #[trigger]
                            self@.dom().contains(other) implies self@[other] == target[other] by {
                            let k = choose|k: int| self.stands_at(other, k);
                            let k0 = if k < i { k } else { k + 1 };
                            self.lemma_stands_at(other, k);
                            old(self).lemma_stands_at(other, k0);
                        }
                        assert(self@ =~= target);
                    }
                } else {
                    self.holders[i].roles = kept;
                    proof {
                        assert forall|k: int|
                            0 <= k < self.holders@.len() && k != i implies self.holders@[k] == old(
                            self,
                        ).holders@[k] by {}
                        assert(self.holders@[i as int].user == old(self).holders@[i as int].user);
                        assert(self.well_formed());
                        assert forall|other: Seq<char>| #[trigger]
                            self@.dom().contains(other) <==> target.dom().contains(other) by {
                            if self@.dom().contains(other) {
                                let k = choose|k: int| self.stands_at(other, k);
                                assert(old(self).stands_at(other, k));
                            }
                            if target.dom().contains(other) && other != user@ {
                                let k = choose|k: int| old(self).stands_at(other, k);
                                assert(self.stands_at(other, k));
                            }
                            if other == user@ {
                                assert(self.stands_at(other, i as int));
                            }
                        }
                        assert forall|other: Seq<char>| #[trigger]
                            self@.dom().contains(other) implies self@[other] == target[other] by {
                            let k = choose|k: int| self.stands_at(other, k);
                            self.lemma_stands_at(other, k);
                            assert(old(self).stands_at(other, k));
                            old(self).lemma_stands_at(other, k);
                            if other == user@ {
                                self.lemma_stands_at(other, i as int);
                            }
                        }
                        assert(self@ =~= target);
                    }
                }
            },
            None => {
                if kept.len() > 0 {
                    self.holders.push(Holder { user: wanted, roles: kept });
                    proof {
                        let i = self.holders@.len() - 1;
                        assert forall|k: int| 0 <= k < i implies self.holders@[k] == old(
                            self,
                        ).holders@[k] by {}
                        assert(self.well_formed()) by {
                            assert forall|a: int, b: int|
                                0 <= a < b < self.holders@.len() implies (
                            #[trigger] self.holders@[a]).user@ != (
                            #[trigger] self.holders@[b]).user@ by {
                                if b == i {
                                    assert(!old(self).stands_at(user@, a));
                                }
                            }
                        }
                        assert(self.stands_at(user@, i));
                        assert forall|other: Seq<char>| #[trigger]
                            self@.dom().contains(other) <==> target.dom().contains(other) by {
                            if self@.dom().contains(other) && other != user@ {
                                let k = choose|k: int| self.stands_at(other, k);
                                assert(old(self).stands_at(other, k));
                            }
                            if target.dom().contains(other) && other != user@ {
                                let k = choose|k: int| old(self).stands_at(other, k);
                                assert(self.stands_at(other, k));
                            }
                        }
                        assert forall|other: Seq<char>| #[trigger]
                            self@.dom().contains(other) implies self@[other] == target[other] by {
                            let k = choose|k: int| self.stands_at(other, k);
                            self.lemma_stands_at(other, k);
                            if other != user@ {
                                assert(old(self).stands_at(other, k));
                                old(self).lemma_stands_at(other, k);
                            } else {
                                self.lemma_stands_at(other, i);
                            }
                        }
                        assert(self@ =~= target);
                    }
                } else {
                    proof {
                        assert(self@ =~= target);
                    }
                }
            },
        }
    }
}

} // verus!
