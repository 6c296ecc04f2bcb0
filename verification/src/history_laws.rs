//! What holds of every ledger, whatever was marked in it.

use crate::history::{
    any_unrecorded, distinct_ids, keep_newest, lemma_keep_newest, lemma_marked_orderly,
    lemma_placed, lemma_without, marked, marked_all, marked_each, oldest_first,
    orderly, placed, position_of, rank, recorded, stamped, without, Seen,
};
use vstd::prelude::*;

verus! {

/// The `n` lines at the rear of `r` are the last `n` marks of `marks`, in
/// the same order.
pub open spec fn ends_alike(r: Seq<Seen>, marks: Seq<Seen>, n: nat) -> bool {
    &&& n <= r.len()
    &&& n <= marks.len()
    &&& forall|i: int|
        r.len() - n <= i < r.len() ==> #[trigger] r[i] == marks[i - r.len() + marks.len()]
}

/// No line of `s` is newer than `ceiling`.
pub open spec fn none_newer(s: Seq<Seen>, ceiling: u64) -> bool {
    forall|i: int| 0 <= i < s.len() ==> (#[trigger] s[i]).1 <= ceiling
}

/// The smaller of two numbers.
pub open spec fn least(a: nat, b: nat) -> nat {
    if a <= b {
        a
    } else {
        b
    }
}

/// A mark that is not older than any line goes to the rear of the ledger.
pub proof fn lemma_placed_at_rear(s: Seq<Seen>, id: Seq<char>, now: u64)
    requires
        none_newer(s, now),
    ensures
        placed(s, id, now) == s.push((id, now)),
{
    if s.len() > 0 {
        assert(s[s.len() - 1].1 <= now);
    }
    assert(rank(s, now) == s.len());
    assert(s.insert(s.len() as int, (id, now)) =~= s.push((id, now)));
}

/// After a run of marks of distinct identifiers, none at an earlier time
/// than the one before it or than a line that the ledger had, the rear of
/// the ledger is the rear of the run: as many of its last marks as the
/// limit admits.
pub proof fn lemma_rear_holds_marks(s: Seq<Seen>, marks: Seq<Seen>, limit: nat)
    requires
        orderly(s, limit),
        distinct_ids(marks),
        oldest_first(marks),
        forall|j: int| 0 <= j < marks.len() ==> none_newer(s, (#[trigger] marks[j]).1),
    ensures
        orderly(marked_each(s, marks, limit), limit),
        ends_alike(marked_each(s, marks, limit), marks, least(marks.len(), limit)),
        marks.len() > 0 ==> none_newer(marked_each(s, marks, limit), marks.last().1),
    decreases marks.len(),
{
    if marks.len() > 0 {
        let m = marks.drop_last();
        let x = marks.last().0;
        let t = marks.last().1;
        let w = marked_each(s, m, limit);
        assert forall|i: int, j: int| 0 <= i < j < m.len() implies (#[trigger] m[i]).0 != (
        #[trigger] m[j]).0 by {
            assert(m[i] == marks[i] && m[j] == marks[j]);
        }
        assert forall|i: int, j: int| 0 <= i <= j < m.len() implies (#[trigger] m[i]).1 <= (
        #[trigger] m[j]).1 by {
            assert(m[i] == marks[i] && m[j] == marks[j]);
        }
        assert forall|j: int| 0 <= j < m.len() implies none_newer(s, (#[trigger] m[j]).1) by {
            assert(m[j] == marks[j]);
        }
        lemma_rear_holds_marks(s, m, limit);
        let n0 = least(m.len(), limit);
        assert(none_newer(w, t)) by {
            if m.len() == 0 {
                assert(none_newer(s, marks[marks.len() - 1].1));
            } else {
                assert(m.last() == marks[marks.len() - 2]);
                assert(marks[marks.len() - 2].1 <= marks[marks.len() - 1].1);
            }
        }
        // the line that `x` had, if any, stands in front of the rear
        let w1 = without(w, x);
        lemma_without(w, x, limit);
        assert(ends_alike(w1, m, n0) && none_newer(w1, t)) by {
            if recorded(w, x) {
                let k = position_of(w, x);
                assert(0 <= k < w.len() && w[k].0 == x);
                if k >= w.len() - n0 {
                    assert(w[k] == m[k - w.len() + m.len()]);
                    assert(m[k - w.len() + m.len()] == marks[k - w.len() + m.len()]);
                    assert(marks[k - w.len() + m.len()].0 != marks[marks.len() - 1].0);
                }
                assert forall|i: int| w1.len() - n0 <= i < w1.len() implies #[trigger] w1[i]
                    == m[i - w1.len() + m.len()] by {
                    assert(w1[i] == w[i + 1]);
                }
                assert forall|i: int| 0 <= i < w1.len() implies (#[trigger] w1[i]).1 <= t by {
                    let a = if i < k { i } else { i + 1 };
                    assert(w1[i] == w[a]);
                }
            }
        }
        let g = placed(w1, x, t);
        lemma_placed_at_rear(w1, x, t);
        lemma_placed(w1, x, t);
        assert(ends_alike(g, marks, n0 + 1)) by {
            assert forall|i: int| g.len() - (n0 + 1) <= i < g.len() implies #[trigger] g[i]
                == marks[i - g.len() + marks.len()] by {
                if i < w1.len() {
                    assert(g[i] == w1[i]);
                    assert(m[i - w1.len() + m.len()] == marks[i - w1.len() + m.len()]);
                }
            }
        }
        let r = keep_newest(g, limit);
        lemma_keep_newest(g, limit);
        let n = least(marks.len(), limit);
        assert(r == marked_each(s, marks, limit));
        assert(ends_alike(r, marks, n)) by {
            if g.len() > limit {
                let d = g.len() - limit;
                assert forall|i: int| r.len() - n <= i < r.len() implies #[trigger] r[i]
                    == marks[i - r.len() + marks.len()] by {
                    assert(r[i] == g[i + d]);
                }
            }
        }
        assert(none_newer(r, t)) by {
            assert forall|i: int| 0 <= i < r.len() implies (#[trigger] r[i]).1 <= t by {
                if g.len() > limit {
                    assert(r[i] == g[i + (g.len() - limit)]);
                }
                let a = if g.len() > limit { i + (g.len() - limit) } else { i };
                if a < w1.len() {
                    assert(g[a] == w1[a]);
                }
            }
        }
    }
}

/// Bounded history. Where as many distinct identifiers as the limit, or
/// more, are marked one after another, none at an earlier time than the
/// one before it or than a line that the ledger had, the ledger then
/// holds exactly the last `limit` of these marks, and no identifier that
/// was marked before them.
pub proof fn law_bounded_history(s: Seq<Seen>, marks: Seq<Seen>, limit: nat)
    requires
        orderly(s, limit),
        distinct_ids(marks),
        oldest_first(marks),
        forall|j: int| 0 <= j < marks.len() ==> none_newer(s, (#[trigger] marks[j]).1),
        marks.len() >= limit,
    ensures
        marked_each(s, marks, limit) == marks.skip(marks.len() - limit),
        forall|j: int|
            0 <= j < marks.len() - limit ==> !recorded(
                marked_each(s, marks, limit),
                (#[trigger] marks[j]).0,
            ),
{
    lemma_rear_holds_marks(s, marks, limit);
    let r = marked_each(s, marks, limit);
    let rear = marks.skip(marks.len() - limit);
    assert(r.len() == limit);
    assert forall|i: int| 0 <= i < r.len() implies r[i] == rear[i] by {
        assert(r[i] == marks[i - r.len() + marks.len()]);
    }
    assert(r =~= rear);
    assert forall|j: int| 0 <= j < marks.len() - limit implies !recorded(
        r,
        (#[trigger] marks[j]).0,
    ) by {
        assert forall|i: int| 0 <= i < r.len() implies (#[trigger] r[i]).0 != marks[j].0 by {
            assert(r[i] == marks[i - r.len() + marks.len()]);
            assert(marks[j].0 != marks[i - r.len() + marks.len()].0);
        }
    }
}

/// A batch that was checked and marked is not new a second time. Where a
/// batch of distinct identifiers, no more of them than the limit, is
/// marked at a time that is not earlier than any line of the ledger,
/// every identifier of the batch is recorded afterwards.
pub proof fn law_batch_is_remembered(s: Seq<Seen>, ids: Seq<Seq<char>>, now: u64, limit: nat)
    requires
        orderly(s, limit),
        ids.no_duplicates(),
        ids.len() <= limit,
        none_newer(s, now),
    ensures
        !any_unrecorded(marked_all(s, ids, now, limit), ids),
{
    let marks = stamped(ids, now);
    lemma_rear_holds_marks(s, marks, limit);
    let r = marked_all(s, ids, now, limit);
    assert forall|i: int| 0 <= i < ids.len() implies recorded(r, #[trigger] ids[i]) by {
        let at = i + r.len() - marks.len();
        assert(r[at] == marks[at - r.len() + marks.len()]);
        assert(r[at].0 == ids[i]);
    }
}

/// Marking an identifier again renews its line and adds none: after the
/// second of two marks in a row the ledger holds as many lines as after
/// the first, and any line it has for the identifier bears the time of
/// the second mark.
pub proof fn law_remark_renews(s: Seq<Seen>, id: Seq<char>, first: u64, second: u64, limit: nat)
    requires
        orderly(s, limit),
    ensures
        marked(marked(s, id, first, limit), id, second, limit).len() == marked(
            s,
            id,
            first,
            limit,
        ).len(),
        forall|i: int|
            0 <= i < marked(marked(s, id, first, limit), id, second, limit).len() && (
            #[trigger] marked(marked(s, id, first, limit), id, second, limit)[i]).0 == id ==> marked(
                marked(s, id, first, limit),
                id,
                second,
                limit,
            )[i].1 == second,
{
    let once = marked(s, id, first, limit);
    lemma_marked_orderly(s, id, first, limit);
    // the first mark: either the line for `id` stayed, or the ledger was full without it
    let g1 = placed(without(s, id), id, first);
    lemma_without(s, id, limit);
    lemma_placed(without(s, id), id, first);
    assert(!recorded(once, id) ==> once.len() == limit) by {
        if g1.len() <= limit {
            assert(once == g1);
        }
    }
    // the second mark
    let rest = without(once, id);
    lemma_without(once, id, limit);
    let g2 = placed(rest, id, second);
    lemma_placed(rest, id, second);
    let twice = keep_newest(g2, limit);
    assert(twice == marked(once, id, second, limit));
    assert(twice.len() == once.len());
    lemma_keep_newest(g2, limit);
    let p = rank(rest, second);
    crate::history::lemma_rank_splits(rest, second);
    assert forall|i: int| 0 <= i < twice.len() && (#[trigger] twice[i]).0 == id implies twice[i].1
        == second by {
        let a = if g2.len() > limit { i + (g2.len() - limit) } else { i };
        assert(twice[i] == g2[a]);
        if a < p {
            assert(g2[a] == rest[a]);
        } else if a > p {
            assert(g2[a] == rest[a - 1]);
        }
    }
}

/// A mark that is not older than any line is remembered, as the newest
/// line, wherever the ledger remembers anything at all.
pub proof fn law_mark_is_newest(s: Seq<Seen>, id: Seq<char>, now: u64, limit: nat)
    requires
        orderly(s, limit),
        none_newer(s, now),
        limit > 0,
    ensures
        recorded(marked(s, id, now, limit), id),
        marked(s, id, now, limit).last() == (id, now),
{
    let rest = without(s, id);
    lemma_without(s, id, limit);
    assert(none_newer(rest, now)) by {
        if recorded(s, id) {
            let k = position_of(s, id);
            assert forall|i: int| 0 <= i < rest.len() implies (#[trigger] rest[i]).1 <= now by {
                let a = if i < k { i } else { i + 1 };
                assert(rest[i] == s[a]);
            }
        }
    }
    lemma_placed_at_rear(rest, id, now);
    let g = placed(rest, id, now);
    let r = marked(s, id, now, limit);
    assert(r.len() > 0 && r[r.len() - 1] == (id, now)) by {
        if g.len() > limit {
            assert(r[r.len() - 1] == g[r.len() - 1 + (g.len() - limit)]);
        }
    }
}

/// A ledger with a limit of zero never remembers anything: it is empty
/// after every mark, and every batch that holds an identifier is new.
pub proof fn law_zero_limit_forgets(s: Seq<Seen>, marks: Seq<Seen>, ids: Seq<Seq<char>>)
    requires
        orderly(s, 0),
        ids.len() > 0,
    ensures
        marked_each(s, marks, 0).len() == 0,
        any_unrecorded(marked_each(s, marks, 0), ids),
    decreases marks.len(),
{
    if marks.len() > 0 {
        law_zero_limit_forgets(s, marks.drop_last(), ids);
        let w = marked_each(s, marks.drop_last(), 0);
        lemma_without(w, marks.last().0, 0);
    }
    assert(!recorded(marked_each(s, marks, 0), ids[0]));
}

} // verus!
