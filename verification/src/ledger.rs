//! The recommendation ledger.
//!
//! Toggling whether a user recommends a problem is a two-sided mutation:
//! the problem id enters or leaves the user's recommended-id set, and the
//! problem's recommendation counter moves by exactly one. The ledger keeps
//! the two sides consistent: across any run of accepted toggles, a
//! problem's counter equals the number of users whose set holds its id.
//! Persisting both sides atomically is the storage layer's duty; this
//! module decides and applies the in-memory transition.

use vstd::prelude::*;
use crate::problems::Problem;
use crate::user::User;

verus! {

/// Why a toggle was refused. The first two are expected rejections of
/// redundant requests and leave the records untouched. The counter faults
/// signal a defect: an underflow means the store was already inconsistent,
/// an overflow that the counter cannot move further.
#[derive(Clone, Copy, Debug, PartialEq, Eq, Structural)]
pub enum ToggleError {
    AlreadyRecommended,
    NotRecommended,
    CounterUnderflow,
    CounterOverflow,
}

/// The toggle as a transition on the state it touches: the user's
/// recommended-id sequence and the problem's counter. `want` tells the
/// desired state: `true` to recommend, `false` to undo. A request that
/// would not change membership is rejected; an accepted one adds or
/// removes `pid` and moves the counter by exactly one.
pub open spec fn spec_toggle(ids: Seq<i32>, pid: i32, count: i32, want: bool) -> Result<
    (Seq<i32>, i32),
    ToggleError,
> {
    let already = ids.contains(pid);
    if want {
        if already {
            Err(ToggleError::AlreadyRecommended)
        } else if count == i32::MAX {
            Err(ToggleError::CounterOverflow)
        } else {
            Ok((ids.push(pid), (count + 1) as i32))
        }
    } else {
        if !already {
            Err(ToggleError::NotRecommended)
        } else if count <= 0 {
            Err(ToggleError::CounterUnderflow)
        } else {
            Ok((ids.remove_value(pid), (count - 1) as i32))
        }
    }
}

/// An accepted toggle keeps the recommended-id sequence duplicate-free.
pub proof fn lemma_toggle_keeps_no_duplicates(
    ids: Seq<i32>,
    pid: i32,
    count: i32,
    want: bool,
    ids2: Seq<i32>,
    count2: i32,
)
    requires
        ids.no_duplicates(),
        spec_toggle(ids, pid, count, want) == Ok::<(Seq<i32>, i32), ToggleError>((ids2, count2)),
    ensures
        ids2.no_duplicates(),
{
    if want {
        assert(ids2 == ids.push(pid));
        assert(forall|k: int| 0 <= k < ids.len() ==> ids2[k] == ids[k]);
        assert(ids2[ids.len() as int] == pid);
    } else {
        ids.index_of_first_ensures(pid);
        let fi = ids.index_of_first(pid)->Some_0;
        assert(ids2 == ids.remove(fi));
        ids.remove_ensures(fi);
    }
}

/// After an accepted removal the id is gone: in a duplicate-free sequence
/// the removed occurrence was the only one.
pub proof fn lemma_removed_id_is_gone(ids: Seq<i32>, pid: i32)
    requires
        ids.no_duplicates(),
        ids.contains(pid),
    ensures
        !ids.remove_value(pid).contains(pid),
{
    ids.index_of_first_ensures(pid);
    let fi = ids.index_of_first(pid)->Some_0;
    ids.remove_ensures(fi);
    let t = ids.remove(fi);
    assert forall|k: int| 0 <= k < t.len() implies t[k] != pid by {
        if k < fi {
            assert(t[k] == ids[k]);
        } else {
            assert(t[k] == ids[k + 1]);
        }
    }
}

/// Toggles whether `user` recommends `problem`. On success both records
/// are updated together as [`spec_toggle`] describes and the new counter
/// value is returned; on any refusal neither record changes.
pub fn toggle_recommendation(user: &mut User, problem: &mut Problem, want_recommended: bool) -> (r:
    Result<i32, ToggleError>)
    requires
        old(user).wf(),
        old(problem).wf(),
    ensures
        final(user).wf(),
        final(problem).wf(),
        final(user).id == old(user).id,
        final(user).name == old(user).name,
        final(user).pass == old(user).pass,
        final(problem).id == old(problem).id,
        final(problem).owner_id == old(problem).owner_id,
        final(problem).topic == old(problem).topic,
        final(problem).tags == old(problem).tags,
        final(problem).prompt == old(problem).prompt,
        final(problem).content == old(problem).content,
        match r {
            Ok(c) => {
                &&& spec_toggle(
                    old(user).recommended_ids@,
                    old(problem).id,
                    old(problem).recommendations,
                    want_recommended,
                ) == Ok::<(Seq<i32>, i32), ToggleError>((final(user).recommended_ids@, c))
                &&& final(problem).recommendations == c
            },
            Err(e) => {
                &&& spec_toggle(
                    old(user).recommended_ids@,
                    old(problem).id,
                    old(problem).recommendations,
                    want_recommended,
                ) == Err::<(Seq<i32>, i32), ToggleError>(e)
                &&& *final(user) == *old(user)
                &&& *final(problem) == *old(problem)
            },
        },
{
    let pid = problem.id;
    let already = user.has_recommended(pid);
    if want_recommended {
        if already {
            return Err(ToggleError::AlreadyRecommended);
        }
        if problem.recommendations == i32::MAX {
            return Err(ToggleError::CounterOverflow);
        }
        user.recommended_ids.push(pid);
        problem.recommendations = problem.recommendations + 1;
        proof {
            lemma_toggle_keeps_no_duplicates(
                old(user).recommended_ids@,
                pid,
                old(problem).recommendations,
                true,
                user.recommended_ids@,
                problem.recommendations,
            );
        }
        Ok(problem.recommendations)
    } else {
        if !already {
            return Err(ToggleError::NotRecommended);
        }
        if problem.recommendations <= 0 {
            return Err(ToggleError::CounterUnderflow);
        }
        let ghost old_ids = user.recommended_ids@;
        // find the (unique) position of pid
        let n = user.recommended_ids.len();
        let mut idx: usize = 0;
        while idx < n && user.recommended_ids[idx] != pid
            invariant
                0 <= idx <= n == user.recommended_ids@.len(),
                forall|k: int| 0 <= k < idx ==> user.recommended_ids@[k] != pid,
                user.recommended_ids@.contains(pid),
            decreases n - idx,
        {
            idx = idx + 1;
        }
        proof {
            if idx == n {
                let w = choose|w: int|
                    0 <= w < old_ids.len() && old_ids[w] == pid;
                assert(old_ids[w] == pid);
                assert(false);
            }
            old_ids.index_of_first_ensures(pid);
            let fi = old_ids.index_of_first(pid)->Some_0;
            assert(fi == idx as int);
            assert(old_ids.remove_value(pid) == old_ids.remove(idx as int));
        }
        user.recommended_ids.remove(idx);
        problem.recommendations = problem.recommendations - 1;
        proof {
            lemma_toggle_keeps_no_duplicates(
                old_ids,
                pid,
                old(problem).recommendations,
                false,
                user.recommended_ids@,
                problem.recommendations,
            );
        }
        Ok(problem.recommendations)
    }
}

// ------------------------------------------------------------------
// Laws of the ledger.
// ------------------------------------------------------------------
/// Law: after a successful "recommend", a second "recommend" for the same
/// user and problem is rejected as already recommended; by the toggle's
/// contract a rejection leaves both records unchanged.
pub proof fn lemma_recommend_twice_rejected(
    ids: Seq<i32>,
    pid: i32,
    count: i32,
    ids1: Seq<i32>,
    count1: i32,
)
    requires
        spec_toggle(ids, pid, count, true) == Ok::<(Seq<i32>, i32), ToggleError>((ids1, count1)),
    ensures
        spec_toggle(ids1, pid, count1, true) == Err::<(Seq<i32>, i32), ToggleError>(
            ToggleError::AlreadyRecommended,
        ),
{
    assert(ids1 == ids.push(pid));
    assert(ids1[ids.len() as int] == pid);
}

/// Law: on a valid problem record (counter non-negative), a "recommend"
/// followed by an "undo" returns the counter to its original value and
/// removes the id exactly once, restoring the original recommended-id
/// sequence.
pub proof fn lemma_recommend_undo_round_trip(
    ids: Seq<i32>,
    pid: i32,
    count: i32,
    ids1: Seq<i32>,
    count1: i32,
)
    requires
        count >= 0,
        spec_toggle(ids, pid, count, true) == Ok::<(Seq<i32>, i32), ToggleError>((ids1, count1)),
    ensures
        spec_toggle(ids1, pid, count1, false) == Ok::<(Seq<i32>, i32), ToggleError>((ids, count)),
{
    assert(ids1 == ids.push(pid));
    assert(ids1[ids.len() as int] == pid);
    ids1.index_of_first_ensures(pid);
    let fi = ids1.index_of_first(pid)->Some_0;
    assert(forall|k: int| 0 <= k < ids.len() ==> ids1[k] == ids[k]);
    assert(!ids.contains(pid));
    assert forall|k: int| 0 <= k < ids.len() implies ids1[k] != pid by {
        assert(ids1[k] == ids[k]);
        if ids[k] == pid {
            assert(ids.contains(pid));
        }
    }
    assert(fi == ids.len() as int);
    assert(ids1.remove(ids.len() as int) =~= ids);
}

/// How many of the given recommended-id sequences contain `pid`: one per
/// user record, in a store where each user appears once.
pub open spec fn count_recommenders(sets: Seq<Seq<i32>>, pid: i32) -> int
    decreases sets.len(),
{
    if sets.len() == 0 {
        0
    } else {
        count_recommenders(sets.drop_last(), pid) + if sets.last().contains(pid) {
            1int
        } else {
            0int
        }
    }
}

/// Replacing one entry moves the count by the difference in membership.
proof fn lemma_count_recommenders_update(sets: Seq<Seq<i32>>, j: int, t: Seq<i32>, pid: i32)
    requires
        0 <= j < sets.len(),
    ensures
        count_recommenders(sets.update(j, t), pid) == count_recommenders(sets, pid) + (
        if t.contains(pid) {
            1int
        } else {
            0int
        }) - (
        if sets[j].contains(pid) {
            1int
        } else {
            0int
        }),
    decreases sets.len(),
{
    let u = sets.update(j, t);
    if j == sets.len() - 1 {
        assert(u.drop_last() =~= sets.drop_last());
        assert(u.last() == t);
    } else {
        assert(u.drop_last() =~= sets.drop_last().update(j, t));
        assert(u.last() == sets.last());
        lemma_count_recommenders_update(sets.drop_last(), j, t, pid);
        assert(sets.drop_last()[j] == sets[j]);
    }
}

/// Law (one step of the ledger invariant): if a problem's counter equals
/// the number of users recommending it, an accepted toggle for any one
/// user leaves the new counter equal to the new number of recommenders.
pub proof fn lemma_toggle_preserves_consistency(
    sets: Seq<Seq<i32>>,
    j: int,
    pid: i32,
    count: i32,
    want: bool,
    ids2: Seq<i32>,
    count2: i32,
)
    requires
        0 <= j < sets.len(),
        sets[j].no_duplicates(),
        spec_toggle(sets[j], pid, count, want) == Ok::<(Seq<i32>, i32), ToggleError>(
            (ids2, count2),
        ),
        count == count_recommenders(sets, pid),
    ensures
        count2 == count_recommenders(sets.update(j, ids2), pid),
{
    lemma_count_recommenders_update(sets, j, ids2, pid);
    if want {
        assert(ids2 == sets[j].push(pid));
        assert(ids2[sets[j].len() as int] == pid);
        assert(ids2.contains(pid));
    } else {
        lemma_removed_id_is_gone(sets[j], pid);
    }
}

/// A run of toggle requests against one problem: each names a user by
/// position and a desired state. The run is accepted only if every step
/// names a valid user and is itself accepted.
pub open spec fn apply_toggles(
    sets: Seq<Seq<i32>>,
    pid: i32,
    count: i32,
    ops: Seq<(int, bool)>,
) -> Option<(Seq<Seq<i32>>, i32)>
    decreases ops.len(),
{
    if ops.len() == 0 {
        Some((sets, count))
    } else if 0 <= ops[0].0 < sets.len() {
        match spec_toggle(sets[ops[0].0], pid, count, ops[0].1) {
            Ok(res) => apply_toggles(sets.update(ops[0].0, res.0), pid, res.1, ops.drop_first()),
            Err(e) => None,
        }
    } else {
        None
    }
}

/// Law (the ledger invariant): starting from a consistent store of
/// duplicate-free user records, any accepted run of toggles ends with the
/// problem's counter equal to the number of users whose set holds its id.
pub proof fn lemma_toggles_preserve_consistency(
    sets: Seq<Seq<i32>>,
    pid: i32,
    count: i32,
    ops: Seq<(int, bool)>,
    sets2: Seq<Seq<i32>>,
    count2: i32,
)
    requires
        forall|i: int| 0 <= i < sets.len() ==> (#[trigger] sets[i]).no_duplicates(),
        count == count_recommenders(sets, pid),
        apply_toggles(sets, pid, count, ops) == Some::<(Seq<Seq<i32>>, i32)>((sets2, count2)),
    ensures
        count2 == count_recommenders(sets2, pid),
    decreases ops.len(),
{
    if ops.len() > 0 {
        let j = ops[0].0;
        let res = spec_toggle(sets[j], pid, count, ops[0].1)->Ok_0;
        lemma_toggle_preserves_consistency(sets, j, pid, count, ops[0].1, res.0, res.1);
        lemma_toggle_keeps_no_duplicates(sets[j], pid, count, ops[0].1, res.0, res.1);
        let mid = sets.update(j, res.0);
        assert(forall|i: int|
            0 <= i < mid.len() ==> (#[trigger] mid[i]).no_duplicates());
        lemma_toggles_preserve_consistency(mid, pid, res.1, ops.drop_first(), sets2, count2);
    }
}

} // verus!
