//! Frontiers: the boundaries in logical time up to which inputs are closed
//! and from which the output of a view can be relied on.

use crate::time::Timestamp;
use vstd::prelude::*;

verus! {

/// Whether a frontier has passed a time: every element of it is later.
pub open spec fn passed(frontier: Seq<Timestamp>, time: Timestamp) -> bool {
    forall|i: int| 0 <= i < frontier.len() ==> frontier[i] > time
}

/// Whether every one of the input frontiers has passed a time, so that
/// output for it may be made final.
pub open spec fn closed(frontiers: Seq<Seq<Timestamp>>, time: Timestamp) -> bool {
    forall|i: int| 0 <= i < frontiers.len() ==> passed(#[trigger] frontiers[i], time)
}

/// Whether an as-of frontier admits a query at a time: the time is at or
/// beyond every element of it.
pub open spec fn admits(as_of: Seq<Timestamp>, time: Timestamp) -> bool {
    forall|i: int| 0 <= i < as_of.len() ==> as_of[i] <= time
}

/// Whether a new as-of frontier is at least as tight as an old one: it
/// admits no time that the old one does not.
pub open spec fn tightens(old_as_of: Seq<Timestamp>, new_as_of: Seq<Timestamp>) -> bool {
    forall|time: Timestamp| admits(new_as_of, time) ==> #[trigger] admits(old_as_of, time)
}

/// Whether a time bounds a frontier from above and, unless it is zero, is
/// an element of it.
pub open spec fn is_latest(frontier: Seq<Timestamp>, time: Timestamp) -> bool {
    &&& forall|i: int| 0 <= i < frontier.len() ==> frontier[i] <= time
    &&& time == 0 || exists|i: int| 0 <= i < frontier.len() && frontier[i] == time
}

/// Whether a frontier has passed a time: whether all of its elements are
/// later.
pub fn has_passed(frontier: &[Timestamp], time: Timestamp) -> (r: bool)
    ensures
        r == passed(frontier@, time),
{
    let mut i: usize = 0;
    while i < frontier.len()
        invariant
            i <= frontier.len(),
            forall|j: int| 0 <= j < i ==> frontier@[j] > time,
        decreases frontier.len() - i,
    {
        if frontier[i] <= time {
            return false;
        }
        i = i + 1;
    }
    true
}

/// Whether output at a time may be made final: whether every input frontier
/// has passed the time.
pub fn may_finalize(frontiers: &Vec<Vec<Timestamp>>, time: Timestamp) -> (r: bool)
    ensures
        r == closed(frontiers.deep_view(), time),
{
    let ghost views = frontiers.deep_view();
    let mut i: usize = 0;
    while i < frontiers.len()
        invariant
            i <= frontiers.len(),
            views == frontiers.deep_view(),
            forall|j: int| 0 <= j < i ==> passed(#[trigger] views[j], time),
        decreases frontiers.len() - i,
    {
        assert(views[i as int] =~= frontiers@[i as int]@);
        if !has_passed(frontiers[i].as_slice(), time) {
            return false;
        }
        i = i + 1;
    }
    true
}

/// Two frontiers as one: a time has passed by the merged frontier exactly
/// when it has by both.
pub fn merge(left: &[Timestamp], right: &[Timestamp]) -> (merged: Vec<Timestamp>)
    ensures
        merged@ == left@ + right@,
        forall|time: Timestamp|
            #[trigger] passed(merged@, time) <==> passed(left@, time) && passed(right@, time),
{
    let mut merged: Vec<Timestamp> = Vec::new();
    let mut i: usize = 0;
    while i < left.len()
        invariant
            i <= left.len(),
            merged@ == left@.take(i as int),
        decreases left.len() - i,
    {
        merged.push(left[i]);
        i = i + 1;
    }
    let mut k: usize = 0;
    while k < right.len()
        invariant
            k <= right.len(),
            merged@ == left@ + right@.take(k as int),
        decreases right.len() - k,
    {
        merged.push(right[k]);
        k = k + 1;
    }
    assert(right@.take(k as int) =~= right@);
    assert forall|time: Timestamp|
        #[trigger] passed(merged@, time) <==> passed(left@, time) && passed(right@, time) by {
        let whole = left@ + right@;
        if passed(whole, time) {
            assert forall|j: int| 0 <= j < left@.len() implies left@[j] > time by {
                assert(whole[j] == left@[j]);
            }
            assert forall|j: int| 0 <= j < right@.len() implies right@[j] > time by {
                assert(whole[left@.len() + j] == right@[j]);
            }
        }
    }
    merged
}

/// Whether an as-of frontier admits a query at a time.
pub fn admits_at(as_of: &[Timestamp], time: Timestamp) -> (r: bool)
    ensures
        r == admits(as_of@, time),
{
    let mut i: usize = 0;
    while i < as_of.len()
        invariant
            i <= as_of.len(),
            forall|j: int| 0 <= j < i ==> as_of@[j] <= time,
        decreases as_of.len() - i,
    {
        if as_of[i] > time {
            return false;
        }
        i = i + 1;
    }
    true
}

/// The latest element of a frontier, or zero for the empty frontier: the
/// first time that the frontier, as an as-of, admits.
pub fn latest(frontier: &[Timestamp]) -> (time: Timestamp)
    ensures
        is_latest(frontier@, time),
        forall|at: Timestamp| #[trigger] admits(frontier@, at) <==> at >= time,
{
    let mut time: Timestamp = 0;
    let mut i: usize = 0;
    while i < frontier.len()
        invariant
            i <= frontier.len(),
            is_latest(frontier@.take(i as int), time),
        decreases frontier.len() - i,
    {
        let ghost prefix = frontier@.take(i as int);
        let ghost longer = frontier@.take(i + 1);
        if frontier[i] > time {
            time = frontier[i];
            assert(longer[i as int] == time);
        } else if time != 0 {
            let ghost at = choose|j: int| 0 <= j < prefix.len() && prefix[j] == time;
            assert(longer[at] == time);
        }
        i = i + 1;
    }
    assert(frontier@.take(i as int) =~= frontier@);
    time
}

/// Whether a new as-of frontier is at least as tight as an old one.
pub fn is_tightening(old_as_of: &[Timestamp], new_as_of: &[Timestamp]) -> (r: bool)
    ensures
        r == tightens(old_as_of@, new_as_of@),
{
    let old_latest = latest(old_as_of);
    let new_latest = latest(new_as_of);
    proof {
        if new_latest < old_latest {
            assert(!admits(old_as_of@, new_latest));
        }
    }
    new_latest >= old_latest
}

} // verus!
