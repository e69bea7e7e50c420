//! Candidate assignments at the index level: rooms of person indices, their
//! well-formedness (capacity, category, avoidance), and the feasibility check
//! for adding one person to one room.

use vstd::prelude::*;
use crate::roster::Roster;
use crate::types::MAX_POPULATION;

verus! {

/// One room of a candidate assignment: a category index, the member indices
/// in placement order, and the fixed capacity the planner assigned.
pub struct IxRoom {
    pub category: usize,
    pub members: Vec<usize>,
    pub max_size: usize,
}

impl IxRoom {
    /// Room well-formedness against a roster: the capacity invariant, member
    /// indices in range and no more members than people, every member of the
    /// room's category, and no member pair blocked by an avoid constraint
    /// (in either direction).
    pub open spec fn wf(self, ro: Roster) -> bool {
        &&& (self.category as int) < ro.ncats()
        &&& self.members@.len() <= self.max_size
        &&& self.max_size <= MAX_POPULATION
        &&& forall|i: int|
            0 <= i < self.members@.len() ==> ((#[trigger] self.members@[i]) as int) < ro.n()
        &&& forall|i: int|
            0 <= i < self.members@.len() ==> ro.category_of@[(#[trigger] self.members@[i]) as int]
                == self.category
        &&& forall|i: int, j: int|
            0 <= i < j < self.members@.len() ==> !ro.blocked(
                self.members@[i] as int,
                self.members@[j] as int,
            )
    }
}

/// How many entries of `s` equal `x`.
pub open spec fn count_in(s: Seq<usize>, x: usize) -> int
    decreases s.len(),
{
    if s.len() == 0 {
        0
    } else {
        count_in(s.drop_last(), x) + if s.last() == x {
            1int
        } else {
            0int
        }
    }
}

/// How many times person `x` is seated across the whole assignment.
pub open spec fn occ_total(sol: Seq<IxRoom>, x: usize) -> int
    decreases sol.len(),
{
    if sol.len() == 0 {
        0
    } else {
        occ_total(sol.drop_last(), x) + count_in(sol.last().members@, x)
    }
}

/// A partially filled assignment: every room well-formed, and no more rooms
/// than people.
pub open spec fn sol_wf(sol: Seq<IxRoom>, ro: Roster) -> bool {
    &&& sol.len() <= ro.n()
    &&& forall|r: int| 0 <= r < sol.len() ==> (#[trigger] sol[r]).wf(ro)
}

/// A complete, feasible assignment: well-formed and seating every person
/// exactly once.
pub open spec fn complete_wf(sol: Seq<IxRoom>, ro: Roster) -> bool {
    &&& sol_wf(sol, ro)
    &&& forall|p: usize| (p as int) < ro.n() ==> #[trigger] occ_total(sol, p) == 1
}

/// Whether `s` holds `x`, as executable code.
pub fn contains_ix(s: &Vec<usize>, x: usize) -> (r: bool)
    ensures
        r == s@.contains(x),
{
    let mut k: usize = 0;
    while k < s.len()
        invariant
            k <= s@.len(),
            forall|i: int| 0 <= i < k ==> s@[i] != x,
        decreases s@.len() - k,
    {
        if s[k] == x {
            return true;
        }
        k = k + 1;
    }
    false
}

/// The feasibility predicate for placing person `p` in `room`: the categories
/// must agree, and no current member may be blocked against `p` by either
/// party's avoid list.
pub open spec fn feasible_addition(ro: Roster, room: IxRoom, p: int) -> bool {
    &&& room.category == ro.category_of@[p]
    &&& forall|i: int|
        0 <= i < room.members@.len() ==> !ro.blocked(p, (#[trigger] room.members@[i]) as int)
}

/// Decides whether person `p` may be added to `room`: false on a category
/// mismatch, false when `p` avoids a current member or a current member
/// avoids `p` (avoidance blocks symmetrically), true otherwise.
/// Capacity is checked separately by the callers.
pub fn is_feasible_addition(ro: &Roster, room: &IxRoom, p: usize) -> (r: bool)
    requires
        ro.wf(),
        (p as int) < ro.n(),
        forall|i: int|
            0 <= i < room.members@.len() ==> ((#[trigger] room.members@[i]) as int) < ro.n(),
    ensures
        r == feasible_addition(*ro, *room, p as int),
{
    if room.category != ro.category_of[p] {
        return false;
    }
    let mut k: usize = 0;
    while k < room.members.len()
        invariant
            k <= room.members@.len(),
            forall|i: int| 0 <= i < k ==> !ro.blocked(p as int, (#[trigger] room.members@[i]) as int),
        decreases room.members@.len() - k,
    {
        let m = room.members[k];
        if contains_ix(&ro.avoids_ix[p], m) {
            return false;
        }
        if contains_ix(&ro.avoids_ix[m], p) {
            return false;
        }
        k = k + 1;
    }
    true
}

/// Appending a member to one room leaves every other person's seat count
/// unchanged and raises the new member's count by one.
pub proof fn lemma_occ_after_add(sol: Seq<IxRoom>, r: int, room2: IxRoom, x: usize)
    requires
        0 <= r < sol.len(),
        room2.category == sol[r].category,
        room2.max_size == sol[r].max_size,
        room2.members@ == sol[r].members@.push(x),
    ensures
        forall|q: usize| q != x ==> occ_total(sol.update(r, room2), q) == occ_total(sol, q),
        occ_total(sol.update(r, room2), x) == occ_total(sol, x) + 1,
{
    assert forall|q: usize| #[trigger] occ_total(sol.update(r, room2), q) == occ_total(sol, q)
        + if q == x {
        1int
    } else {
        0int
    } by {
        assert(room2.members@.last() == x);
        lemma_occ_update(sol, r, room2, q);
        lemma_count_push(sol[r].members@, x, q);
    }
}

proof fn lemma_count_push(s: Seq<usize>, x: usize, q: usize)
    ensures
        count_in(s.push(x), q) == count_in(s, q) + if q == x {
            1int
        } else {
            0int
        },
{
    assert(s.push(x).drop_last() =~= s);
    assert(s.push(x).last() == x);
}

proof fn lemma_occ_update(sol: Seq<IxRoom>, r: int, room2: IxRoom, q: usize)
    requires
        0 <= r < sol.len(),
        room2.members@ == sol[r].members@.push(room2.members@.last()),
    ensures
        occ_total(sol.update(r, room2), q) == occ_total(sol, q) + count_in(room2.members@, q)
            - count_in(sol[r].members@, q),
    decreases sol.len(),
{
    let sol2 = sol.update(r, room2);
    if r == sol.len() - 1 {
        assert(sol2.drop_last() =~= sol.drop_last());
        assert(sol2.last() == room2);
    } else {
        assert(sol2.drop_last() =~= sol.drop_last().update(r, room2));
        assert(sol2.last() == sol.last());
        lemma_occ_update(sol.drop_last(), r, room2, q);
    }
}

} // verus!
