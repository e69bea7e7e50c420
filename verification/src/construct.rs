//! The candidate constructor: builds one complete, feasible-as-possible
//! assignment from scratch with a seeded random stream. Phase one pairs
//! mutual friends (hint-guided), phase two places the remainder best-fit;
//! if anyone cannot be placed the whole candidate is discarded.

use vstd::prelude::*;
use crate::roster::{Roster, cat_pop_upto};
use crate::solution::{
    IxRoom, contains_ix, count_in, feasible_addition, is_feasible_addition, lemma_occ_after_add,
    occ_total, sol_wf, complete_wf,
};
use crate::scoring::{cat_count, count_matches, match_count};
use crate::hints::PairHints;
use crate::rng::SearchRng;

verus! {

/// Total number of rooms a set of per-category plans opens.
pub open spec fn total_rooms(plans: Seq<Vec<usize>>) -> int
    decreases plans.len(),
{
    if plans.len() == 0 {
        0
    } else {
        total_rooms(plans.drop_last()) + plans.last()@.len()
    }
}

/// Well-formed per-category plans: one size list per category, every size
/// between 1 and the population, and no more rooms in total than people.
pub open spec fn plans_wf(plans: Seq<Vec<usize>>, ro: Roster) -> bool {
    &&& plans.len() == ro.ncats()
    &&& total_rooms(plans) <= ro.n()
    &&& forall|c: int, k: int|
        0 <= c < plans.len() && 0 <= k < plans[c]@.len() ==> 1 <= (#[trigger] plans[c]@[k]) as int
            <= ro.n()
}

/// Sum of a plan's sizes.
pub open spec fn plan_sum(sizes: Seq<usize>) -> int
    decreases sizes.len(),
{
    if sizes.len() == 0 {
        0
    } else {
        plan_sum(sizes.drop_last()) + sizes.last()
    }
}

/// Capacities of the rooms of category `c`, in room order.
pub open spec fn cat_capacities(sol: Seq<IxRoom>, c: usize) -> Seq<usize>
    decreases sol.len(),
{
    if sol.len() == 0 {
        Seq::empty()
    } else {
        let rest = cat_capacities(sol.drop_last(), c);
        if sol.last().category == c {
            rest.push(sol.last().max_size)
        } else {
            rest
        }
    }
}

/// Seats filled across the rooms of category `c`.
pub open spec fn cat_members(sol: Seq<IxRoom>, c: usize) -> int
    decreases sol.len(),
{
    if sol.len() == 0 {
        0
    } else {
        cat_members(sol.drop_last(), c) + if sol.last().category == c {
            sol.last().members@.len() as int
        } else {
            0int
        }
    }
}

/// Seated people of category `c` among the first `k`.
pub open spec fn placed_cat(ro: Roster, placed: Seq<bool>, c: usize, k: int) -> int
    decreases k,
{
    if k <= 0 {
        0
    } else {
        placed_cat(ro, placed, c, k - 1) + if placed[k - 1] && ro.category_of@[k - 1] == c {
            1int
        } else {
            0int
        }
    }
}

/// No avoid constraint stands between any two people.
pub open spec fn unconstrained(ro: Roster) -> bool {
    forall|p: int, q: int| 0 <= p < ro.n() && 0 <= q < ro.n() ==> !ro.blocked(p, q)
}

/// Every category's planned capacity equals its population exactly.
pub open spec fn plans_cover(plans: Seq<Vec<usize>>, ro: Roster) -> bool {
    forall|c: int|
        0 <= c < plans.len() ==> #[trigger] plan_sum(plans[c]@) == ro.category_population(c)
}

/// The current rooms' capacities cover every category's population exactly.
pub open spec fn capacities_cover(ro: Roster, sol: Seq<IxRoom>) -> bool {
    forall|c: usize|
        (c as int) < ro.ncats() ==> #[trigger] plan_sum(cat_capacities(sol, c))
            == ro.category_population(c as int)
}

/// The constructor's loop invariant: a well-formed partial assignment whose
/// seat counts agree with the `placed` flags, per person and per category.
pub open spec fn inv(ro: Roster, sol: Seq<IxRoom>, placed: Seq<bool>) -> bool {
    &&& sol_wf(sol, ro)
    &&& placed.len() == ro.n()
    &&& forall|p: usize|
        (p as int) < ro.n() ==> #[trigger] occ_total(sol, p) == (if placed[p as int] {
            1int
        } else {
            0int
        })
    &&& forall|c: usize|
        (c as int) < ro.ncats() ==> #[trigger] cat_members(sol, c) == placed_cat(
            ro,
            placed,
            c,
            ro.n(),
        )
}

/// The room layout demanded by the plans: per category, exactly as many
/// rooms as the plan lists sizes, with exactly the planned capacities, in
/// plan order.
pub open spec fn frame_wf(sol: Seq<IxRoom>, plans: Seq<Vec<usize>>, ro: Roster) -> bool {
    &&& forall|c: usize|
        (c as int) < ro.ncats() ==> #[trigger] cat_count(sol, c) == plans[c as int]@.len()
    &&& forall|c: usize|
        (c as int) < ro.ncats() ==> #[trigger] cat_capacities(sol, c) == plans[c as int]@
}

proof fn lemma_total_rooms_take(plans: Seq<Vec<usize>>, c: int)
    requires
        0 <= c < plans.len(),
    ensures
        total_rooms(plans.take(c + 1)) == total_rooms(plans.take(c)) + plans[c]@.len(),
{
    assert(plans.take(c + 1).drop_last() =~= plans.take(c));
    assert(plans.take(c + 1).last() == plans[c]);
}

proof fn lemma_total_rooms_mono(plans: Seq<Vec<usize>>, c: int)
    requires
        0 <= c <= plans.len(),
    ensures
        total_rooms(plans.take(c)) <= total_rooms(plans),
        total_rooms(plans.take(c)) >= 0,
    decreases plans.len() - c,
{
    lemma_total_rooms_nonneg(plans.take(c));
    if c == plans.len() {
        assert(plans.take(c) =~= plans);
    } else {
        lemma_total_rooms_take(plans, c);
        lemma_total_rooms_mono(plans, c + 1);
    }
}

proof fn lemma_total_rooms_nonneg(plans: Seq<Vec<usize>>)
    ensures
        total_rooms(plans) >= 0,
    decreases plans.len(),
{
    if plans.len() > 0 {
        lemma_total_rooms_nonneg(plans.drop_last());
    }
}

proof fn lemma_push_room_counts(sol: Seq<IxRoom>, room: IxRoom, c: usize, x: usize)
    ensures
        cat_count(sol.push(room), c) == cat_count(sol, c) + if room.category == c {
            1int
        } else {
            0int
        },
        occ_total(sol.push(room), x) == occ_total(sol, x) + count_in(room.members@, x),
{
    assert(sol.push(room).drop_last() =~= sol);
    assert(sol.push(room).last() == room);
}

proof fn lemma_cat_count_update(sol: Seq<IxRoom>, r: int, room2: IxRoom, c: usize)
    requires
        0 <= r < sol.len(),
        room2.category == sol[r].category,
    ensures
        cat_count(sol.update(r, room2), c) == cat_count(sol, c),
    decreases sol.len(),
{
    let sol2 = sol.update(r, room2);
    if r == sol.len() - 1 {
        assert(sol2.drop_last() =~= sol.drop_last());
        assert(sol2.last() == room2);
    } else {
        assert(sol2.drop_last() =~= sol.drop_last().update(r, room2));
        assert(sol2.last() == sol.last());
        lemma_cat_count_update(sol.drop_last(), r, room2, c);
    }
}

proof fn lemma_cat_push(sol: Seq<IxRoom>, room: IxRoom, c: usize)
    ensures
        cat_capacities(sol.push(room), c) == if room.category == c {
            cat_capacities(sol, c).push(room.max_size)
        } else {
            cat_capacities(sol, c)
        },
        cat_members(sol.push(room), c) == cat_members(sol, c) + if room.category == c {
            room.members@.len() as int
        } else {
            0int
        },
{
    assert(sol.push(room).drop_last() =~= sol);
    assert(sol.push(room).last() == room);
}

proof fn lemma_cat_update_add(sol: Seq<IxRoom>, r: int, room2: IxRoom, c: usize)
    requires
        0 <= r < sol.len(),
        room2.category == sol[r].category,
        room2.max_size == sol[r].max_size,
        room2.members@.len() == sol[r].members@.len() + 1,
    ensures
        cat_capacities(sol.update(r, room2), c) == cat_capacities(sol, c),
        cat_members(sol.update(r, room2), c) == cat_members(sol, c) + if sol[r].category == c {
            1int
        } else {
            0int
        },
    decreases sol.len(),
{
    let sol2 = sol.update(r, room2);
    if r == sol.len() - 1 {
        assert(sol2.drop_last() =~= sol.drop_last());
        assert(sol2.last() == room2);
    } else {
        assert(sol2.drop_last() =~= sol.drop_last().update(r, room2));
        assert(sol2.last() == sol.last());
        lemma_cat_update_add(sol.drop_last(), r, room2, c);
    }
}

proof fn lemma_placed_cat_all_false(ro: Roster, placed: Seq<bool>, c: usize, k: int)
    requires
        0 <= k <= placed.len(),
        forall|i: int| 0 <= i < k ==> !(#[trigger] placed[i]),
    ensures
        placed_cat(ro, placed, c, k) == 0,
    decreases k,
{
    if k > 0 {
        lemma_placed_cat_all_false(ro, placed, c, k - 1);
    }
}

proof fn lemma_placed_cat_update(ro: Roster, placed: Seq<bool>, p: int, c: usize, k: int)
    requires
        0 <= p < placed.len(),
        0 <= k <= placed.len(),
    ensures
        placed_cat(ro, placed.update(p, true), c, k) == placed_cat(ro, placed, c, k) + if p < k
            && !placed[p] && ro.category_of@[p] == c {
            1int
        } else {
            0int
        },
    decreases k,
{
    if k > 0 {
        lemma_placed_cat_update(ro, placed, p, c, k - 1);
    }
}

proof fn lemma_placed_cat_le(ro: Roster, placed: Seq<bool>, c: usize, k: int)
    requires
        0 <= k,
    ensures
        placed_cat(ro, placed, c, k) <= cat_pop_upto(ro.category_of@, c, k),
    decreases k,
{
    if k > 0 {
        lemma_placed_cat_le(ro, placed, c, k - 1);
    }
}

proof fn lemma_placed_cat_lt(ro: Roster, placed: Seq<bool>, c: usize, p: int, k: int)
    requires
        0 <= p < k,
        !placed[p],
        ro.category_of@[p] == c,
    ensures
        placed_cat(ro, placed, c, k) + 1 <= cat_pop_upto(ro.category_of@, c, k),
    decreases k,
{
    if p == k - 1 {
        lemma_placed_cat_le(ro, placed, c, k - 1);
    } else {
        lemma_placed_cat_lt(ro, placed, c, p, k - 1);
    }
}

/// If every room of category `c` is full, the category's seats equal its
/// whole planned capacity.
proof fn lemma_cat_full(sol: Seq<IxRoom>, c: usize)
    requires
        forall|r: int|
            0 <= r < sol.len() && (#[trigger] sol[r]).category == c ==> sol[r].members@.len()
                == sol[r].max_size,
    ensures
        cat_members(sol, c) == plan_sum(cat_capacities(sol, c)),
    decreases sol.len(),
{
    if sol.len() > 0 {
        assert forall|r: int|
            0 <= r < sol.drop_last().len() && (#[trigger] sol.drop_last()[r]).category == c
            implies sol.drop_last()[r].members@.len() == sol.drop_last()[r].max_size by {
            assert(sol.drop_last()[r] == sol[r]);
        }
        lemma_cat_full(sol.drop_last(), c);
        if sol.last().category == c {
            assert(sol[sol.len() - 1].members@.len() == sol[sol.len() - 1].max_size);
            let caps = cat_capacities(sol.drop_last(), c);
            assert(caps.push(sol.last().max_size).drop_last() =~= caps);
        }
    }
}

/// Opens the empty rooms the plans call for, category by category.
pub fn make_frame(ro: &Roster, plans: &Vec<Vec<usize>>) -> (sol: Vec<IxRoom>)
    requires
        ro.wf(),
        plans_wf(plans@, *ro),
    ensures
        sol_wf(sol@, *ro),
        frame_wf(sol@, plans@, *ro),
        forall|x: usize| #[trigger] occ_total(sol@, x) == 0,
        forall|c: usize| #[trigger] cat_members(sol@, c) == 0,
        forall|r: int| 0 <= r < sol@.len() ==> (#[trigger] sol@[r]).members@.len() == 0,
{
    let mut sol: Vec<IxRoom> = Vec::new();
    let mut c: usize = 0;
    while c < plans.len()
        invariant
            ro.wf(),
            plans_wf(plans@, *ro),
            c <= plans@.len(),
            sol@.len() == total_rooms(plans@.take(c as int)),
            sol_wf(sol@, *ro),
            forall|cc: usize| cc < c ==> #[trigger] cat_count(sol@, cc) == plans@[cc as int]@.len(),
            forall|cc: usize|
                c <= cc && (cc as int) < ro.ncats() ==> #[trigger] cat_count(sol@, cc) == 0,
            forall|cc: usize|
                cc < c ==> #[trigger] cat_capacities(sol@, cc) == plans@[cc as int]@,
            forall|cc: usize|
                c <= cc && (cc as int) < ro.ncats() ==> #[trigger] cat_capacities(sol@, cc)
                    == Seq::<usize>::empty(),
            forall|cc: usize| #[trigger] cat_members(sol@, cc) == 0,
            forall|x: usize| #[trigger] occ_total(sol@, x) == 0,
            forall|r: int| 0 <= r < sol@.len() ==> (#[trigger] sol@[r]).members@.len() == 0,
        decreases plans@.len() - c,
    {
        let sizes = &plans[c];
        let mut k: usize = 0;
        while k < sizes.len()
            invariant
                ro.wf(),
                plans_wf(plans@, *ro),
                (c as int) < plans@.len(),
                sizes@ == plans@[c as int]@,
                k <= sizes@.len(),
                sol@.len() == total_rooms(plans@.take(c as int)) + k,
                sol_wf(sol@, *ro),
                forall|cc: usize|
                    cc < c ==> #[trigger] cat_count(sol@, cc) == plans@[cc as int]@.len(),
                cat_count(sol@, c) == k,
                forall|cc: usize|
                    c < cc && (cc as int) < ro.ncats() ==> #[trigger] cat_count(sol@, cc) == 0,
                forall|cc: usize|
                    cc < c ==> #[trigger] cat_capacities(sol@, cc) == plans@[cc as int]@,
                cat_capacities(sol@, c) == plans@[c as int]@.take(k as int),
                forall|cc: usize|
                    c < cc && (cc as int) < ro.ncats() ==> #[trigger] cat_capacities(sol@, cc)
                        == Seq::<usize>::empty(),
                forall|cc: usize| #[trigger] cat_members(sol@, cc) == 0,
                forall|x: usize| #[trigger] occ_total(sol@, x) == 0,
                forall|r: int| 0 <= r < sol@.len() ==> (#[trigger] sol@[r]).members@.len() == 0,
            decreases sizes@.len() - k,
        {
            proof {
                lemma_total_rooms_take(plans@, c as int);
                lemma_total_rooms_mono(plans@, c as int + 1);
                lemma_total_rooms_mono(plans@, c as int);
            }
            let room = IxRoom { category: c, members: Vec::new(), max_size: sizes[k] };
            let ghost old_sol = sol@;
            sol.push(room);
            proof {
                assert forall|cc: usize| #[trigger] cat_count(sol@, cc) == cat_count(old_sol, cc)
                    + if cc == c {
                    1int
                } else {
                    0int
                } by {
                    lemma_push_room_counts(old_sol, room, cc, 0);
                }
                assert forall|x: usize| #[trigger] occ_total(sol@, x) == 0 by {
                    lemma_push_room_counts(old_sol, room, 0, x);
                }
                assert forall|cc: usize| #[trigger] cat_capacities(sol@, cc) == (if cc == c {
                    cat_capacities(old_sol, cc).push(room.max_size)
                } else {
                    cat_capacities(old_sol, cc)
                }) by {
                    lemma_cat_push(old_sol, room, cc);
                }
                assert forall|cc: usize| #[trigger] cat_members(sol@, cc) == 0 by {
                    lemma_cat_push(old_sol, room, cc);
                }
                assert(plans@[c as int]@.take(k + 1).drop_last() =~= plans@[c as int]@.take(
                    k as int,
                ));
                assert(cat_capacities(sol@, c) =~= plans@[c as int]@.take(k + 1));
            }
            k = k + 1;
        }
        proof {
            lemma_total_rooms_take(plans@, c as int);
            assert(cat_capacities(sol@, c) =~= plans@[c as int]@) by {
                assert(plans@[c as int]@.take(plans@[c as int]@.len() as int) =~= plans@[
                    c as int
                ]@);
            }
        }
        c = c + 1;
    }
    proof {
        assert(plans@.take(plans@.len() as int) =~= plans@);
        lemma_total_rooms_mono(plans@, plans@.len() as int);
    }
    sol
}

/// Seats `p` in room `r`: appends the member, flips the placed flag, and
/// preserves every constructor invariant. The caller has checked space and
/// feasibility.
fn add_member(ro: &Roster, sol: &mut Vec<IxRoom>, r: usize, p: usize, placed: &mut Vec<bool>)
    requires
        ro.wf(),
        inv(*ro, old(sol)@, old(placed)@),
        (r as int) < old(sol)@.len(),
        (p as int) < ro.n(),
        !old(placed)@[p as int],
        old(sol)@[r as int].members@.len() < old(sol)@[r as int].max_size,
        feasible_addition(*ro, old(sol)@[r as int], p as int),
    ensures
        inv(*ro, final(sol)@, final(placed)@),
        final(sol)@.len() == old(sol)@.len(),
        final(placed)@ == old(placed)@.update(p as int, true),
        final(sol)@[r as int].category == old(sol)@[r as int].category,
        final(sol)@[r as int].max_size == old(sol)@[r as int].max_size,
        final(sol)@[r as int].members@ == old(sol)@[r as int].members@.push(p),
        forall|rr: int|
            0 <= rr < old(sol)@.len() && rr != r ==> final(sol)@[rr] == old(sol)@[rr],
        forall|c: usize| #[trigger] cat_count(final(sol)@, c) == cat_count(old(sol)@, c),
        forall|c: usize| #[trigger] cat_capacities(final(sol)@, c) == cat_capacities(old(sol)@, c),
{
    let ghost old_sol = sol@;
    let room = &mut sol[r];
    room.members.push(p);
    let ghost new_room = *room;
    placed[p] = true;
    proof {
        assert(sol@ == old_sol.update(r as int, new_room));
        lemma_occ_after_add(old_sol, r as int, new_room, p);
        assert forall|c: usize| #[trigger] cat_count(sol@, c) == cat_count(old_sol, c) by {
            lemma_cat_count_update(old_sol, r as int, new_room, c);
        }
        assert forall|c: usize| #[trigger] cat_capacities(sol@, c) == cat_capacities(old_sol, c)
            by {
            lemma_cat_update_add(old_sol, r as int, new_room, c);
        }
        let ghost cc0 = old_sol[r as int].category;
        assert(ro.category_of@[p as int] == cc0);
        assert forall|c: usize|
            (c as int) < ro.ncats() implies #[trigger] cat_members(sol@, c) == placed_cat(
            *ro,
            placed@,
            c,
            ro.n(),
        ) by {
            lemma_cat_update_add(old_sol, r as int, new_room, c);
            lemma_placed_cat_update(*ro, old(placed)@, p as int, c, ro.n());
        }
        assert forall|q: usize| (q as int) < ro.n() implies #[trigger] occ_total(sol@, q) == (
        if placed@[q as int] {
            1int
        } else {
            0int
        }) by {
            if q == p {
                assert(occ_total(old_sol, p) == 0);
                assert(occ_total(sol@, p) == 1);
            } else {
                assert(occ_total(sol@, q) == occ_total(old_sol, q));
                assert(placed@[q as int] == old(placed)@[q as int]);
            }
        }
        assert forall|rr: int| 0 <= rr < sol@.len() implies (#[trigger] sol@[rr]).wf(*ro) by {
            if rr == r as int {
                assert forall|i: int, j: int|
                    0 <= i < j < new_room.members@.len() implies !ro.blocked(
                    new_room.members@[i] as int,
                    new_room.members@[j] as int,
                ) by {
                    if j == new_room.members@.len() - 1 {
                        assert(new_room.members@[j] == p);
                        assert(!ro.blocked(p as int, new_room.members@[i] as int));
                    }
                }
            }
        }
    }
}

proof fn lemma_swap_multiset(s: Seq<(usize, i64)>, i: int, j: int)
    requires
        0 <= i < s.len(),
        0 <= j < s.len(),
        i != j,
    ensures
        s.update(i, s[j]).update(j, s[i]).to_multiset() == s.to_multiset(),
{
    broadcast use vstd::seq_lib::group_to_multiset_ensures;

    let s1 = s.update(i, s[j]);
    let s2 = s1.update(j, s[i]);
    assert(s1[j] == s[j]);
    assert(s1.to_multiset() == s.to_multiset().insert(s[j]).remove(s[i]));
    assert(s2.to_multiset() == s1.to_multiset().insert(s[i]).remove(s1[j]));
    assert(s2.to_multiset() =~= s.to_multiset());
}

/// Transfers membership facts across a rearrangement: two sequences with the
/// same multiset have the same length and the same elements.
proof fn lemma_multiset_same_elems<T>(s1: Seq<T>, s2: Seq<T>)
    requires
        s1.to_multiset() == s2.to_multiset(),
    ensures
        s1.len() == s2.len(),
        forall|x: T| s1.contains(x) <==> s2.contains(x),
        forall|i: int| 0 <= i < s2.len() ==> s1.contains(#[trigger] s2[i]),
{
    broadcast use vstd::seq_lib::group_to_multiset_ensures;

    assert(s1.to_multiset().len() == s1.len());
    assert(s2.to_multiset().len() == s2.len());
    assert forall|x: T| s1.contains(x) <==> s2.contains(x) by {
        assert(s1.to_multiset().contains(x) <==> s1.contains(x));
        assert(s2.to_multiset().contains(x) <==> s2.contains(x));
    }
    assert forall|i: int| 0 <= i < s2.len() implies s1.contains(#[trigger] s2[i]) by {
        assert(s2.contains(s2[i]));
    }
}

/// Sorts key-carrying entries by key, descending (insertion sort). The
/// result holds exactly the input entries.
fn sort_pairs_desc(v: &mut Vec<(usize, i64)>)
    ensures
        final(v)@.to_multiset() == old(v)@.to_multiset(),
        final(v)@.len() == old(v)@.len(),
        forall|a: int, b: int| 0 <= a <= b < final(v)@.len() ==> final(v)@[a].1 >= final(v)@[b].1,
{
    broadcast use vstd::seq_lib::group_to_multiset_ensures;

    let mut i: usize = 1;
    while i < v.len()
        invariant
            1 <= i || v@.len() == 0,
            i <= v@.len() || v@.len() == 0,
            v@.to_multiset() == old(v)@.to_multiset(),
            v@.len() == old(v)@.len(),
            forall|a: int, b: int| 0 <= a <= b < i && b < v@.len() ==> v@[a].1 >= v@[b].1,
        decreases v@.len() - i,
    {
        let mut j: usize = i;
        while j > 0 && v[j - 1].1 < v[j].1
            invariant
                j <= i,
                i < v@.len(),
                v@.to_multiset() == old(v)@.to_multiset(),
                v@.len() == old(v)@.len(),
                forall|a: int, b: int|
                    0 <= a <= b <= i && b < v@.len() && a != j && b != j ==> v@[a].1 >= v@[b].1,
                forall|b: int| j < b <= i ==> v@[j as int].1 >= v@[b].1,
            decreases j,
        {
            let ghost s = v@;
            let x = v[j - 1];
            let y = v[j];
            v[j - 1] = y;
            v[j] = x;
            proof {
                assert(v@ =~= s.update(j - 1, s[j as int]).update(j as int, s[j - 1]));
                lemma_swap_multiset(s, j - 1, j as int);
            }
            j = j - 1;
        }
        i = i + 1;
    }
}

/// A room that can take person `p` right now: same category, spare capacity,
/// and no avoid conflict with any current member.
pub open spec fn candidate_room(ro: Roster, sol: Seq<IxRoom>, p: int, r: int) -> bool {
    &&& sol[r].members@.len() < sol[r].max_size
    &&& feasible_addition(ro, sol[r], p)
}

/// Phase-two placement of one person: tries every candidate room, prefers
/// the rooms already holding the most of the person's choices, and picks
/// uniformly at random among the tied best. Returns false (leaving the
/// assignment unchanged) when no room can take the person.
fn phase2_place(
    ro: &Roster,
    sol: &mut Vec<IxRoom>,
    placed: &mut Vec<bool>,
    rng: &mut SearchRng,
    p: usize,
) -> (done: bool)
    requires
        ro.wf(),
        inv(*ro, old(sol)@, old(placed)@),
        (p as int) < ro.n(),
        !old(placed)@[p as int],
    ensures
        inv(*ro, final(sol)@, final(placed)@),
        final(sol)@.len() == old(sol)@.len(),
        forall|cc: usize| #[trigger] cat_count(final(sol)@, cc) == cat_count(old(sol)@, cc),
        forall|cc: usize|
            #[trigger] cat_capacities(final(sol)@, cc) == cat_capacities(old(sol)@, cc),
        done ==> final(placed)@ == old(placed)@.update(p as int, true),
        !done ==> final(placed)@ == old(placed)@ && final(sol)@ == old(sol)@,
        unconstrained(*ro) && capacities_cover(*ro, old(sol)@) ==> done,
{
    let ghost choices = ro.choices_ix@[p as int]@;
    let mut found = false;
    let mut bestc: usize = 0;
    let mut r: usize = 0;
    while r < sol.len()
        invariant
            ro.wf(),
            inv(*ro, sol@, placed@),
            sol@ == old(sol)@,
            placed@ == old(placed)@,
            (p as int) < ro.n(),
            !placed@[p as int],
            choices == ro.choices_ix@[p as int]@,
            r <= sol@.len(),
            !found ==> forall|rr: int| 0 <= rr < r ==> !candidate_room(*ro, sol@, p as int, rr),
            found ==> exists|rr: int|
                0 <= rr < r && candidate_room(*ro, sol@, p as int, rr) && #[trigger] match_count(
                    choices,
                    sol@[rr].members@,
                ) == bestc,
            found ==> forall|rr: int|
                0 <= rr < r && candidate_room(*ro, sol@, p as int, rr) ==> #[trigger] match_count(
                    choices,
                    sol@[rr].members@,
                ) <= bestc,
        decreases sol@.len() - r,
    {
        if sol[r].category == ro.category_of[p] && sol[r].members.len() < sol[r].max_size
            && is_feasible_addition(ro, &sol[r], p) {
            let cnt = count_matches(ro, p, &sol[r].members);
            if !found || cnt > bestc {
                bestc = cnt;
                found = true;
            }
        }
        r = r + 1;
    }
    if !found {
        proof {
            if unconstrained(*ro) && capacities_cover(*ro, old(sol)@) {
                let c = ro.category_of@[p as int];
                assert((c as int) < ro.ncats());
                assert forall|r: int|
                    0 <= r < sol@.len() && (#[trigger] sol@[r]).category == c
                    implies sol@[r].members@.len() == sol@[r].max_size by {
                    assert(sol@[r].wf(*ro));
                    assert(feasible_addition(*ro, sol@[r], p as int)) by {
                        assert forall|i: int|
                            0 <= i < sol@[r].members@.len() implies !ro.blocked(
                            p as int,
                            (#[trigger] sol@[r].members@[i]) as int,
                        ) by {
                            assert(((sol@[r].members@[i]) as int) < ro.n());
                        }
                    }
                    assert(!candidate_room(*ro, sol@, p as int, r));
                }
                lemma_cat_full(sol@, c);
                lemma_placed_cat_lt(*ro, placed@, c, p as int, ro.n());
                assert(cat_members(sol@, c) == placed_cat(*ro, placed@, c, ro.n()));
                assert(plan_sum(cat_capacities(sol@, c)) == ro.category_population(c as int));
                assert(false);
            }
        }
        return false;
    }
    let mut tops: Vec<usize> = Vec::new();
    let mut r: usize = 0;
    while r < sol.len()
        invariant
            ro.wf(),
            inv(*ro, sol@, placed@),
            sol@ == old(sol)@,
            placed@ == old(placed)@,
            (p as int) < ro.n(),
            !placed@[p as int],
            choices == ro.choices_ix@[p as int]@,
            r <= sol@.len(),
            forall|t: int|
                0 <= t < tops@.len() ==> ((#[trigger] tops@[t]) as int) < sol@.len()
                    && candidate_room(*ro, sol@, p as int, tops@[t] as int) && match_count(
                    choices,
                    sol@[tops@[t] as int].members@,
                ) == bestc,
            forall|rr: int|
                0 <= rr < r && candidate_room(*ro, sol@, p as int, rr) && #[trigger] match_count(
                    choices,
                    sol@[rr].members@,
                ) == bestc ==> tops@.contains(rr as usize),
        decreases sol@.len() - r,
    {
        if sol[r].category == ro.category_of[p] && sol[r].members.len() < sol[r].max_size
            && is_feasible_addition(ro, &sol[r], p) {
            let cnt = count_matches(ro, p, &sol[r].members);
            if cnt == bestc {
                let ghost old_tops = tops@;
                tops.push(r);
                proof {
                    assert forall|rr: usize| old_tops.contains(rr) implies tops@.contains(rr) by {
                        crate::roster::lemma_push_contains(old_tops, r, rr);
                    }
                    assert(tops@[tops@.len() - 1] == r);
                    assert(tops@.contains(r));
                }
            }
        }
        r = r + 1;
    }
    proof {
        let rr = choose|rr: int|
            0 <= rr < sol@.len() && candidate_room(*ro, sol@, p as int, rr) && #[trigger]
            match_count(choices, sol@[rr].members@) == bestc;
        assert(tops@.contains(rr as usize));
        assert(tops@.len() > 0);
    }
    let t = rng.pick(tops.len());
    let rr = tops[t];
    add_member(ro, sol, rr, p, placed);
    true
}

/// Phase-one pairing: tries to seat the mutual pair `p`, `c` together in a
/// shuffled candidate room with space for both. Either both are seated in
/// one room or nothing changes.
fn try_pair(
    ro: &Roster,
    sol: &mut Vec<IxRoom>,
    placed: &mut Vec<bool>,
    rng: &mut SearchRng,
    p: usize,
    c: usize,
) -> (done: bool)
    requires
        ro.wf(),
        inv(*ro, old(sol)@, old(placed)@),
        (p as int) < ro.n(),
        (c as int) < ro.n(),
        p != c,
        !old(placed)@[p as int],
        !old(placed)@[c as int],
        !ro.blocked(p as int, c as int),
        ro.category_of@[p as int] == ro.category_of@[c as int],
    ensures
        inv(*ro, final(sol)@, final(placed)@),
        final(sol)@.len() == old(sol)@.len(),
        forall|cc: usize| #[trigger] cat_count(final(sol)@, cc) == cat_count(old(sol)@, cc),
        forall|cc: usize|
            #[trigger] cat_capacities(final(sol)@, cc) == cat_capacities(old(sol)@, cc),
        done ==> final(placed)@ == old(placed)@.update(p as int, true).update(c as int, true),
        !done ==> final(placed)@ == old(placed)@ && final(sol)@ == old(sol)@,
{
    let mut rooms2: Vec<usize> = Vec::new();
    let mut r: usize = 0;
    while r < sol.len()
        invariant
            ro.wf(),
            inv(*ro, sol@, placed@),
            (p as int) < ro.n(),
            r <= sol@.len(),
            forall|t: int|
                0 <= t < rooms2@.len() ==> ((#[trigger] rooms2@[t]) as int) < sol@.len()
                    && sol@[rooms2@[t] as int].category == ro.category_of@[p as int]
                    && sol@[rooms2@[t] as int].members@.len() + 2 <= sol@[rooms2@[t] as int].max_size,
        decreases sol@.len() - r,
    {
        if sol[r].category == ro.category_of[p] && sol[r].members.len() + 2 <= sol[r].max_size {
            rooms2.push(r);
        }
        r = r + 1;
    }
    let ghost before = rooms2@;
    rng.shuffle(&mut rooms2);
    proof {
        lemma_multiset_same_elems(before, rooms2@);
        assert forall|t: int|
            0 <= t < rooms2@.len() implies ((#[trigger] rooms2@[t]) as int) < sol@.len()
            && sol@[rooms2@[t] as int].category == ro.category_of@[p as int]
            && sol@[rooms2@[t] as int].members@.len() + 2 <= sol@[rooms2@[t] as int].max_size by {
            assert(before.contains(rooms2@[t]));
            let u = choose|u: int| 0 <= u < before.len() && before[u] == rooms2@[t];
            assert(before[u] == rooms2@[t]);
        }
    }
    let mut ri: usize = 0;
    while ri < rooms2.len()
        invariant
            ro.wf(),
            inv(*ro, sol@, placed@),
            sol@ == old(sol)@,
            placed@ == old(placed)@,
            (p as int) < ro.n(),
            (c as int) < ro.n(),
            ri <= rooms2@.len(),
            forall|t: int|
                0 <= t < rooms2@.len() ==> ((#[trigger] rooms2@[t]) as int) < sol@.len()
                    && sol@[rooms2@[t] as int].category == ro.category_of@[p as int]
                    && sol@[rooms2@[t] as int].members@.len() + 2 <= sol@[rooms2@[t] as int].max_size,
        decreases rooms2@.len() - ri,
    {
        let rr = rooms2[ri];
        if is_feasible_addition(ro, &sol[rr], p) && is_feasible_addition(ro, &sol[rr], c) {
            let ghost pre = sol@;
            add_member(ro, sol, rr, p, placed);
            proof {
                assert(sol@[rr as int].members@ == pre[rr as int].members@.push(p));
                assert forall|i: int|
                    0 <= i < sol@[rr as int].members@.len() implies !ro.blocked(
                    c as int,
                    (#[trigger] sol@[rr as int].members@[i]) as int,
                ) by {
                    if i == sol@[rr as int].members@.len() - 1 {
                        assert(sol@[rr as int].members@[i] == p);
                    } else {
                        assert(sol@[rr as int].members@[i] == pre[rr as int].members@[i]);
                    }
                }
                assert(feasible_addition(*ro, sol@[rr as int], c as int));
            }
            add_member(ro, sol, rr, c, placed);
            return true;
        }
        ri = ri + 1;
    }
    false
}

/// Weight separating hinted pairs from unhinted ones when ranking a
/// person's choices: a hinted pair outranks any shared-choice overlap.
pub const HINT_WEIGHT: i64 = 1000000;

/// Builds one candidate assignment from scratch, deterministically from the
/// seed. Phase one walks the people (ordered by mutual-friend count on even
/// seeds, shuffled otherwise) and tries to seat each with one mutual friend
/// of the same category, ranked by hint weight then shared-choice overlap,
/// in a shuffled room with space for two. Phase two walks the still-unseated
/// people in shuffled order and places each in the candidate room holding
/// the most of their choices (uniformly among ties); if anyone cannot be
/// placed the whole candidate is discarded.
///
/// Every returned assignment is feasible: rooms within capacity, categories
/// respected, no avoid conflict inside a room, every person seated exactly
/// once, and per category exactly as many rooms as planned.
pub fn construct(
    ro: &Roster,
    plans: &Vec<Vec<usize>>,
    mutual_counts: &Vec<usize>,
    hints: &PairHints,
    seed: u64,
) -> (result: Option<Vec<IxRoom>>)
    requires
        ro.wf(),
        plans_wf(plans@, *ro),
        mutual_counts@.len() == ro.n(),
        forall|i: int|
            0 <= i < ro.n() ==> (#[trigger] mutual_counts@[i]) <= crate::types::MAX_POPULATION,
        hints.wf(ro.n()),
    ensures
        match result {
            Some(sol) => complete_wf(sol@, *ro) && frame_wf(sol@, plans@, *ro),
            None => true,
        },
        unconstrained(*ro) && plans_cover(plans@, *ro) ==> result is Some,
{
    let n = ro.people.len();
    let mut sol = make_frame(ro, plans);
    let mut placed: Vec<bool> = Vec::new();
    let mut i: usize = 0;
    while i < n
        invariant
            i <= n,
            placed@.len() == i,
            forall|j: int| 0 <= j < i ==> !(#[trigger] placed@[j]),
        decreases n - i,
    {
        placed.push(false);
        i = i + 1;
    }
    proof {
        assert forall|c: usize|
            (c as int) < ro.ncats() implies #[trigger] cat_members(sol@, c) == placed_cat(
            *ro,
            placed@,
            c,
            ro.n(),
        ) by {
            lemma_placed_cat_all_false(*ro, placed@, c, ro.n());
        }
    }
    let mut rng = SearchRng::new(seed);

    // phase-one visiting order
    let mut order: Vec<usize> = Vec::new();
    let mut i: usize = 0;
    while i < n
        invariant
            i <= n,
            order@.len() == i,
            forall|j: int| 0 <= j < i ==> ((#[trigger] order@[j]) as int) < n as int,
        decreases n - i,
    {
        order.push(i);
        i = i + 1;
    }
    if seed % 2 == 0 {
        let mut keyed: Vec<(usize, i64)> = Vec::new();
        let mut i: usize = 0;
        while i < n
            invariant
                n == ro.n(),
                mutual_counts@.len() == n,
                forall|j: int|
                    0 <= j < ro.n() ==> (#[trigger] mutual_counts@[j])
                        <= crate::types::MAX_POPULATION,
                i <= n,
                keyed@.len() == i,
                forall|j: int| 0 <= j < i ==> ((#[trigger] keyed@[j]).0 as int) < n as int,
            decreases n - i,
        {
            keyed.push((i, mutual_counts[i] as i64));
            i = i + 1;
        }
        let ghost before = keyed@;
        sort_pairs_desc(&mut keyed);
        proof {
            lemma_multiset_same_elems(before, keyed@);
        }
        let mut order2: Vec<usize> = Vec::new();
        let mut i: usize = 0;
        while i < keyed.len()
            invariant
                n == ro.n(),
                keyed@.len() == before.len(),
                forall|j: int| 0 <= j < before.len() ==> ((#[trigger] before[j]).0 as int) < n as int,
                forall|j: int| 0 <= j < keyed@.len() ==> before.contains(#[trigger] keyed@[j]),
                i <= keyed@.len(),
                order2@.len() == i,
                forall|j: int| 0 <= j < i ==> ((#[trigger] order2@[j]) as int) < n as int,
            decreases keyed@.len() - i,
        {
            proof {
                let u = choose|u: int| 0 <= u < before.len() && before[u] == keyed@[i as int];
                assert(before[u].0 == keyed@[i as int].0);
            }
            order2.push(keyed[i].0);
            i = i + 1;
        }
        order = order2;
    } else {
        let ghost before = order@;
        rng.shuffle(&mut order);
        proof {
            lemma_multiset_same_elems(before, order@);
            assert forall|j: int|
                0 <= j < order@.len() implies ((#[trigger] order@[j]) as int) < n as int by {
                assert(before.contains(order@[j]));
                let u = choose|u: int| 0 <= u < before.len() && before[u] == order@[j];
                assert(before[u] == order@[j]);
            }
        }
    }

    // phase one: seat mutual pairs
    let mut oi: usize = 0;
    while oi < order.len()
        invariant
            ro.wf(),
            plans_wf(plans@, *ro),
            hints.wf(ro.n()),
            n == ro.n(),
            inv(*ro, sol@, placed@),
            frame_wf(sol@, plans@, *ro),
            oi <= order@.len(),
            forall|j: int| 0 <= j < order@.len() ==> ((#[trigger] order@[j]) as int) < n as int,
        decreases order@.len() - oi,
    {
        let p = order[oi];
        if !placed[p] {
            let mut keyed: Vec<(usize, i64)> = Vec::new();
            let nc = ro.choices_ix[p].len();
            let mut k: usize = 0;
            while k < nc
                invariant
                    ro.wf(),
                    hints.wf(ro.n()),
                    n == ro.n(),
                    (p as int) < n as int,
                    nc == ro.choices_ix@[p as int]@.len(),
                    k <= nc,
                    keyed@.len() == k,
                    forall|j: int| 0 <= j < k ==> ((#[trigger] keyed@[j]).0 as int) < n as int,
                decreases nc - k,
            {
                let cch = ro.choices_ix[p][k];
                let h = hints.get(p, cch);
                let ov = count_matches(ro, p, &ro.choices_ix[cch]);
                keyed.push((cch, h * HINT_WEIGHT + (ov as i64)));
                k = k + 1;
            }
            let ghost before = keyed@;
            sort_pairs_desc(&mut keyed);
            proof {
                lemma_multiset_same_elems(before, keyed@);
                assert forall|j: int|
                    0 <= j < keyed@.len() implies ((#[trigger] keyed@[j]).0 as int) < n as int by {
                    assert(before.contains(keyed@[j]));
                    let u = choose|u: int| 0 <= u < before.len() && before[u] == keyed@[j];
                    assert(before[u] == keyed@[j]);
                }
            }
            let mut done = false;
            let mut ci: usize = 0;
            while ci < keyed.len() && !done
                invariant
                    ro.wf(),
                    plans_wf(plans@, *ro),
                    n == ro.n(),
                    inv(*ro, sol@, placed@),
                    frame_wf(sol@, plans@, *ro),
                    ci <= keyed@.len(),
                    (p as int) < n as int,
                    forall|j: int| 0 <= j < keyed@.len() ==> ((#[trigger] keyed@[j]).0 as int) < n as int,
                decreases keyed@.len() - ci,
            {
                let cch = keyed[ci].0;
                if !placed[p] && !placed[cch] && cch != p && crate::hints::is_mutual(ro, p, cch)
                    && !contains_ix(&ro.avoids_ix[p], cch) && !contains_ix(&ro.avoids_ix[cch], p) {
                    done = try_pair(ro, &mut sol, &mut placed, &mut rng, p, cch);
                }
                ci = ci + 1;
            }
        }
        oi = oi + 1;
    }

    // phase two: best-fit placement of the remainder
    let mut remaining: Vec<usize> = Vec::new();
    let mut q: usize = 0;
    while q < n
        invariant
            n == ro.n(),
            placed@.len() == n,
            q <= n,
            forall|j: int| 0 <= j < remaining@.len() ==> ((#[trigger] remaining@[j]) as int) < q,
            forall|a: int, b: int|
                0 <= a < b < remaining@.len() ==> remaining@[a] < remaining@[b],
            forall|j: int|
                0 <= j < remaining@.len() ==> !placed@[(#[trigger] remaining@[j]) as int],
            forall|x: usize|
                x < q && !placed@[x as int] ==> #[trigger] remaining@.contains(x),
        decreases n - q,
    {
        if !placed[q] {
            let ghost old_rem = remaining@;
            remaining.push(q);
            proof {
                assert forall|x: usize|
                    x < q + 1 && !placed@[x as int] implies #[trigger] remaining@.contains(x) by {
                    crate::roster::lemma_push_contains(old_rem, q, x);
                }
            }
        }
        q = q + 1;
    }
    let ghost before = remaining@;
    rng.shuffle(&mut remaining);
    proof {
        lemma_multiset_same_elems(before, remaining@);
        assert forall|j: int|
            0 <= j < remaining@.len() implies ((#[trigger] remaining@[j]) as int) < n as int
            && !placed@[remaining@[j] as int] by {
            assert(before.contains(remaining@[j]));
            let u = choose|u: int| 0 <= u < before.len() && before[u] == remaining@[j];
            assert(before[u] == remaining@[j]);
        }
        before.lemma_multiset_has_no_duplicates();
        remaining@.lemma_multiset_has_no_duplicates_conv();
        assert forall|x: usize|
            (x as int) < n as int && !placed@[x as int] implies exists|j: int|
            0 <= j < remaining@.len() && (#[trigger] remaining@[j]) == x by {
            assert(before.contains(x));
            assert(remaining@.contains(x));
            let j = choose|j: int| 0 <= j < remaining@.len() && remaining@[j] == x;
            assert(remaining@[j] == x);
        }
    }
    let mut ii: usize = 0;
    while ii < remaining.len()
        invariant
            ro.wf(),
            plans_wf(plans@, *ro),
            n == ro.n(),
            inv(*ro, sol@, placed@),
            frame_wf(sol@, plans@, *ro),
            ii <= remaining@.len(),
            remaining@.no_duplicates(),
            forall|j: int|
                ii <= j < remaining@.len() ==> ((#[trigger] remaining@[j]) as int) < n as int
                    && !placed@[remaining@[j] as int],
            forall|x: usize|
                (x as int) < n as int && !placed@[x as int] ==> exists|j: int|
                    ii <= j < remaining@.len() && (#[trigger] remaining@[j]) == x,
        decreases remaining@.len() - ii,
    {
        let p = remaining[ii];
        let ghost old_placed = placed@;
        let ghost pre_sol = sol@;
        let ok = phase2_place(ro, &mut sol, &mut placed, &mut rng, p);
        if !ok {
            proof {
                if unconstrained(*ro) && plans_cover(plans@, *ro) {
                    assert forall|c: usize|
                        (c as int) < ro.ncats() implies #[trigger] plan_sum(
                        cat_capacities(pre_sol, c),
                    ) == ro.category_population(c as int) by {
                        assert(cat_capacities(pre_sol, c) == plans@[c as int]@);
                    }
                    assert(capacities_cover(*ro, pre_sol));
                    assert(false);
                }
            }
            return None;
        }
        proof {
            assert forall|x: usize|
                (x as int) < n as int && !placed@[x as int] implies exists|j: int|
                ii + 1 <= j < remaining@.len() && (#[trigger] remaining@[j]) == x by {
                assert(!old_placed[x as int]);
                let j = choose|j: int|
                    ii <= j < remaining@.len() && (#[trigger] remaining@[j]) == x;
                assert(x != p);
                assert(j != ii);
            }
        }
        ii = ii + 1;
    }
    proof {
        assert forall|x: usize| (x as int) < ro.n() implies #[trigger] occ_total(sol@, x) == 1 by {
            if !placed@[x as int] {
                let j = choose|j: int|
                    remaining@.len() <= j < remaining@.len() && (#[trigger] remaining@[j]) == x;
                assert(false);
            }
        }
    }
    Some(sol)
}

} // verus!
