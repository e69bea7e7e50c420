//! The public solve entry: validates the input, plans the per-category room
//! sizes, runs the parallel search, and renders the winning assignment as
//! the externally visible `SolveResult`.

use vstd::prelude::*;
use crate::types::{Person, Room, SolveError, SolveResult, MAX_POPULATION};
use crate::roster::{Roster, cat_pop_upto, has_duplicate_name, has_string, index_people};
use crate::solution::{IxRoom, complete_wf, sol_wf};
use crate::scoring::{cat_count, choice_score_spec, imbalance_spec, without_choice_spec};
use crate::distribution::{plan, plan_spec, room_count, sum_of, lemma_plan_bounds, lemma_plan_distribution};
use vstd::arithmetic::div_mod::{lemma_div_of0, lemma_small_mod};
use crate::construct::{cat_capacities, plan_sum, plans_cover, plans_wf, total_rooms, unconstrained};
use crate::driver::{ProgressSink, search};

verus! {

/// Sum of the first `k` entries of a count list.
pub open spec fn sum_upto(s: Seq<usize>, k: int) -> int
    decreases k,
{
    if k <= 0 {
        0
    } else {
        sum_upto(s, k - 1) + s[k - 1]
    }
}

proof fn lemma_sum_zero(s: Seq<usize>, k: int)
    requires
        0 <= k <= s.len(),
        forall|i: int| 0 <= i < k ==> (#[trigger] s[i]) == 0,
    ensures
        sum_upto(s, k) == 0,
    decreases k,
{
    if k > 0 {
        lemma_sum_zero(s, k - 1);
    }
}

proof fn lemma_sum_update(s: Seq<usize>, i: int, v: usize, k: int)
    requires
        0 <= i < s.len(),
        0 <= k <= s.len(),
    ensures
        sum_upto(s.update(i, v), k) == sum_upto(s, k) + if i < k {
            v - s[i]
        } else {
            0int
        },
    decreases k,
{
    if k > 0 {
        lemma_sum_update(s, i, v, k - 1);
    }
}

proof fn lemma_sum_cast(s: Seq<usize>, t: Seq<int>)
    requires
        s.len() == t.len(),
        forall|i: int| 0 <= i < s.len() ==> ((#[trigger] s[i]) as int) == t[i],
    ensures
        plan_sum(s) == sum_of(t),
    decreases s.len(),
{
    if s.len() > 0 {
        assert forall|i: int|
            0 <= i < s.drop_last().len() implies ((#[trigger] s.drop_last()[i]) as int)
            == t.drop_last()[i] by {
            assert(s.drop_last()[i] == s[i]);
        }
        lemma_sum_cast(s.drop_last(), t.drop_last());
    }
}

/// Rooms of category `c`, in assignment order.
pub open spec fn rooms_of_cat(sol: Seq<IxRoom>, c: usize) -> Seq<IxRoom>
    decreases sol.len(),
{
    if sol.len() == 0 {
        Seq::empty()
    } else {
        let rest = rooms_of_cat(sol.drop_last(), c);
        if sol.last().category == c {
            rest.push(sol.last())
        } else {
            rest
        }
    }
}

proof fn lemma_rooms_of_cat(sol: Seq<IxRoom>, c: usize)
    ensures
        rooms_of_cat(sol, c).len() == cat_count(sol, c),
        cat_capacities(sol, c).len() == rooms_of_cat(sol, c).len(),
        forall|j: int|
            0 <= j < rooms_of_cat(sol, c).len() ==> (#[trigger] rooms_of_cat(sol, c)[j]).max_size
                == cat_capacities(sol, c)[j],
    decreases sol.len(),
{
    if sol.len() > 0 {
        lemma_rooms_of_cat(sol.drop_last(), c);
    }
}

/// Nobody's avoid list names anyone in the population.
pub open spec fn no_avoids(people: Seq<Person>) -> bool {
    forall|p: int, q: int|
        0 <= p < people.len() && 0 <= q < people.len() ==> !#[trigger] has_string(
            people[p].avoids@,
            people[q].name@,
        )
}

/// An input the solver accepts: within the population cap, no duplicate
/// names, and a positive room capacity.
pub open spec fn valid_input(people: Seq<Person>, max_room_size: int) -> bool {
    &&& people.len() <= MAX_POPULATION
    &&& !has_duplicate_name(people)
    &&& max_room_size >= 1
}

/// The characters `nm` name some person of category `c`.
pub open spec fn member_name_ok(ro: Roster, nm: Seq<char>, c: int) -> bool {
    exists|pp: int|
        0 <= pp < ro.n() && ((#[trigger] ro.category_of@[pp]) as int) == c && nm
            == ro.people@[pp].name@
}

/// One rendered room of the result: carries its category's name, respects
/// its capacity, and every member name belongs to a person of that category.
pub open spec fn room_rendered_ok(ro: Roster, room: Room, c: int) -> bool {
    &&& room.category@ == ro.category_names@[c]@
    &&& room.members@.len() <= room.max_size
    &&& forall|m: int|
        0 <= m < room.members@.len() ==> member_name_ok(ro, (#[trigger] room.members@[m])@, c)
}

/// `room` renders the index-level room `ix` of category `c`: the category's
/// name, the same capacity, and the member indices mapped, in order, to
/// those persons' names.
pub open spec fn room_renders(ro: Roster, ix: IxRoom, room: Room, c: int) -> bool {
    &&& room.category@ == ro.category_names@[c]@
    &&& room.max_size == ix.max_size
    &&& room.members@.len() == ix.members@.len()
    &&& forall|m: int|
        0 <= m < ix.members@.len() ==> (#[trigger] room.members@[m])@ == ro.people@[ix.members@[
            m
        ] as int].name@
}

/// Some feasible assignment of the validated input stands behind the
/// result.
pub open spec fn solved_ok(people: Seq<Person>, max_room_size: int, res: SolveResult) -> bool {
    exists|ro: Roster, sol: Seq<IxRoom>| #[trigger] solve_witness(people, max_room_size, ro, sol, res)
}

/// The winning assignment behind an `Ok` result: a feasible assignment of
/// the validated roster of the input people, whose measures are exactly the
/// result's fields, rendered per category.
pub open spec fn solve_witness(
    people: Seq<Person>,
    max_room_size: int,
    ro: Roster,
    sol: Seq<IxRoom>,
    res: SolveResult,
) -> bool {
    &&& ro.wf()
    &&& ro.people@ == people
    &&& complete_wf(sol, ro)
    &&& res.choice_score == choice_score_spec(ro, sol)
    &&& res.imbalance == imbalance_spec(ro, sol)
    &&& res.without_choices == without_choice_spec(ro, sol)
    &&& res.total_rooms == sol.len()
    &&& res.rooms_by_category@.len() == ro.ncats()
    &&& forall|c: int|
        0 <= c < ro.ncats() ==> #[trigger] cat_count(sol, c as usize) == room_count(
            ro.category_population(c),
            max_room_size,
        )
    &&& forall|c: int|
        0 <= c < ro.ncats() ==> (#[trigger] res.rooms_by_category@[c]).0@
            == ro.category_names@[c]@
    &&& forall|c: int|
        0 <= c < ro.ncats() ==> (#[trigger] res.rooms_by_category@[c]).1@.len() == cat_count(
            sol,
            c as usize,
        )
    &&& forall|c: int, j: int|
        0 <= c < ro.ncats() && 0 <= j < res.rooms_by_category@[c].1@.len() ==> room_rendered_ok(
            ro,
            (#[trigger] res.rooms_by_category@[c].1@[j]),
            c,
        )
    &&& forall|c: int|
        0 <= c < ro.ncats() ==> (#[trigger] res.rooms_by_category@[c]).1@.len() == rooms_of_cat(
            sol,
            c as usize,
        ).len()
    &&& forall|c: int, j: int|
        0 <= c < ro.ncats() && 0 <= j < res.rooms_by_category@[c].1@.len() ==> room_renders(
            ro,
            rooms_of_cat(sol, c as usize)[j],
            (#[trigger] res.rooms_by_category@[c].1@[j]),
            c,
        )
    &&& forall|c: int, j: int|
        0 <= c < ro.ncats() && 0 <= j < res.rooms_by_category@[c].1@.len() ==> (
        #[trigger] res.rooms_by_category@[c].1@[j]).max_size <= max_room_size
}

/// Renders the rooms of one category, in solution order.
fn rooms_of_category(ro: &Roster, sol: &Vec<IxRoom>, c: usize) -> (rooms: Vec<Room>)
    requires
        ro.wf(),
        sol_wf(sol@, *ro),
        (c as int) < ro.ncats(),
    ensures
        rooms@.len() == cat_count(sol@, c),
        forall|j: int| 0 <= j < rooms@.len() ==> room_rendered_ok(*ro, #[trigger] rooms@[j], c as int),
        rooms@.len() == rooms_of_cat(sol@, c).len(),
        forall|j: int|
            0 <= j < rooms@.len() ==> room_renders(
                *ro,
                rooms_of_cat(sol@, c)[j],
                #[trigger] rooms@[j],
                c as int,
            ),
{
    let mut rooms: Vec<Room> = Vec::new();
    let mut r: usize = 0;
    while r < sol.len()
        invariant
            ro.wf(),
            sol_wf(sol@, *ro),
            (c as int) < ro.ncats(),
            r <= sol@.len(),
            rooms@.len() == cat_count(sol@.take(r as int), c),
            rooms@.len() == rooms_of_cat(sol@.take(r as int), c).len(),
            forall|j: int|
                0 <= j < rooms@.len() ==> room_rendered_ok(*ro, #[trigger] rooms@[j], c as int),
            forall|j: int|
                0 <= j < rooms@.len() ==> room_renders(
                    *ro,
                    rooms_of_cat(sol@.take(r as int), c)[j],
                    #[trigger] rooms@[j],
                    c as int,
                ),
        decreases sol@.len() - r,
    {
        proof {
            assert(sol@.take(r + 1).drop_last() =~= sol@.take(r as int));
            assert(sol@.take(r + 1).last() == sol@[r as int]);
        }
        if sol[r].category == c {
            let src = &sol[r].members;
            let mut members: Vec<String> = Vec::new();
            let mut m: usize = 0;
            while m < src.len()
                invariant
                    ro.wf(),
                    sol_wf(sol@, *ro),
                    r < sol@.len(),
                    src@ == sol@[r as int].members@,
                    sol@[r as int].category == c,
                    m <= src@.len(),
                    members@.len() == m,
                    forall|mm: int|
                        0 <= mm < m ==> member_name_ok(*ro, (#[trigger] members@[mm])@, c as int),
                    forall|mm: int|
                        0 <= mm < m ==> (#[trigger] members@[mm])@ == ro.people@[src@[mm] as int].name@,
                decreases src@.len() - m,
            {
                let pix = src[m];
                members.push(ro.people[pix].name.clone());
                proof {
                    assert((pix as int) < ro.n());
                    assert(((ro.category_of@[pix as int]) as int) == c as int);
                    assert(members@[m as int]@ == ro.people@[pix as int].name@);
                    assert(member_name_ok(*ro, members@[m as int]@, c as int));
                }
                m = m + 1;
            }
            let ghost gm = members@;
            let room = Room {
                category: ro.category_names[c].clone(),
                members,
                max_size: sol[r].max_size,
            };
            proof {
                assert(sol@[r as int].wf(*ro));
                assert(room.category@ == ro.category_names@[c as int]@);
                assert(room.members@.len() <= room.max_size);
                assert(room.members@ == gm);
                assert forall|mm: int|
                    0 <= mm < room.members@.len() implies member_name_ok(
                    *ro,
                    (#[trigger] room.members@[mm])@,
                    c as int,
                ) by {
                    assert(room.members@[mm] == gm[mm]);
                    assert(member_name_ok(*ro, (gm[mm])@, c as int));
                }
                assert(room_rendered_ok(*ro, room, c as int));
                assert(rooms_of_cat(sol@.take(r + 1), c) =~= rooms_of_cat(
                    sol@.take(r as int),
                    c,
                ).push(sol@[r as int]));
                assert(room_renders(*ro, sol@[r as int], room, c as int)) by {
                    assert forall|mm: int|
                        0 <= mm < sol@[r as int].members@.len() implies (#[trigger] room.members@[
                        mm
                    ])@ == ro.people@[sol@[r as int].members@[mm] as int].name@ by {
                        assert(room.members@[mm] == gm[mm]);
                        assert((gm[mm])@ == ro.people@[src@[mm] as int].name@);
                    }
                }
            }
            rooms.push(room);
        } else {
            proof {
                assert(rooms_of_cat(sol@.take(r + 1), c) =~= rooms_of_cat(sol@.take(r as int), c));
            }
        }
        r = r + 1;
    }
    proof {
        assert(sol@.take(sol@.len() as int) =~= sol@);
    }
    rooms
}

/// Solves one assignment problem end to end.
///
/// An empty population is the trivial empty result. A zero room capacity
/// with a non-empty population, a population over `MAX_POPULATION`, and a
/// duplicate name are each rejected with their own error before any search.
/// Otherwise the search runs the whole iteration budget and either returns
/// the best feasible assignment found, rendered per category with its
/// measures, or reports that no feasible assignment was found — always the
/// latter for a zero budget.
#[verifier::rlimit(100)]
pub fn solve<S: ProgressSink>(
    people: Vec<Person>,
    max_room_size: usize,
    iteration_budget: usize,
    sink: &mut S,
) -> (r: Result<SolveResult, SolveError>)
    ensures
        match r {
            Ok(res) => {
                &&& res.people@ == people@
                &&& (people@.len() == 0 ==> res.total_rooms == 0 && res.choice_score == 0
                    && res.imbalance == 0 && res.without_choices == 0
                    && res.rooms_by_category@.len() == 0)
                &&& (people@.len() > 0 ==> valid_input(people@, max_room_size as int)
                    && solved_ok(people@, max_room_size as int, res))
            },
            Err(e) => match e {
                SolveError::ZeroRoomSize => max_room_size == 0 && people@.len() > 0,
                SolveError::TooManyPeople => max_room_size >= 1 && people@.len() > MAX_POPULATION,
                SolveError::DuplicateName => max_room_size >= 1 && 0 < people@.len()
                    <= MAX_POPULATION && has_duplicate_name(people@),
                SolveError::NoSolutionFound => people@.len() > 0 && valid_input(
                    people@,
                    max_room_size as int,
                ),
            },
        },
        people@.len() > 0 && valid_input(people@, max_room_size as int) && iteration_budget == 0
            ==> r matches Err(SolveError::NoSolutionFound),
        people@.len() > 0 && valid_input(people@, max_room_size as int) && iteration_budget >= 1
            && no_avoids(people@) ==> r is Ok,
{
    if people.len() == 0 {
        return Ok(
            SolveResult {
                choice_score: 0,
                imbalance: 0,
                without_choices: 0,
                total_rooms: 0,
                rooms_by_category: Vec::new(),
                people,
            },
        );
    }
    if max_room_size == 0 {
        return Err(SolveError::ZeroRoomSize);
    }
    let ro = match index_people(people) {
        Ok(ro) => ro,
        Err(e) => {
            return Err(e);
        },
    };
    let n = ro.people.len();
    let ncats = ro.category_names.len();
    // population of each category
    let mut pops: Vec<usize> = Vec::new();
    let mut c: usize = 0;
    while c < ncats
        invariant
            c <= ncats,
            pops@.len() == c,
            forall|i: int| 0 <= i < c ==> (#[trigger] pops@[i]) == 0,
        decreases ncats - c,
    {
        pops.push(0);
        c = c + 1;
    }
    proof {
        lemma_sum_zero(pops@, ncats as int);
    }
    let mut p: usize = 0;
    while p < n
        invariant
            ro.wf(),
            n == ro.n(),
            ncats == ro.ncats(),
            p <= n,
            pops@.len() == ncats,
            sum_upto(pops@, ncats as int) == p,
            forall|i: int| 0 <= i < ncats ==> (#[trigger] pops@[i]) <= p,
            forall|cc: usize|
                (cc as int) < ncats as int ==> (#[trigger] pops@[cc as int])
                    == cat_pop_upto(ro.category_of@, cc, p as int),
        decreases n - p,
    {
        let idx = ro.category_of[p];
        let ghost old_pops = pops@;
        let v = pops[idx];
        pops[idx] = v + 1;
        proof {
            lemma_sum_update(old_pops, idx as int, (v + 1) as usize, ncats as int);
        }
        p = p + 1;
    }
    // per-category plans
    let mut plans: Vec<Vec<usize>> = Vec::new();
    let mut c: usize = 0;
    while c < ncats
        invariant
            ro.wf(),
            n == ro.n(),
            ncats == ro.ncats(),
            max_room_size >= 1,
            pops@.len() == ncats,
            sum_upto(pops@, ncats as int) == n,
            forall|i: int| 0 <= i < ncats ==> (#[trigger] pops@[i]) <= n,
            c <= ncats,
            plans@.len() == c,
            total_rooms(plans@) <= sum_upto(pops@, c as int),
            forall|cc: int, k: int|
                0 <= cc < c && 0 <= k < plans@[cc]@.len() ==> 1 <= (#[trigger] plans@[cc]@[k]) as int
                    <= n as int,
            forall|cc: usize|
                (cc as int) < ncats as int ==> (#[trigger] pops@[cc as int])
                    == cat_pop_upto(ro.category_of@, cc, n as int),
            forall|cc: int|
                0 <= cc < c ==> (#[trigger] plans@[cc]@.len()) == room_count(
                    ro.category_population(cc),
                    max_room_size as int,
                ),
            forall|cc: int, k: int|
                0 <= cc < c && 0 <= k < plans@[cc]@.len() ==> (#[trigger] plans@[cc]@[k])
                    <= max_room_size,
            forall|cc: int| 0 <= cc < c ==> #[trigger] plan_sum(plans@[cc]@) == pops@[cc],
        decreases ncats - c,
    {
        let pop = pops[c];
        let sizes = plan(pop, max_room_size);
        proof {
            if pop > 0 {
                lemma_plan_bounds(pop as int, max_room_size as int);
            } else {
                lemma_div_of0(max_room_size as int);
                lemma_small_mod(0, max_room_size as nat);
            }
            assert(sizes@.len() <= pop as int);
        }
        proof {
            if pop > 0 {
                lemma_plan_distribution(pop as int, max_room_size as int);
                assert forall|i: int|
                    0 <= i < sizes@.len() implies ((#[trigger] sizes@[i]) as int) == plan_spec(
                    pop as int,
                    max_room_size as int,
                )[i] by {}
                lemma_sum_cast(sizes@, plan_spec(pop as int, max_room_size as int));
            }
            assert(plan_sum(sizes@) == pop as int);
        }
        let ghost old_plans = plans@;
        plans.push(sizes);
        proof {
            assert(plans@.drop_last() =~= old_plans);
            assert(total_rooms(plans@) == total_rooms(old_plans) + sizes@.len());
            assert(sum_upto(pops@, c as int + 1) == sum_upto(pops@, c as int) + pops@[c as int]);
        }
        c = c + 1;
    }
    proof {
        assert(plans_wf(plans@, ro));
        assert(sum_upto(pops@, ncats as int) == n as int);
    }
    let result = search(&ro, &plans, iteration_budget, sink);
    match result {
        None => {
            proof {
                if people@.len() > 0 && valid_input(people@, max_room_size as int)
                    && iteration_budget >= 1 && no_avoids(people@) {
                    assert(unconstrained(ro)) by {
                        assert forall|p: int, q: int|
                            0 <= p < ro.n() && 0 <= q < ro.n() implies !ro.blocked(p, q) by {
                            assert(ro.avoids_ix@[p]@.contains(q as usize) <==> has_string(
                                ro.people@[p].avoids@,
                                ro.people@[q].name@,
                            ));
                            assert(ro.avoids_ix@[q]@.contains(p as usize) <==> has_string(
                                ro.people@[q].avoids@,
                                ro.people@[p].name@,
                            ));
                            assert(!has_string(ro.people@[p].avoids@, ro.people@[q].name@));
                            assert(!has_string(ro.people@[q].avoids@, ro.people@[p].name@));
                        }
                    }
                    assert(plans_cover(plans@, ro)) by {
                        assert forall|cc: int|
                            0 <= cc < plans@.len() implies #[trigger] plan_sum(plans@[cc]@)
                            == ro.category_population(cc) by {
                            assert(plan_sum(plans@[cc]@) == pops@[cc]);
                            assert(pops@[cc] == cat_pop_upto(
                                ro.category_of@,
                                cc as usize,
                                n as int,
                            ));
                        }
                    }
                    assert(false);
                }
            }
            Err(SolveError::NoSolutionFound)
        },
        Some((sol, st)) => {
            let mut rbc: Vec<(String, Vec<Room>)> = Vec::new();
            let mut c: usize = 0;
            while c < ncats
                invariant
                    ro.wf(),
                    sol_wf(sol@, ro),
                    crate::construct::frame_wf(sol@, plans@, ro),
                    plans@.len() == ncats,
                    forall|cc: int, k: int|
                        0 <= cc < plans@.len() && 0 <= k < plans@[cc]@.len() ==> (
                        #[trigger] plans@[cc]@[k]) <= max_room_size,
                    ncats == ro.ncats(),
                    c <= ncats,
                    rbc@.len() == c,
                    forall|cc: int|
                        0 <= cc < c ==> (#[trigger] rbc@[cc]).0@ == ro.category_names@[cc]@,
                    forall|cc: int|
                        0 <= cc < c ==> (#[trigger] rbc@[cc]).1@.len() == cat_count(
                            sol@,
                            cc as usize,
                        ),
                    forall|cc: int, j: int|
                        0 <= cc < c && 0 <= j < rbc@[cc].1@.len() ==> room_rendered_ok(
                            ro,
                            (#[trigger] rbc@[cc].1@[j]),
                            cc,
                        ),
                    forall|cc: int|
                        0 <= cc < c ==> (#[trigger] rbc@[cc]).1@.len() == rooms_of_cat(
                            sol@,
                            cc as usize,
                        ).len(),
                    forall|cc: int, j: int|
                        0 <= cc < c && 0 <= j < rbc@[cc].1@.len() ==> room_renders(
                            ro,
                            rooms_of_cat(sol@, cc as usize)[j],
                            (#[trigger] rbc@[cc].1@[j]),
                            cc,
                        ),
                    forall|cc: int, j: int|
                        0 <= cc < c && 0 <= j < rbc@[cc].1@.len() ==> (#[trigger] rbc@[cc].1@[
                        j]).max_size <= max_room_size,
                decreases ncats - c,
            {
                let rooms = rooms_of_category(&ro, &sol, c);
                proof {
                    lemma_rooms_of_cat(sol@, c);
                    assert(cat_capacities(sol@, c) == plans@[c as int]@);
                    assert forall|j: int|
                        0 <= j < rooms@.len() implies (#[trigger] rooms@[j]).max_size
                        <= max_room_size by {
                        assert(room_renders(ro, rooms_of_cat(sol@, c)[j], rooms@[j], c as int));
                        assert(rooms_of_cat(sol@, c)[j].max_size == cat_capacities(sol@, c)[j]);
                        assert(plans@[c as int]@[j] <= max_room_size);
                    }
                }
                rbc.push((ro.category_names[c].clone(), rooms));
                c = c + 1;
            }
            let total = sol.len();
            let ghost gro = ro;
            let ghost gsol = sol@;
            let res = SolveResult {
                choice_score: st.choice_score,
                imbalance: st.imbalance,
                without_choices: st.without_choices,
                total_rooms: total,
                rooms_by_category: rbc,
                people: ro.people,
            };
            proof {
                assert(solve_witness(people@, max_room_size as int, gro, gsol, res));
                assert(solved_ok(people@, max_room_size as int, res));
            }
            Ok(res)
        },
    }
}

} // verus!
