//! The constraint evaluator: choice-satisfaction scoring, imbalance
//! measurement, the without-choice count, and the composite ranking score
//! that orders candidate assignments.

use vstd::prelude::*;
use crate::roster::{Roster, lemma_push_contains};
use crate::solution::{IxRoom, complete_wf, count_in, occ_total, sol_wf};
use crate::types::MAX_POPULATION;

verus! {

/// Upper bound on a choice score: `MAX_POPULATION` cubed.
pub const MAX_CHOICE_SCORE: i64 = 1000000000000000;

/// Upper bound on a without-choice count or an imbalance:
/// `MAX_POPULATION` squared.
pub const MAX_COUNT: u64 = 10000000000;

/// Number of entries of `choices` seated in `members`. The resolved choice
/// lists are strictly ascending, so each chosen person counts at most once.
pub open spec fn match_count(choices: Seq<usize>, members: Seq<usize>) -> int
    decreases choices.len(),
{
    if choices.len() == 0 {
        0
    } else {
        match_count(choices.drop_last(), members) + if members.contains(choices.last()) {
            1int
        } else {
            0int
        }
    }
}

pub proof fn lemma_match_count_bounds(choices: Seq<usize>, members: Seq<usize>)
    ensures
        0 <= match_count(choices, members) <= choices.len(),
    decreases choices.len(),
{
    if choices.len() > 0 {
        lemma_match_count_bounds(choices.drop_last(), members);
    }
}

/// Choice satisfaction collected by the first `k` members of one room: one
/// point for every choice of a member that is seated in the same room.
pub open spec fn room_score_upto(ro: Roster, members: Seq<usize>, k: int) -> int
    decreases k,
{
    if k <= 0 {
        0
    } else {
        room_score_upto(ro, members, k - 1) + match_count(
            ro.choices_ix@[members[k - 1] as int]@,
            members,
        )
    }
}

/// Choice satisfaction collected by one room.
pub open spec fn room_score(ro: Roster, members: Seq<usize>) -> int {
    room_score_upto(ro, members, members.len() as int)
}

/// Choice satisfaction of the first `k` rooms.
pub open spec fn sol_score_upto(ro: Roster, sol: Seq<IxRoom>, k: int) -> int
    decreases k,
{
    if k <= 0 {
        0
    } else {
        sol_score_upto(ro, sol, k - 1) + room_score(ro, sol[k - 1].members@)
    }
}

/// The choice-satisfaction score of a whole assignment: for every seated
/// person, one point per chosen roommate seated in the same room. Directional:
/// a mutual pair scores once for each side.
pub open spec fn choice_score_spec(ro: Roster, sol: Seq<IxRoom>) -> int {
    sol_score_upto(ro, sol, sol.len() as int)
}

proof fn lemma_room_score_bound(ro: Roster, members: Seq<usize>, k: int)
    requires
        ro.wf(),
        0 <= k <= members.len(),
        forall|i: int| 0 <= i < members.len() ==> ((#[trigger] members[i]) as int) < ro.n(),
    ensures
        0 <= room_score_upto(ro, members, k) <= k * ro.n(),
    decreases k,
{
    if k > 0 {
        lemma_room_score_bound(ro, members, k - 1);
        lemma_match_count_bounds(ro.choices_ix@[members[k - 1] as int]@, members);
        assert((k - 1) * ro.n() + ro.n() == k * ro.n()) by (nonlinear_arith);
    }
}

proof fn lemma_sol_score_bound(ro: Roster, sol: Seq<IxRoom>, k: int)
    requires
        ro.wf(),
        sol_wf(sol, ro),
        0 <= k <= sol.len(),
    ensures
        0 <= sol_score_upto(ro, sol, k) <= k * (MAX_POPULATION as int) * (MAX_POPULATION as int),
    decreases k,
{
    if k > 0 {
        lemma_sol_score_bound(ro, sol, k - 1);
        lemma_room_score_bound(ro, sol[k - 1].members@, sol[k - 1].members@.len() as int);
        assert(sol[k - 1].members@.len() * ro.n() <= (MAX_POPULATION as int) * (
        MAX_POPULATION as int)) by (nonlinear_arith)
            requires
                0 <= sol[k - 1].members@.len() <= MAX_POPULATION as int,
                0 <= ro.n() <= MAX_POPULATION as int,
        ;
        assert((k - 1) * (MAX_POPULATION as int) * (MAX_POPULATION as int) + (MAX_POPULATION as int)
            * (MAX_POPULATION as int) == k * (MAX_POPULATION as int) * (MAX_POPULATION as int))
            by (nonlinear_arith);
    }
}

/// Counts how many of person `p`'s choices are seated in `members`.
pub fn count_matches(ro: &Roster, p: usize, members: &Vec<usize>) -> (c: usize)
    requires
        ro.wf(),
        (p as int) < ro.n(),
    ensures
        c == match_count(ro.choices_ix@[p as int]@, members@),
        c <= ro.choices_ix@[p as int]@.len(),
{
    let choices = &ro.choices_ix[p];
    let mut c: usize = 0;
    let mut k: usize = 0;
    while k < choices.len()
        invariant
            choices@ == ro.choices_ix@[p as int]@,
            k <= choices@.len(),
            c <= k,
            c == match_count(choices@.take(k as int), members@),
        decreases choices@.len() - k,
    {
        proof {
            assert(choices@.take(k + 1).drop_last() =~= choices@.take(k as int));
            assert(choices@.take(k + 1).last() == choices@[k as int]);
        }
        if crate::solution::contains_ix(members, choices[k]) {
            c = c + 1;
        }
        k = k + 1;
    }
    proof {
        assert(choices@.take(choices@.len() as int) =~= choices@);
    }
    c
}

/// Computes the choice-satisfaction score of an assignment.
pub fn choice_score(ro: &Roster, sol: &Vec<IxRoom>) -> (score: i64)
    requires
        ro.wf(),
        sol_wf(sol@, *ro),
    ensures
        score == choice_score_spec(*ro, sol@),
        0 <= score <= MAX_CHOICE_SCORE,
{
    let mut score: i64 = 0;
    let mut r: usize = 0;
    while r < sol.len()
        invariant
            ro.wf(),
            sol_wf(sol@, *ro),
            r <= sol@.len(),
            score == sol_score_upto(*ro, sol@, r as int),
        decreases sol@.len() - r,
    {
        proof {
            lemma_sol_score_bound(*ro, sol@, r as int);
        }
        let members = &sol[r].members;
        let mut k: usize = 0;
        while k < members.len()
            invariant
                ro.wf(),
                sol_wf(sol@, *ro),
                r < sol@.len(),
                members@ == sol@[r as int].members@,
                k <= members@.len(),
                score == sol_score_upto(*ro, sol@, r as int) + room_score_upto(
                    *ro,
                    members@,
                    k as int,
                ),
            decreases members@.len() - k,
        {
            proof {
                lemma_sol_score_bound(*ro, sol@, r as int);
                lemma_room_score_bound(*ro, members@, k as int);
                lemma_match_count_bounds(ro.choices_ix@[members@[k as int] as int]@, members@);
                assert(sol_score_upto(*ro, sol@, r as int) + room_score_upto(*ro, members@, k as int)
                    + ro.n() <= 1000000000000000int + 10000000000int + 100000int)
                    by (nonlinear_arith)
                    requires
                        sol_score_upto(*ro, sol@, r as int) <= (r as int) * 100000int * 100000int,
                        room_score_upto(*ro, members@, k as int) <= (k as int) * ro.n(),
                        0 <= r as int <= sol@.len(), sol@.len() <= ro.n(),
                        0 <= k as int <= members@.len(), members@.len() <= 100000int,
                        0 <= ro.n() <= 100000int,
                ;
            }
            let m = members[k];
            let c = count_matches(ro, m, members);
            score = score + (c as i64);
            k = k + 1;
        }
        r = r + 1;
    }
    proof {
        lemma_sol_score_bound(*ro, sol@, sol@.len() as int);
        assert(sol@.len() * 100000int * 100000int <= 1000000000000000int) by (nonlinear_arith)
            requires 0 <= sol@.len() <= 100000int,
        ;
    }
    score
}

proof fn lemma_count_in_nodup(s: Seq<usize>, x: usize)
    requires
        forall|i: int, j: int| 0 <= i < j < s.len() ==> s[i] < s[j],
    ensures
        count_in(s, x) == if s.contains(x) {
            1int
        } else {
            0int
        },
    decreases s.len(),
{
    if s.len() > 0 {
        lemma_count_in_nodup(s.drop_last(), x);
        if s.last() == x {
            assert(!s.drop_last().contains(x)) by {
                if s.drop_last().contains(x) {
                    let k = choose|k: int| 0 <= k < s.len() - 1 && s.drop_last()[k] == x;
                    assert(s[k] == x && s[k] < s[s.len() - 1]);
                }
            }
        } else {
            assert(s.contains(x) <==> s.drop_last().contains(x)) by {
                if s.contains(x) {
                    let k = choose|k: int| 0 <= k < s.len() && s[k] == x;
                    assert(s.drop_last()[k] == x);
                }
                if s.drop_last().contains(x) {
                    let k = choose|k: int| 0 <= k < s.len() - 1 && s.drop_last()[k] == x;
                    assert(s[k] == x);
                }
            }
        }
    }
}

proof fn lemma_match_count_push(choices: Seq<usize>, members: Seq<usize>, x: usize)
    requires
        !members.contains(x),
    ensures
        match_count(choices, members.push(x)) == match_count(choices, members) + count_in(
            choices,
            x,
        ),
    decreases choices.len(),
{
    if choices.len() > 0 {
        lemma_match_count_push(choices.drop_last(), members, x);
        lemma_push_contains(members, x, choices.last());
    }
}

/// How many of the first `k` members of a room list person `x` among their
/// choices.
pub open spec fn chooser_count_upto(ro: Roster, members: Seq<usize>, x: usize, k: int) -> int
    decreases k,
{
    if k <= 0 {
        0
    } else {
        chooser_count_upto(ro, members, x, k - 1) + if ro.chooses(members[k - 1] as int, x as int) {
            1int
        } else {
            0int
        }
    }
}

/// How many members of a room list person `x` among their choices.
pub open spec fn chooser_count(ro: Roster, members: Seq<usize>, x: usize) -> int {
    chooser_count_upto(ro, members, x, members.len() as int)
}

proof fn lemma_score_upto_push(ro: Roster, members: Seq<usize>, x: usize, k: int)
    requires
        ro.wf(),
        (x as int) < ro.n(),
        !members.contains(x),
        forall|i: int| 0 <= i < members.len() ==> ((#[trigger] members[i]) as int) < ro.n(),
        0 <= k <= members.len(),
    ensures
        room_score_upto(ro, members.push(x), k) == room_score_upto(ro, members, k)
            + chooser_count_upto(ro, members, x, k),
    decreases k,
{
    if k > 0 {
        lemma_score_upto_push(ro, members, x, k - 1);
        let m = members[k - 1];
        assert(members.push(x)[k - 1] == m);
        lemma_match_count_push(ro.choices_ix@[m as int]@, members, x);
        lemma_count_in_nodup(ro.choices_ix@[m as int]@, x);
    }
}

/// Scoring monotonicity for one room: seating `x` in a room raises the
/// room's score by exactly one point for each choice of `x` seated in the
/// room, plus one point for each member that lists `x` — independent of the
/// room's size. The new member's own matches are counted against the room
/// including `x`, so a person who lists themselves scores that one match
/// the moment they are seated.
pub proof fn lemma_score_after_addition(ro: Roster, members: Seq<usize>, x: usize)
    requires
        ro.wf(),
        (x as int) < ro.n(),
        !members.contains(x),
        forall|i: int| 0 <= i < members.len() ==> ((#[trigger] members[i]) as int) < ro.n(),
    ensures
        room_score(ro, members.push(x)) == room_score(ro, members) + match_count(
            ro.choices_ix@[x as int]@,
            members.push(x),
        ) + chooser_count(ro, members, x),
{
    let m2 = members.push(x);
    assert(m2[members.len() as int] == x);
    lemma_score_upto_push(ro, members, x, members.len() as int);
    assert(room_score(ro, m2) == room_score_upto(ro, m2, members.len() as int) + match_count(
        ro.choices_ix@[x as int]@,
        m2,
    ));
}

proof fn lemma_sol_score_update(ro: Roster, sol: Seq<IxRoom>, r: int, room2: IxRoom, k: int)
    requires
        0 <= r < sol.len(),
        0 <= k <= sol.len(),
    ensures
        sol_score_upto(ro, sol.update(r, room2), k) == sol_score_upto(ro, sol, k) + if k > r {
            room_score(ro, room2.members@) - room_score(ro, sol[r].members@)
        } else {
            0int
        },
    decreases k,
{
    if k > 0 {
        lemma_sol_score_update(ro, sol, r, room2, k - 1);
    }
}

/// Scoring monotonicity for a whole assignment: seating `x` in room `r`
/// raises the choice score by exactly one point per choice of `x` seated in
/// that room, plus one point per member of that room that lists `x`.
pub proof fn lemma_choice_score_after_addition(
    ro: Roster,
    sol: Seq<IxRoom>,
    r: int,
    room2: IxRoom,
    x: usize,
)
    requires
        ro.wf(),
        (x as int) < ro.n(),
        0 <= r < sol.len(),
        !sol[r].members@.contains(x),
        room2.members@ == sol[r].members@.push(x),
        forall|i: int|
            0 <= i < sol[r].members@.len() ==> ((#[trigger] sol[r].members@[i]) as int) < ro.n(),
    ensures
        choice_score_spec(ro, sol.update(r, room2)) == choice_score_spec(ro, sol) + match_count(
            ro.choices_ix@[x as int]@,
            room2.members@,
        ) + chooser_count(ro, sol[r].members@, x),
{
    lemma_sol_score_update(ro, sol, r, room2, sol.len() as int);
    lemma_score_after_addition(ro, sol[r].members@, x);
}

/// Number of rooms of category `c` in `sol`.
pub open spec fn cat_count(sol: Seq<IxRoom>, c: usize) -> int
    decreases sol.len(),
{
    if sol.len() == 0 {
        0
    } else {
        cat_count(sol.drop_last(), c) + if sol.last().category == c {
            1int
        } else {
            0int
        }
    }
}

/// Largest member count among the rooms of category `c` (0 with no such room).
pub open spec fn cat_max(sol: Seq<IxRoom>, c: usize) -> int
    decreases sol.len(),
{
    if sol.len() == 0 {
        0
    } else {
        let rest = cat_max(sol.drop_last(), c);
        if sol.last().category == c && (sol.last().members@.len() as int) > rest {
            sol.last().members@.len() as int
        } else {
            rest
        }
    }
}

/// Smallest member count among the rooms of category `c` (`usize::MAX` with
/// no such room).
pub open spec fn cat_min(sol: Seq<IxRoom>, c: usize) -> int
    decreases sol.len(),
{
    if sol.len() == 0 {
        usize::MAX as int
    } else {
        let rest = cat_min(sol.drop_last(), c);
        if sol.last().category == c && (sol.last().members@.len() as int) < rest {
            sol.last().members@.len() as int
        } else {
            rest
        }
    }
}

/// The spread of one category: its largest room minus its smallest, zero for
/// a category without rooms.
pub open spec fn cat_imbalance(sol: Seq<IxRoom>, c: usize) -> int {
    if cat_count(sol, c) == 0 {
        0
    } else {
        cat_max(sol, c) - cat_min(sol, c)
    }
}

/// Sum of the spreads of the categories below `c`.
pub open spec fn imbalance_upto(sol: Seq<IxRoom>, c: int) -> int
    decreases c,
{
    if c <= 0 {
        0
    } else {
        imbalance_upto(sol, c - 1) + cat_imbalance(sol, (c - 1) as usize)
    }
}

/// The imbalance of an assignment: per category, the spread between its
/// largest and smallest room, summed across all categories.
pub open spec fn imbalance_spec(ro: Roster, sol: Seq<IxRoom>) -> int {
    imbalance_upto(sol, ro.ncats())
}

proof fn lemma_sol_wf_drop_last(sol: Seq<IxRoom>, ro: Roster)
    requires
        sol_wf(sol, ro),
        sol.len() > 0,
    ensures
        sol_wf(sol.drop_last(), ro),
{
    assert forall|r: int| 0 <= r < sol.drop_last().len() implies (#[trigger] sol.drop_last()[r]).wf(
        ro,
    ) by {
        assert(sol.drop_last()[r] == sol[r]);
    }
}

proof fn lemma_cat_bounds(ro: Roster, sol: Seq<IxRoom>, c: usize)
    requires
        sol_wf(sol, ro),
    ensures
        cat_count(sol, c) >= 0,
        cat_count(sol, c) > 0 ==> 0 <= cat_min(sol, c) <= cat_max(sol, c) <= MAX_POPULATION as int,
        cat_count(sol, c) == 0 ==> cat_max(sol, c) == 0 && cat_min(sol, c) == usize::MAX as int,
        0 <= cat_imbalance(sol, c) <= MAX_POPULATION as int,
    decreases sol.len(),
{
    if sol.len() > 0 {
        lemma_sol_wf_drop_last(sol, ro);
        lemma_cat_bounds(ro, sol.drop_last(), c);
        assert(sol.last().wf(ro));
    }
}

proof fn lemma_imbalance_bound(ro: Roster, sol: Seq<IxRoom>, c: int)
    requires
        sol_wf(sol, ro),
        0 <= c,
    ensures
        0 <= imbalance_upto(sol, c) <= c * (MAX_POPULATION as int),
    decreases c,
{
    if c > 0 {
        lemma_imbalance_bound(ro, sol, c - 1);
        lemma_cat_bounds(ro, sol, (c - 1) as usize);
        assert((c - 1) * (MAX_POPULATION as int) + (MAX_POPULATION as int) == c * (
        MAX_POPULATION as int)) by (nonlinear_arith);
    }
}

/// Computes the imbalance of an assignment.
pub fn imbalance(ro: &Roster, sol: &Vec<IxRoom>) -> (imb: u64)
    requires
        ro.wf(),
        sol_wf(sol@, *ro),
    ensures
        imb == imbalance_spec(*ro, sol@),
        imb <= MAX_COUNT,
{
    let mut imb: u64 = 0;
    let mut c: usize = 0;
    while c < ro.category_names.len()
        invariant
            ro.wf(),
            sol_wf(sol@, *ro),
            c <= ro.ncats(),
            imb == imbalance_upto(sol@, c as int),
        decreases ro.ncats() - c,
    {
        proof {
            lemma_imbalance_bound(*ro, sol@, c as int);
            lemma_cat_bounds(*ro, sol@, c);
            assert((c as int) * 100000int + 100000int <= 10000000000int) by (nonlinear_arith)
                requires 0 <= c as int, c as int + 1 <= 100000int,
            ;
        }
        let mut maxv: usize = 0;
        let mut minv: usize = usize::MAX;
        let mut r: usize = 0;
        while r < sol.len()
            invariant
                ro.wf(),
                sol_wf(sol@, *ro),
                (c as int) < ro.ncats(),
                r <= sol@.len(),
                maxv == cat_max(sol@.take(r as int), c),
                minv == cat_min(sol@.take(r as int), c),
            decreases sol@.len() - r,
        {
            proof {
                assert(sol@.take(r + 1).drop_last() =~= sol@.take(r as int));
                assert(sol@.take(r + 1).last() == sol@[r as int]);
            }
            if sol[r].category == c {
                let len = sol[r].members.len();
                if len > maxv {
                    maxv = len;
                }
                if len < minv {
                    minv = len;
                }
            }
            r = r + 1;
        }
        proof {
            assert(sol@.take(sol@.len() as int) =~= sol@);
        }
        if minv != usize::MAX {
            proof {
                if cat_count(sol@, c) == 0 {
                    lemma_cat_bounds(*ro, sol@, c);
                }
            }
            imb = imb + ((maxv - minv) as u64);
        }
        c = c + 1;
    }
    proof {
        lemma_imbalance_bound(*ro, sol@, ro.ncats());
        assert(ro.ncats() * 100000int <= 10000000000int) by (nonlinear_arith)
            requires 0 <= ro.ncats() <= 100000int,
        ;
    }
    imb
}

/// Among the first `k` members of a room, how many are seated with none of
/// their choices although their choice list was non-empty.
pub open spec fn room_without_upto(ro: Roster, members: Seq<usize>, k: int) -> int
    decreases k,
{
    if k <= 0 {
        0
    } else {
        room_without_upto(ro, members, k - 1) + if ro.has_choices@[members[k - 1] as int]
            && match_count(ro.choices_ix@[members[k - 1] as int]@, members) == 0 {
            1int
        } else {
            0int
        }
    }
}

/// Without-choice members of the first `k` rooms.
pub open spec fn sol_without_upto(ro: Roster, sol: Seq<IxRoom>, k: int) -> int
    decreases k,
{
    if k <= 0 {
        0
    } else {
        sol_without_upto(ro, sol, k - 1) + room_without_upto(
            ro,
            sol[k - 1].members@,
            sol[k - 1].members@.len() as int,
        )
    }
}

/// How many seated people have a non-empty choice list but none of their
/// choices in their own room. A person with an empty choice list never
/// counts, whatever their room holds.
pub open spec fn without_choice_spec(ro: Roster, sol: Seq<IxRoom>) -> int {
    sol_without_upto(ro, sol, sol.len() as int)
}

proof fn lemma_room_without_bound(ro: Roster, members: Seq<usize>, k: int)
    requires
        0 <= k,
    ensures
        0 <= room_without_upto(ro, members, k) <= k,
    decreases k,
{
    if k > 0 {
        lemma_room_without_bound(ro, members, k - 1);
    }
}

proof fn lemma_sol_without_bound(ro: Roster, sol: Seq<IxRoom>, k: int)
    requires
        ro.wf(),
        sol_wf(sol, ro),
        0 <= k <= sol.len(),
    ensures
        0 <= sol_without_upto(ro, sol, k) <= k * (MAX_POPULATION as int),
    decreases k,
{
    if k > 0 {
        lemma_sol_without_bound(ro, sol, k - 1);
        lemma_room_without_bound(ro, sol[k - 1].members@, sol[k - 1].members@.len() as int);
        assert((k - 1) * (MAX_POPULATION as int) + (MAX_POPULATION as int) == k * (
        MAX_POPULATION as int)) by (nonlinear_arith);
    }
}

/// Counts the seated people whose non-empty choice list has no entry seated
/// in their own room.
pub fn without_choice_count(ro: &Roster, sol: &Vec<IxRoom>) -> (wc: u64)
    requires
        ro.wf(),
        sol_wf(sol@, *ro),
    ensures
        wc == without_choice_spec(*ro, sol@),
        wc <= MAX_COUNT,
{
    let mut wc: u64 = 0;
    let mut r: usize = 0;
    while r < sol.len()
        invariant
            ro.wf(),
            sol_wf(sol@, *ro),
            r <= sol@.len(),
            wc == sol_without_upto(*ro, sol@, r as int),
        decreases sol@.len() - r,
    {
        let members = &sol[r].members;
        let mut k: usize = 0;
        while k < members.len()
            invariant
                ro.wf(),
                sol_wf(sol@, *ro),
                r < sol@.len(),
                members@ == sol@[r as int].members@,
                k <= members@.len(),
                wc == sol_without_upto(*ro, sol@, r as int) + room_without_upto(
                    *ro,
                    members@,
                    k as int,
                ),
            decreases members@.len() - k,
        {
            proof {
                lemma_sol_without_bound(*ro, sol@, r as int);
                lemma_room_without_bound(*ro, members@, k as int);
                assert((r as int) * 100000int + 100000int <= 10000000000int) by (nonlinear_arith)
                    requires 0 <= r as int, r as int + 1 <= 100000int,
                ;
            }
            let m = members[k];
            if ro.has_choices[m] {
                let cnt = count_matches(ro, m, members);
                if cnt == 0 {
                    wc = wc + 1;
                }
            }
            k = k + 1;
        }
        r = r + 1;
    }
    proof {
        lemma_sol_without_bound(*ro, sol@, sol@.len() as int);
        assert(sol@.len() * 100000int <= 10000000000int) by (nonlinear_arith)
            requires 0 <= sol@.len() <= 100000int,
        ;
    }
    wc
}

/// Number of people below `k` satisfying `f`.
pub open spec fn people_count(f: spec_fn(int) -> bool, k: int) -> int
    decreases k,
{
    if k <= 0 {
        0
    } else {
        people_count(f, k - 1) + if f(k - 1) {
            1int
        } else {
            0int
        }
    }
}

proof fn lemma_people_count_eq(f: spec_fn(int) -> bool, g: spec_fn(int) -> bool, k: int)
    requires
        forall|i: int| 0 <= i < k ==> #[trigger] f(i) == g(i),
    ensures
        people_count(f, k) == people_count(g, k),
    decreases k,
{
    if k > 0 {
        lemma_people_count_eq(f, g, k - 1);
    }
}

proof fn lemma_people_count_zero(f: spec_fn(int) -> bool, k: int)
    requires
        forall|i: int| 0 <= i < k ==> !#[trigger] f(i),
    ensures
        people_count(f, k) == 0,
    decreases k,
{
    if k > 0 {
        lemma_people_count_zero(f, k - 1);
    }
}

proof fn lemma_people_count_one_more(
    f: spec_fn(int) -> bool,
    g: spec_fn(int) -> bool,
    x: int,
    k: int,
)
    requires
        0 <= x < k,
        !f(x),
        g(x),
        forall|i: int| 0 <= i < k && i != x ==> #[trigger] f(i) == g(i),
    ensures
        people_count(g, k) == people_count(f, k) + 1,
    decreases k,
{
    if x == k - 1 {
        lemma_people_count_eq(f, g, k - 1);
    } else {
        lemma_people_count_one_more(f, g, x, k - 1);
    }
}

proof fn lemma_people_count_disjoint_or(
    f: spec_fn(int) -> bool,
    g: spec_fn(int) -> bool,
    h: spec_fn(int) -> bool,
    k: int,
)
    requires
        forall|i: int| 0 <= i < k ==> #[trigger] h(i) == (f(i) || g(i)),
        forall|i: int| 0 <= i < k ==> !(#[trigger] f(i) && g(i)),
    ensures
        people_count(h, k) == people_count(f, k) + people_count(g, k),
    decreases k,
{
    if k > 0 {
        lemma_people_count_disjoint_or(f, g, h, k - 1);
    }
}

proof fn lemma_count_in_nonneg(s: Seq<usize>, x: usize)
    ensures
        count_in(s, x) >= 0,
    decreases s.len(),
{
    if s.len() > 0 {
        lemma_count_in_nonneg(s.drop_last(), x);
    }
}

proof fn lemma_count_in_ge1(s: Seq<usize>, x: usize)
    requires
        s.contains(x),
    ensures
        count_in(s, x) >= 1,
    decreases s.len(),
{
    lemma_count_in_nonneg(s, x);
    if s.len() > 0 {
        if s.last() == x {
            lemma_count_in_nonneg(s.drop_last(), x);
        } else {
            let i = choose|i: int| 0 <= i < s.len() && s[i] == x;
            assert(s.drop_last()[i] == x);
            lemma_count_in_ge1(s.drop_last(), x);
        }
    }
}

proof fn lemma_count_in_two(s: Seq<usize>, i: int, j: int)
    requires
        0 <= i < j < s.len(),
        s[i] == s[j],
    ensures
        count_in(s, s[i]) >= 2,
    decreases s.len(),
{
    if j == s.len() - 1 {
        assert(s.drop_last()[i] == s[i]);
        lemma_count_in_ge1(s.drop_last(), s[i]);
    } else {
        lemma_count_in_two(s.drop_last(), i, j);
    }
}

proof fn lemma_occ_nonneg(sol: Seq<IxRoom>, x: usize)
    ensures
        occ_total(sol, x) >= 0,
    decreases sol.len(),
{
    if sol.len() > 0 {
        lemma_occ_nonneg(sol.drop_last(), x);
        lemma_count_in_nonneg(sol.last().members@, x);
    }
}

/// Person `p` is seated somewhere with a non-empty choice list and none of
/// their choices in the same room.
pub open spec fn person_without_choice(ro: Roster, sol: Seq<IxRoom>, p: int) -> bool {
    exists|r: int|
        0 <= r < sol.len() && (#[trigger] sol[r]).members@.contains(p as usize)
            && ro.has_choices@[p] && match_count(ro.choices_ix@[p]@, sol[r].members@) == 0
}

proof fn lemma_room_without_by_person(ro: Roster, members: Seq<usize>, k: int, n: int)
    requires
        n <= usize::MAX,
        0 <= k <= members.len(),
        forall|i: int| 0 <= i < members.len() ==> ((#[trigger] members[i]) as int) < n,
        forall|i: int, j: int| 0 <= i < j < members.len() ==> members[i] != members[j],
    ensures
        room_without_upto(ro, members, k) == people_count(
            |p: int|
                members.take(k).contains(p as usize) && ro.has_choices@[p] && match_count(
                    ro.choices_ix@[p]@,
                    members,
                ) == 0,
            n,
        ),
    decreases k,
{
    let pk = |p: int|
        members.take(k).contains(p as usize) && ro.has_choices@[p] && match_count(
            ro.choices_ix@[p]@,
            members,
        ) == 0;
    if k == 0 {
        assert forall|p: int| 0 <= p < n implies !#[trigger] pk(p) by {
            assert(members.take(0).len() == 0);
        }
        lemma_people_count_zero(pk, n);
    } else {
        lemma_room_without_by_person(ro, members, k - 1, n);
        let pk1 = |p: int|
            members.take(k - 1).contains(p as usize) && ro.has_choices@[p] && match_count(
                ro.choices_ix@[p]@,
                members,
            ) == 0;
        let x = members[k - 1];
        assert(members.take(k) =~= members.take(k - 1).push(x));
        assert(!members.take(k - 1).contains(x)) by {
            if members.take(k - 1).contains(x) {
                let i = choose|i: int| 0 <= i < k - 1 && #[trigger] members.take(k - 1)[i] == x;
                assert(members[i] == members[k - 1]);
            }
        }
        assert forall|p: int| #[trigger] members.take(k).contains(p as usize) == (members.take(
            k - 1,
        ).contains(p as usize) || p as usize == x) by {
            crate::roster::lemma_push_contains(members.take(k - 1), x, p as usize);
        }
        let ind = ro.has_choices@[x as int] && match_count(ro.choices_ix@[x as int]@, members)
            == 0;
        if ind {
            assert(!pk1(x as int));
            assert(pk(x as int)) by {
                assert(members.take(k).contains((x as int) as usize));
            }
            assert forall|i: int| 0 <= i < n && i != x as int implies #[trigger] pk1(i) == pk(i)
                by {
                assert(i as usize != x);
                assert(members.take(k).contains(i as usize) == (members.take(k - 1).contains(
                    i as usize,
                ) || i as usize == x));
            }
            lemma_people_count_one_more(pk1, pk, x as int, n);
        } else {
            assert forall|i: int| 0 <= i < n implies #[trigger] pk1(i) == pk(i) by {
                assert(members.take(k).contains(i as usize) == (members.take(k - 1).contains(
                    i as usize,
                ) || i as usize == x));
                if i == x as int {
                    assert(!pk1(i) && !pk(i));
                } else {
                    assert(i as usize != x);
                }
            }
            lemma_people_count_eq(pk1, pk, n);
        }
    }
}

proof fn lemma_sol_without_prefix(ro: Roster, sol: Seq<IxRoom>, k: int)
    requires
        0 <= k < sol.len(),
    ensures
        sol_without_upto(ro, sol, k) == sol_without_upto(ro, sol.drop_last(), k),
    decreases k,
{
    if k > 0 {
        lemma_sol_without_prefix(ro, sol, k - 1);
        assert(sol.drop_last()[k - 1] == sol[k - 1]);
    }
}

proof fn lemma_sol_without_by_person(ro: Roster, sol: Seq<IxRoom>, n: int)
    requires
        n <= usize::MAX,
        forall|r: int, i: int|
            0 <= r < sol.len() && 0 <= i < sol[r].members@.len()
                ==> (((#[trigger] sol[r].members@[i])) as int) < n,
        forall|p: usize| (p as int) < n ==> #[trigger] occ_total(sol, p) <= 1,
    ensures
        sol_without_upto(ro, sol, sol.len() as int) == people_count(
            |p: int| person_without_choice(ro, sol, p),
            n,
        ),
    decreases sol.len(),
{
    let psol = |p: int| person_without_choice(ro, sol, p);
    if sol.len() == 0 {
        lemma_people_count_zero(psol, n);
    } else {
        let rest = sol.drop_last();
        let room = sol.last();
        let members = room.members@;
        assert forall|p: usize| (p as int) < n implies #[trigger] occ_total(rest, p) <= 1 by {
            assert(occ_total(sol, p) <= 1);
            assert(occ_total(sol, p) == occ_total(rest, p) + count_in(members, p));
            lemma_count_in_nonneg(members, p);
            lemma_occ_nonneg(rest, p);
        }
        lemma_sol_without_by_person(ro, rest, n);
        lemma_sol_without_prefix(ro, sol, sol.len() - 1);
        // the last room's members are pairwise distinct
        assert forall|i: int, j: int|
            0 <= i < j < members.len() implies members[i] != members[j] by {
            if members[i] == members[j] {
                lemma_count_in_two(members, i, j);
                lemma_occ_nonneg(rest, members[i]);
                assert(occ_total(sol, members[i]) >= 2);
            }
        }
        assert(members.take(members.len() as int) =~= members);
        lemma_room_without_by_person(ro, members, members.len() as int, n);
        let prest = |p: int| person_without_choice(ro, rest, p);
        let proom = |p: int|
            members.contains(p as usize) && ro.has_choices@[p] && match_count(
                ro.choices_ix@[p]@,
                members,
            ) == 0;
        assert forall|p: int| 0 <= p < n implies #[trigger] psol(p) == (prest(p) || proom(p)) by {
            if psol(p) {
                let r = choose|r: int|
                    0 <= r < sol.len() && (#[trigger] sol[r]).members@.contains(p as usize)
                        && ro.has_choices@[p] && match_count(ro.choices_ix@[p]@, sol[r].members@)
                        == 0;
                if r < sol.len() - 1 {
                    assert(rest[r] == sol[r]);
                    assert(prest(p));
                } else {
                    assert(proom(p));
                }
            }
            if prest(p) {
                let r = choose|r: int|
                    0 <= r < rest.len() && (#[trigger] rest[r]).members@.contains(p as usize)
                        && ro.has_choices@[p] && match_count(ro.choices_ix@[p]@, rest[r].members@)
                        == 0;
                assert(sol[r] == rest[r]);
                assert(psol(p));
            }
            if proom(p) {
                assert(sol[sol.len() - 1] == room);
                assert(psol(p));
            }
        }
        assert forall|p: int| 0 <= p < n implies !(#[trigger] prest(p) && proom(p)) by {
            if prest(p) && proom(p) {
                let r = choose|r: int|
                    0 <= r < rest.len() && (#[trigger] rest[r]).members@.contains(p as usize)
                        && ro.has_choices@[p] && match_count(ro.choices_ix@[p]@, rest[r].members@)
                        == 0;
                lemma_count_in_ge1(members, p as usize);
                lemma_occ_in_room_ge(rest, r, p as usize);
                assert(occ_total(sol, p as usize) >= 2);
            }
        }
        lemma_people_count_disjoint_or(prest, proom, psol, n);
    }
}

proof fn lemma_occ_in_room_ge(sol: Seq<IxRoom>, r: int, x: usize)
    requires
        0 <= r < sol.len(),
        sol[r].members@.contains(x),
    ensures
        occ_total(sol, x) >= count_in(sol[r].members@, x),
        occ_total(sol, x) >= 1,
    decreases sol.len(),
{
    lemma_count_in_ge1(sol[r].members@, x);
    if r == sol.len() - 1 {
        lemma_occ_nonneg(sol.drop_last(), x);
    } else {
        assert(sol.drop_last()[r] == sol[r]);
        lemma_occ_in_room_ge(sol.drop_last(), r, x);
        lemma_count_in_nonneg(sol.last().members@, x);
    }
}

/// Without-choice correctness: over a feasible assignment, the
/// without-choice count counts exactly the people whose non-empty choice
/// list has no entry seated in their own room — one each, and a person with
/// an empty choice list never counts, whatever their room holds.
pub proof fn lemma_without_choice_correctness(ro: Roster, sol: Seq<IxRoom>)
    requires
        ro.wf(),
        complete_wf(sol, ro),
    ensures
        without_choice_spec(ro, sol) == people_count(
            |p: int| person_without_choice(ro, sol, p),
            ro.n(),
        ),
        forall|p: int|
            0 <= p < ro.n() && !ro.has_choices@[p] ==> !person_without_choice(ro, sol, p),
{
    assert forall|r: int, i: int|
        0 <= r < sol.len() && 0 <= i < sol[r].members@.len() implies (((
    #[trigger] sol[r].members@[i])) as int) < ro.n() by {
        assert(sol[r].wf(ro));
    }
    lemma_sol_without_by_person(ro, sol, ro.n());
}

/// The composite ranking score. With nobody left without a choice, balance
/// decides among equally satisfying assignments; otherwise every
/// without-choice person costs a million points, so any assignment serving
/// everyone outranks any assignment that leaves someone choiceless.
pub open spec fn composite_of(cs: int, wc: int, imb: int) -> int {
    if wc == 0 {
        cs - imb * 1000
    } else {
        cs * 10 - wc * 1000000 - imb * 10
    }
}

/// Computes the composite ranking score from the three measures.
pub fn composite_score(cs: i64, wc: u64, imb: u64) -> (t: i64)
    requires
        0 <= cs <= MAX_CHOICE_SCORE,
        wc <= MAX_COUNT,
        imb <= MAX_COUNT,
    ensures
        t == composite_of(cs as int, wc as int, imb as int),
{
    if wc == 0 {
        cs - (imb as i64) * 1000
    } else {
        cs * 10 - (wc as i64) * 1000000 - (imb as i64) * 10
    }
}

/// The measures of one candidate assignment, as ranked by the search driver.
pub struct Stats {
    pub choice_score: i64,
    pub without_choices: u64,
    pub imbalance: u64,
    pub total: i64,
}

/// The stats record holds exactly the evaluator's measures of `sol`.
pub open spec fn stats_match(ro: Roster, sol: Seq<IxRoom>, st: Stats) -> bool {
    &&& st.choice_score == choice_score_spec(ro, sol)
    &&& st.without_choices == without_choice_spec(ro, sol)
    &&& st.imbalance == imbalance_spec(ro, sol)
    &&& st.total == composite_of(
        st.choice_score as int,
        st.without_choices as int,
        st.imbalance as int,
    )
}

/// Evaluates one candidate assignment: choice score, without-choice count,
/// imbalance, and the composite ranking score.
pub fn evaluate(ro: &Roster, sol: &Vec<IxRoom>) -> (st: Stats)
    requires
        ro.wf(),
        sol_wf(sol@, *ro),
    ensures
        stats_match(*ro, sol@, st),
{
    let cs = choice_score(ro, sol);
    let wc = without_choice_count(ro, sol);
    let imb = imbalance(ro, sol);
    let total = composite_score(cs, wc, imb);
    Stats { choice_score: cs, without_choices: wc, imbalance: imb, total }
}

} // verus!
