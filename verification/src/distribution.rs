//! The room-size distribution planner: given a category's population and a
//! maximum room size, decide how many rooms to open and how large each one
//! should be, as evenly as possible.

use vstd::prelude::*;
use vstd::arithmetic::div_mod::{
    lemma_fundamental_div_mod, lemma_mod_bound, lemma_div_is_ordered, lemma_div_of0,
    lemma_small_mod,
};

verus! {

/// Number of rooms needed for `pop` people with capacity `max`: `ceil(pop / max)`.
pub open spec fn room_count(pop: int, max: int) -> int {
    pop / max + if pop % max > 0 {
        1int
    } else {
        0int
    }
}

/// Size of the `i`-th planned room: the first `pop % k` rooms hold one person
/// more than the remaining ones, so that the sizes sum to `pop`.
pub open spec fn planned_size(pop: int, max: int, i: int) -> int {
    let k = room_count(pop, max);
    if i < pop % k {
        pop / k + 1
    } else {
        pop / k
    }
}

/// The whole planned distribution for one category, largest rooms first.
pub open spec fn plan_spec(pop: int, max: int) -> Seq<int> {
    Seq::new(room_count(pop, max) as nat, |i: int| planned_size(pop, max, i))
}

/// Sum of a sequence of integers.
pub open spec fn sum_of(s: Seq<int>) -> int
    decreases s.len(),
{
    if s.len() == 0 {
        0
    } else {
        sum_of(s.drop_last()) + s.last()
    }
}

/// Arithmetic facts about the planned distribution of a non-empty population:
/// at least one room is opened, no more rooms than people, every room gets
/// between one person and the capacity `max`.
pub proof fn lemma_plan_bounds(pop: int, max: int)
    requires
        pop >= 1,
        max >= 1,
    ensures
        1 <= room_count(pop, max) <= pop,
        pop % room_count(pop, max) < room_count(pop, max),
        0 <= pop % room_count(pop, max),
        1 <= pop / room_count(pop, max),
        pop / room_count(pop, max) + 1 <= max || (pop % room_count(pop, max) == 0 && pop
            / room_count(pop, max) <= max),
        pop % room_count(pop, max) > 0 ==> pop / room_count(pop, max) + 1 <= pop,
        pop / room_count(pop, max) <= pop,
        room_count(pop, max) * (pop / room_count(pop, max)) + pop % room_count(pop, max) == pop,
        pop <= room_count(pop, max) * max,
{
    lemma_fundamental_div_mod(pop, max);
    lemma_mod_bound(pop, max);
    let q = pop / max;
    let r = pop % max;
    assert(pop == max * q + r);
    assert(0 <= r < max);
    let k = room_count(pop, max);
    // k >= 1
    if r > 0 {
        assert(q >= 0) by (nonlinear_arith)
            requires pop == max * q + r, 0 <= r < max, pop >= 1, max >= 1,
        ;
        assert(k >= 1);
    } else {
        assert(q >= 1) by (nonlinear_arith)
            requires pop == max * q + r, r == 0, pop >= 1, max >= 1,
        ;
    }
    // k <= pop
    if r > 0 {
        // r > 0 forces max >= 2, so q <= pop / 2 <= pop - 1
        assert(max >= 2) by (nonlinear_arith)
            requires pop == max * q + r, 0 < r < max, max >= 1,
        ;
        assert(q + 1 <= pop) by (nonlinear_arith)
            requires pop == max * q + r, 0 < r < max, max >= 2, pop >= 1,
        ;
    } else {
        assert(q <= pop) by (nonlinear_arith)
            requires pop == max * q, max >= 1, pop >= 1,
        ;
    }
    assert(1 <= k <= pop);
    // pop <= k * max
    if r > 0 {
        assert(pop <= (q + 1) * max) by (nonlinear_arith)
            requires pop == max * q + r, 0 <= r < max,
        ;
    } else {
        assert(pop <= q * max) by (nonlinear_arith)
            requires pop == max * q, max >= 1,
        ;
    }
    assert(pop <= k * max);
    lemma_fundamental_div_mod(pop, k);
    lemma_mod_bound(pop, k);
    let base = pop / k;
    let extra = pop % k;
    assert(pop == k * base + extra);
    assert(0 <= extra < k);
    // base >= 1 since k <= pop
    lemma_div_is_ordered(k, pop, k);
    assert(k / k == 1) by (nonlinear_arith)
        requires k >= 1,
    ;
    assert(base >= 1);
    // the planned sizes fit under the capacity
    if extra > 0 {
        assert(base + 1 <= max) by (nonlinear_arith)
            requires pop == k * base + extra, 0 < extra < k, pop <= k * max, k >= 1,
        ;
        assert(base + 1 <= pop) by (nonlinear_arith)
            requires pop == k * base + extra, 0 < extra < k, k >= 1, base >= 1,
        ;
    } else {
        assert(base <= max) by (nonlinear_arith)
            requires pop == k * base, pop <= k * max, k >= 1,
        ;
    }
    assert(base <= pop) by (nonlinear_arith)
        requires pop == k * base + extra, 0 <= extra, k >= 1, base >= 1,
    ;
}

/// The first `m` planned sizes sum to `base * m + min(extra, m)`.
proof fn lemma_plan_sum_prefix(pop: int, max: int, m: int)
    requires
        pop >= 1,
        max >= 1,
        0 <= m <= room_count(pop, max),
    ensures
        sum_of(plan_spec(pop, max).take(m)) == (pop / room_count(pop, max)) * m + if m <= pop
            % room_count(pop, max) {
            m
        } else {
            pop % room_count(pop, max)
        },
    decreases m,
{
    lemma_plan_bounds(pop, max);
    let s = plan_spec(pop, max);
    let k = room_count(pop, max);
    let base = pop / k;
    let extra = pop % k;
    if m == 0 {
        assert(s.take(0).len() == 0);
    } else {
        lemma_plan_sum_prefix(pop, max, m - 1);
        assert(s.take(m).drop_last() =~= s.take(m - 1));
        assert(s.take(m).last() == planned_size(pop, max, m - 1));
        if m - 1 < extra {
            assert(sum_of(s.take(m)) == base * (m - 1) + (m - 1) + (base + 1));
            assert(base * (m - 1) + base == base * m) by (nonlinear_arith);
        } else {
            assert(sum_of(s.take(m)) == base * (m - 1) + extra + base);
            assert(base * (m - 1) + base == base * m) by (nonlinear_arith);
        }
    }
}

/// Distribution correctness: the planned sizes sum exactly to the population,
/// any two planned sizes differ by at most one, and the plan is empty exactly
/// when the population is empty.
pub proof fn lemma_plan_distribution(pop: int, max: int)
    requires
        pop >= 0,
        max >= 1,
    ensures
        sum_of(plan_spec(pop, max)) == pop,
        forall|i: int, j: int|
            0 <= i < plan_spec(pop, max).len() && 0 <= j < plan_spec(pop, max).len()
                ==> plan_spec(pop, max)[i] - plan_spec(pop, max)[j] <= 1,
        plan_spec(pop, max).len() == 0 <==> pop == 0,
{
    if pop == 0 {
        assert(room_count(0, max) == 0);
        assert(plan_spec(0, max).len() == 0);
    } else {
        lemma_plan_bounds(pop, max);
        let k = room_count(pop, max);
        let base = pop / k;
        let extra = pop % k;
        lemma_plan_sum_prefix(pop, max, k);
        assert(plan_spec(pop, max).take(k) =~= plan_spec(pop, max));
        assert(base * k + extra == pop) by {
            assert(k * base == base * k) by (nonlinear_arith);
        }
    }
}

/// Plans the room sizes for one category: `ceil(population / max_size)` rooms,
/// the first `population % rooms` of them one larger than the rest, sorted
/// descending. Returns the empty plan for an empty population.
pub fn plan(population: usize, max_size: usize) -> (sizes: Vec<usize>)
    requires
        max_size >= 1,
    ensures
        sizes@.len() == room_count(population as int, max_size as int),
        forall|i: int|
            0 <= i < sizes@.len() ==> sizes@[i] == planned_size(
                population as int,
                max_size as int,
                i,
            ),
        population > 0 ==> sizes@.len() >= 1,
        forall|i: int| 0 <= i < sizes@.len() ==> 1 <= #[trigger] sizes@[i] <= max_size,
        forall|i: int| 0 <= i < sizes@.len() ==> #[trigger] sizes@[i] <= population,
        forall|i: int, j: int|
            0 <= i <= j < sizes@.len() ==> #[trigger] sizes@[i] >= #[trigger] sizes@[j],
{
    let mut sizes: Vec<usize> = Vec::new();
    if population == 0 {
        proof {
            lemma_div_of0(max_size as int);
            lemma_small_mod(0, max_size as nat);
        }
        return sizes;
    }
    proof {
        lemma_plan_bounds(population as int, max_size as int);
    }
    let rooms: usize = population / max_size + if population % max_size > 0 {
        1
    } else {
        0
    };
    let base: usize = population / rooms;
    let extra: usize = population % rooms;
    let mut i: usize = 0;
    while i < rooms
        invariant
            population > 0,
            max_size >= 1,
            rooms == room_count(population as int, max_size as int),
            base == population as int / rooms as int,
            extra == population as int % rooms as int,
            i <= rooms,
            sizes@.len() == i,
            forall|j: int|
                0 <= j < i ==> sizes@[j] == planned_size(population as int, max_size as int, j),
        decreases rooms - i,
    {
        if i < extra {
            sizes.push(base + 1);
        } else {
            sizes.push(base);
        }
        i = i + 1;
    }
    sizes
}

} // verus!
