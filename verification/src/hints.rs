//! Pair-affinity hints: derived from the incumbent best assignment, they
//! record which mutual pairs ended up co-located, and bias later candidate
//! constructions toward rebuilding those pairings. A snapshot is consumed
//! read-only by constructions and replaced wholesale when regenerated.

use vstd::prelude::*;
use crate::roster::Roster;
use crate::solution::{IxRoom, contains_ix, sol_wf};

verus! {

/// True when `a` and `b` are seated together in some room of `sol`.
pub open spec fn co_located(sol: Seq<IxRoom>, a: usize, b: usize) -> bool {
    exists|r: int|
        0 <= r < sol.len() && (#[trigger] sol[r]).members@.contains(a) && sol[r].members@.contains(
            b,
        )
}

/// The weight a cell of the hint matrix must carry: row `a`, column `b`
/// holds 1 exactly when `a < b`, the two are a mutual pair, and the
/// reference assignment seats them together.
pub open spec fn cell_spec(ro: Roster, sol: Seq<IxRoom>, a: int, b: int) -> int {
    if a < b && ro.mutual(a, b) && co_located(sol, a as usize, b as usize) {
        1int
    } else {
        0int
    }
}

/// The hint map: a square matrix whose upper triangle carries the weight of
/// each canonical (ordered low-high) pair.
pub struct PairHints {
    pub weight: Vec<Vec<i64>>,
}

impl PairHints {
    /// A square `n` by `n` matrix of small non-negative weights.
    pub open spec fn wf(self, n: int) -> bool {
        &&& self.weight@.len() == n
        &&& forall|a: int| 0 <= a < n ==> (#[trigger] self.weight@[a])@.len() == n
        &&& forall|a: int, b: int|
            0 <= a < n && 0 <= b < n ==> 0 <= (#[trigger] self.weight@[a]@[b]) <= 1
    }

    /// The weight of the unordered pair `{a, b}`, read from its canonical
    /// cell.
    pub open spec fn hint_of(self, a: int, b: int) -> int {
        if a <= b {
            self.weight@[a]@[b] as int
        } else {
            self.weight@[b]@[a] as int
        }
    }

    /// The empty hint map: weight zero for every pair.
    pub fn empty(n: usize) -> (h: PairHints)
        ensures
            h.wf(n as int),
            forall|a: int, b: int| 0 <= a < n && 0 <= b < n ==> h.hint_of(a, b) == 0,
    {
        let mut weight: Vec<Vec<i64>> = Vec::new();
        let mut a: usize = 0;
        while a < n
            invariant
                a <= n,
                weight@.len() == a,
                forall|x: int| 0 <= x < a ==> (#[trigger] weight@[x])@.len() == n,
                forall|x: int, y: int|
                    0 <= x < a && 0 <= y < n ==> (#[trigger] weight@[x]@[y]) == 0,
            decreases n - a,
        {
            let mut row: Vec<i64> = Vec::new();
            let mut b: usize = 0;
            while b < n
                invariant
                    b <= n,
                    row@.len() == b,
                    forall|y: int| 0 <= y < b ==> (#[trigger] row@[y]) == 0,
                decreases n - b,
            {
                row.push(0);
                b = b + 1;
            }
            weight.push(row);
            a = a + 1;
        }
        PairHints { weight }
    }

    /// Looks up the weight of the unordered pair `{a, b}`.
    pub fn get(&self, a: usize, b: usize) -> (w: i64)
        requires
            self.wf(self.weight@.len() as int),
            (a as int) < self.weight@.len(),
            (b as int) < self.weight@.len(),
        ensures
            w as int == self.hint_of(a as int, b as int),
    {
        if a <= b {
            self.weight[a][b]
        } else {
            self.weight[b][a]
        }
    }
}

/// Whether `a` and `b` form a mutual pair of the same category.
pub fn is_mutual(ro: &Roster, a: usize, b: usize) -> (r: bool)
    requires
        ro.wf(),
        (a as int) < ro.n(),
        (b as int) < ro.n(),
    ensures
        r == ro.mutual(a as int, b as int),
{
    contains_ix(&ro.choices_ix[a], b) && contains_ix(&ro.choices_ix[b], a)
        && ro.category_of[a] == ro.category_of[b]
}

/// Whether some room of `sol` seats both `a` and `b`.
pub fn same_room(sol: &Vec<IxRoom>, a: usize, b: usize) -> (r: bool)
    ensures
        r == co_located(sol@, a, b),
{
    let mut i: usize = 0;
    while i < sol.len()
        invariant
            i <= sol@.len(),
            forall|r: int|
                0 <= r < i ==> !((#[trigger] sol@[r]).members@.contains(a)
                    && sol@[r].members@.contains(b)),
        decreases sol@.len() - i,
    {
        if contains_ix(&sol[i].members, a) && contains_ix(&sol[i].members, b) {
            return true;
        }
        i = i + 1;
    }
    false
}

/// Derives the hint map from a reference assignment: the canonical pair
/// `{a, b}` gets weight 1 when `a` and `b` list each other and are seated in
/// the same room, and weight 0 otherwise. In a feasible assignment every
/// person is seated exactly once, so this weight is exactly the number of
/// rooms in which the mutual pair succeeded.
pub fn extract_pair_hints(ro: &Roster, sol: &Vec<IxRoom>) -> (h: PairHints)
    requires
        ro.wf(),
        sol_wf(sol@, *ro),
    ensures
        h.wf(ro.n()),
        forall|a: int, b: int|
            0 <= a < ro.n() && 0 <= b < ro.n() ==> #[trigger] h.weight@[a]@[b] == cell_spec(
                *ro,
                sol@,
                a,
                b,
            ),
        forall|a: int, b: int|
            0 <= a < b < ro.n() ==> #[trigger] h.hint_of(a, b) == cell_spec(*ro, sol@, a, b),
{
    let n = ro.people.len();
    let mut weight: Vec<Vec<i64>> = Vec::new();
    let mut a: usize = 0;
    while a < n
        invariant
            ro.wf(),
            sol_wf(sol@, *ro),
            n == ro.n(),
            a <= n,
            weight@.len() == a,
            forall|x: int| 0 <= x < a ==> (#[trigger] weight@[x])@.len() == n,
            forall|x: int, y: int|
                0 <= x < a && 0 <= y < n ==> (#[trigger] weight@[x]@[y]) == cell_spec(
                    *ro,
                    sol@,
                    x,
                    y,
                ),
        decreases n - a,
    {
        let mut row: Vec<i64> = Vec::new();
        let mut b: usize = 0;
        while b < n
            invariant
                ro.wf(),
                sol_wf(sol@, *ro),
                n == ro.n(),
                a < n,
                b <= n,
                row@.len() == b,
                forall|y: int|
                    0 <= y < b ==> (#[trigger] row@[y]) == cell_spec(*ro, sol@, a as int, y),
            decreases n - b,
        {
            let w: i64 = if b > a && is_mutual(ro, a, b) && same_room(sol, a, b) {
                1
            } else {
                0
            };
            row.push(w);
            b = b + 1;
        }
        weight.push(row);
        a = a + 1;
    }
    PairHints { weight }
}

} // verus!
