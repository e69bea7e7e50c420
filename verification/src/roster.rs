//! The indexed roster: a validated snapshot of the population in which
//! categories, choices and avoid-constraints are resolved to person indices
//! once, so the search's hot loops never look anyone up by name.

use vstd::prelude::*;
use crate::types::{Person, SolveError, MAX_POPULATION};

verus! {

/// True when the string list `l` holds an entry whose characters equal `nm`.
pub open spec fn has_string(l: Seq<String>, nm: Seq<char>) -> bool {
    exists|k: int| 0 <= k < l.len() && l[k]@ == nm
}

/// True when two input records share a name.
pub open spec fn has_duplicate_name(people: Seq<Person>) -> bool {
    exists|p: int, q: int| 0 <= p < q < people.len() && people[p].name@ == people[q].name@
}

/// Number of people among the first `k` whose category index is `c`.
pub open spec fn cat_pop_upto(category_of: Seq<usize>, c: usize, k: int) -> int
    decreases k,
{
    if k <= 0 {
        0
    } else {
        cat_pop_upto(category_of, c, k - 1) + if category_of[k - 1] == c {
            1int
        } else {
            0int
        }
    }
}

/// Some entry of `l` equals `c`.
pub open spec fn attains(l: Seq<usize>, c: int) -> bool {
    exists|i: int| 0 <= i < l.len() && ((#[trigger] l[i]) as int) == c
}

/// A well-formed index list: strictly ascending person indices below `n`.
pub open spec fn ix_list_wf(l: Seq<usize>, n: int) -> bool {
    &&& l.len() <= n
    &&& forall|i: int| 0 <= i < l.len() ==> ((#[trigger] l[i]) as int) < n
    &&& forall|i: int, j: int| 0 <= i < j < l.len() ==> l[i] < l[j]
}

/// The validated population. `people` is the input as given; the remaining
/// fields resolve every name to an index. For person `p`: `category_of[p]`
/// indexes `category_names`; `choices_ix[p]` and `avoids_ix[p]` are the
/// indices of the existing people named in `choices` / `avoids`;
/// `has_choices[p]` records whether the original choice list was non-empty
/// (a person whose choices name nobody in the roster still has choices).
pub struct Roster {
    pub people: Vec<Person>,
    pub category_names: Vec<String>,
    pub category_of: Vec<usize>,
    pub choices_ix: Vec<Vec<usize>>,
    pub avoids_ix: Vec<Vec<usize>>,
    pub has_choices: Vec<bool>,
}

impl Roster {
    /// Population size.
    pub open spec fn n(self) -> int {
        self.people@.len() as int
    }

    /// Number of distinct categories.
    pub open spec fn ncats(self) -> int {
        self.category_names@.len() as int
    }

    /// Person `p` lists person `q` among their choices.
    pub open spec fn chooses(self, p: int, q: int) -> bool {
        self.choices_ix@[p]@.contains(q as usize)
    }

    /// Person `p` lists person `q` among their avoids.
    pub open spec fn avoids_ix_of(self, p: int, q: int) -> bool {
        self.avoids_ix@[p]@.contains(q as usize)
    }

    /// The placement of `q` beside `p` is blocked by either party's avoids.
    pub open spec fn blocked(self, p: int, q: int) -> bool {
        self.avoids_ix_of(p, q) || self.avoids_ix_of(q, p)
    }

    /// `p` and `q` share a category.
    pub open spec fn same_category(self, p: int, q: int) -> bool {
        self.category_of@[p] == self.category_of@[q]
    }

    /// `p` and `q` are a mutual pair of the same category.
    pub open spec fn mutual(self, p: int, q: int) -> bool {
        self.chooses(p, q) && self.chooses(q, p) && self.same_category(p, q)
    }

    /// The population of category `c`.
    pub open spec fn category_population(self, c: int) -> int {
        cat_pop_upto(self.category_of@, c as usize, self.n())
    }

    /// Somebody belongs to category `c`.
    pub open spec fn category_attained(self, c: int) -> bool {
        attains(self.category_of@, c)
    }

    /// Well-formedness: all index structures sized to the population, indices
    /// in range, names and categories distinct, and every index list agreeing
    /// with the names written in the input records.
    pub open spec fn wf(self) -> bool {
        &&& self.n() <= MAX_POPULATION as int
        &&& self.category_of@.len() == self.n()
        &&& self.choices_ix@.len() == self.n()
        &&& self.avoids_ix@.len() == self.n()
        &&& self.has_choices@.len() == self.n()
        &&& self.ncats() <= self.n()
        &&& forall|p: int|
            0 <= p < self.n() ==> ((#[trigger] self.category_of@[p]) as int) < self.ncats()
        &&& forall|p: int|
            0 <= p < self.n() ==> ix_list_wf((#[trigger] self.choices_ix@[p])@, self.n())
        &&& forall|p: int|
            0 <= p < self.n() ==> ix_list_wf((#[trigger] self.avoids_ix@[p])@, self.n())
        &&& forall|p: int, q: int|
            0 <= p < q < self.n() ==> self.people@[p].name@ != self.people@[q].name@
        &&& forall|c: int, d: int|
            0 <= c < d < self.ncats() ==> self.category_names@[c]@ != self.category_names@[d]@
        &&& forall|p: int|
            0 <= p < self.n() ==> self.category_names@[(#[trigger] self.category_of@[p]) as int]@
                == self.people@[p].category@
        &&& forall|p: int|
            0 <= p < self.n() ==> ((#[trigger] self.has_choices@[p]) <==> self.people@[p].choices@.len()
                > 0)
        &&& forall|p: int, j: int|
            0 <= p < self.n() && 0 <= j < self.n() ==> ((#[trigger] self.choices_ix@[p]@.contains(
                j as usize)) <==> has_string(self.people@[p].choices@, self.people@[j].name@))
        &&& forall|p: int, j: int|
            0 <= p < self.n() && 0 <= j < self.n() ==> ((#[trigger] self.avoids_ix@[p]@.contains(
                j as usize)) <==> has_string(self.people@[p].avoids@, self.people@[j].name@))
        &&& forall|c: int| 0 <= c < self.ncats() ==> #[trigger] self.category_attained(c)
    }
}

/// True when `l` holds a string equal to `s`.
fn string_list_has(l: &Vec<String>, s: &String) -> (r: bool)
    ensures
        r == has_string(l@, s@),
{
    let mut k: usize = 0;
    while k < l.len()
        invariant
            k <= l@.len(),
            forall|i: int| 0 <= i < k ==> l@[i]@ != s@,
        decreases l@.len() - k,
    {
        if l[k].eq(s) {
            return true;
        }
        k = k + 1;
    }
    false
}

/// Finds the index of a string equal to `s` in `l`, if any.
fn find_string(l: &Vec<String>, s: &String) -> (r: Option<usize>)
    ensures
        match r {
            Some(i) => i < l@.len() && l@[i as int]@ == s@,
            None => !has_string(l@, s@),
        },
{
    let mut k: usize = 0;
    while k < l.len()
        invariant
            k <= l@.len(),
            forall|i: int| 0 <= i < k ==> l@[i]@ != s@,
        decreases l@.len() - k,
    {
        if l[k].eq(s) {
            return Some(k);
        }
        k = k + 1;
    }
    None
}

/// True when two records of `people` share a name.
fn check_duplicates(people: &Vec<Person>) -> (dup: bool)
    ensures
        dup == has_duplicate_name(people@),
{
    let mut p: usize = 0;
    while p < people.len()
        invariant
            p <= people@.len(),
            forall|a: int, b: int|
                0 <= a < b < people@.len() && a < p ==> people@[a].name@ != people@[b].name@,
        decreases people@.len() - p,
    {
        let mut q: usize = p + 1;
        while q < people.len()
            invariant
                p < people@.len(),
                p < q <= people@.len(),
                forall|b: int| p < b < q ==> people@[p as int].name@ != people@[b].name@,
            decreases people@.len() - q,
        {
            if people[p].name.eq(&people[q].name) {
                return true;
            }
            q = q + 1;
        }
        p = p + 1;
    }
    false
}

/// `s.push(v)` holds `x` exactly when `s` holds `x` or `x` is `v`.
pub proof fn lemma_push_contains(s: Seq<usize>, v: usize, x: usize)
    ensures
        s.push(v).contains(x) <==> (s.contains(x) || x == v),
{
    assert(s.push(v)[s.len() as int] == v);
    if s.contains(x) {
        let k = choose|k: int| 0 <= k < s.len() && s[k] == x;
        assert(s.push(v)[k] == x);
    }
    if s.push(v).contains(x) {
        let k = choose|k: int| 0 <= k < s.push(v).len() && s.push(v)[k] == x;
        if k < s.len() {
            assert(s[k] == x);
        }
    }
}

/// Resolves the names listed in `lists[p]` (for the person at `p`) to the
/// strictly ascending list of indices of roster people so named.
fn resolve_one(people: &Vec<Person>, list: &Vec<String>) -> (r: Vec<usize>)
    ensures
        ix_list_wf(r@, people@.len() as int),
        forall|j: int|
            0 <= j < people@.len() ==> (r@.contains(j as usize) <==> has_string(
                list@,
                people@[j].name@,
            )),
{
    let n = people.len();
    let mut r: Vec<usize> = Vec::new();
    let mut j: usize = 0;
    while j < n
        invariant
            n == people@.len(),
            j <= n,
            r@.len() <= j,
            forall|i: int| 0 <= i < r@.len() ==> ((#[trigger] r@[i]) as int) < j,
            forall|a: int, b: int| 0 <= a < b < r@.len() ==> r@[a] < r@[b],
            forall|jj: int|
                0 <= jj < j ==> (r@.contains(jj as usize) <==> has_string(
                    list@,
                    people@[jj].name@,
                )),
        decreases n - j,
    {
        let ghost old_r = r@;
        if string_list_has(list, &people[j].name) {
            r.push(j);
        }
        proof {
            assert forall|jj: int| 0 <= jj < j + 1 implies (r@.contains(jj as usize)
                <==> has_string(list@, people@[jj].name@)) by {
                lemma_push_contains(old_r, j, jj as usize);
                if old_r.contains(jj as usize) {
                    assert(r@.contains(jj as usize) ==> (old_r.contains(jj as usize) || jj == j))
                        by {
                        lemma_push_contains(old_r, j, jj as usize);
                    }
                }
            }
        }
        j = j + 1;
    }
    r
}

/// Validates the input and builds the indexed roster.
///
/// Rejects a population over `MAX_POPULATION` and duplicate names (with
/// duplicates, name lookups would be ambiguous); otherwise returns the
/// well-formed roster holding the records unchanged.
pub fn index_people(people: Vec<Person>) -> (r: Result<Roster, SolveError>)
    ensures
        match r {
            Ok(ro) => {
                &&& ro.wf()
                &&& ro.people@ == people@
                &&& people@.len() <= MAX_POPULATION
                &&& !has_duplicate_name(people@)
            },
            Err(e) => match e {
                SolveError::TooManyPeople => people@.len() > MAX_POPULATION,
                SolveError::DuplicateName => people@.len() <= MAX_POPULATION
                    && has_duplicate_name(people@),
                _ => false,
            },
        },
{
    let n = people.len();
    if n > MAX_POPULATION {
        return Err(SolveError::TooManyPeople);
    }
    if check_duplicates(&people) {
        return Err(SolveError::DuplicateName);
    }
    // categories, in order of first appearance
    let mut category_names: Vec<String> = Vec::new();
    let mut category_of: Vec<usize> = Vec::new();
    let mut p: usize = 0;
    while p < n
        invariant
            n == people@.len(),
            p <= n,
            category_of@.len() == p,
            category_names@.len() <= p,
            forall|i: int|
                0 <= i < p ==> ((#[trigger] category_of@[i]) as int) < category_names@.len(),
            forall|c: int, d: int|
                0 <= c < d < category_names@.len() ==> category_names@[c]@ != category_names@[d]@,
            forall|i: int|
                0 <= i < p ==> category_names@[(#[trigger] category_of@[i]) as int]@
                    == people@[i].category@,
            forall|c: int|
                0 <= c < category_names@.len() ==> #[trigger] attains(category_of@, c),
        decreases n - p,
    {
        let ghost old_names = category_names@;
        let ghost old_of = category_of@;
        match find_string(&category_names, &people[p].category) {
            Some(c) => {
                category_of.push(c);
            },
            None => {
                let c = category_names.len();
                category_names.push(people[p].category.clone());
                category_of.push(c);
            },
        }
        proof {
            assert forall|c: int|
                0 <= c < category_names@.len() implies #[trigger] attains(category_of@, c) by {
                if c < old_names.len() {
                    assert(attains(old_of, c));
                    let i = choose|i: int|
                        0 <= i < old_of.len() && ((#[trigger] old_of[i]) as int) == c;
                    assert(((category_of@[i]) as int) == c);
                } else {
                    assert(((category_of@[p as int]) as int) == c);
                }
            }
        }
        p = p + 1;
    }
    // per-person index lists
    let mut choices_ix: Vec<Vec<usize>> = Vec::new();
    let mut avoids_ix: Vec<Vec<usize>> = Vec::new();
    let mut has_choices: Vec<bool> = Vec::new();
    let mut p: usize = 0;
    while p < n
        invariant
            n == people@.len(),
            n <= MAX_POPULATION,
            p <= n,
            choices_ix@.len() == p,
            avoids_ix@.len() == p,
            has_choices@.len() == p,
            forall|i: int| 0 <= i < p ==> ix_list_wf((#[trigger] choices_ix@[i])@, n as int),
            forall|i: int| 0 <= i < p ==> ix_list_wf((#[trigger] avoids_ix@[i])@, n as int),
            forall|i: int|
                0 <= i < p ==> ((#[trigger] has_choices@[i]) <==> people@[i].choices@.len() > 0),
            forall|i: int, j: int|
                0 <= i < p && 0 <= j < n ==> ((#[trigger] choices_ix@[i]@.contains(j as usize))
                    <==> has_string(people@[i].choices@, people@[j].name@)),
            forall|i: int, j: int|
                0 <= i < p && 0 <= j < n ==> ((#[trigger] avoids_ix@[i]@.contains(j as usize))
                    <==> has_string(people@[i].avoids@, people@[j].name@)),
        decreases n - p,
    {
        let ch = resolve_one(&people, &people[p].choices);
        let av = resolve_one(&people, &people[p].avoids);
        choices_ix.push(ch);
        avoids_ix.push(av);
        has_choices.push(people[p].choices.len() > 0);
        p = p + 1;
    }
    Ok(
        Roster {
            people,
            category_names,
            category_of,
            choices_ix,
            avoids_ix,
            has_choices,
        },
    )
}

} // verus!
