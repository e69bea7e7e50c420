//! The parallel search driver: partitions the iteration budget into chunks,
//! runs every iteration of a chunk as an independent seeded construction on
//! the worker pool, keeps the best-scoring feasible candidate ever seen,
//! refreshes the pair-affinity hints from the incumbent at a fixed cadence,
//! and reports progress and improvements to an observer.

use vstd::prelude::*;
use rayon::iter::IntoParallelIterator;
use rayon::iter::ParallelIterator;
use crate::roster::Roster;
use crate::solution::{IxRoom, complete_wf};
use crate::scoring::{Stats, stats_match, evaluate};
use crate::hints::PairHints;
use crate::construct::{construct, frame_wf, plans_cover, plans_wf, unconstrained};
use crate::types::MAX_POPULATION;

verus! {

/// Iterations per chunk: the driver reports progress and reconsiders the
/// incumbent between chunks.
pub const CHUNK_SIZE: usize = 1000;

/// Every this many chunks, the hint map is regenerated from the incumbent.
pub const HINT_REFRESH_INTERVAL: usize = 20;

/// The observer the search reports to. Both calls are fire-and-forget:
/// the search promises nothing about them and ignores their effects.
pub trait ProgressSink {
    /// Called at every chunk boundary with the percentage of the budget
    /// completed so far, between 0 and 100.
    fn on_progress(&mut self, percent: u32);

    /// Called whenever a new incumbent is adopted, with its measures.
    fn on_improved(&mut self, choice_score: i64, without_choices: u64, imbalance: u64, total: i64);
}

/// An observer that ignores every report.
pub struct SilentSink {}

impl ProgressSink for SilentSink {
    fn on_progress(&mut self, percent: u32) {
    }

    fn on_improved(&mut self, choice_score: i64, without_choices: u64, imbalance: u64, total: i64) {
    }
}

/// The number of mutual friends person `p` has among their first `k`
/// choices.
pub open spec fn mutual_upto(ro: Roster, p: int, k: int) -> int
    decreases k,
{
    if k <= 0 {
        0
    } else {
        mutual_upto(ro, p, k - 1) + if ro.mutual(p, ro.choices_ix@[p][k - 1] as int) {
            1int
        } else {
            0int
        }
    }
}

/// The number of mutual friends of person `p`.
pub open spec fn mutual_count_spec(ro: Roster, p: int) -> int {
    mutual_upto(ro, p, ro.choices_ix@[p]@.len() as int)
}

/// Precomputes every person's mutual-friend count, once per solve.
pub fn compute_mutual_counts(ro: &Roster) -> (mc: Vec<usize>)
    requires
        ro.wf(),
    ensures
        mc@.len() == ro.n(),
        forall|p: int| 0 <= p < ro.n() ==> (#[trigger] mc@[p]) == mutual_count_spec(*ro, p),
        forall|p: int| 0 <= p < ro.n() ==> (#[trigger] mc@[p]) <= MAX_POPULATION,
{
    let n = ro.people.len();
    let mut mc: Vec<usize> = Vec::new();
    let mut p: usize = 0;
    while p < n
        invariant
            ro.wf(),
            n == ro.n(),
            p <= n,
            mc@.len() == p,
            forall|q: int| 0 <= q < p ==> (#[trigger] mc@[q]) == mutual_count_spec(*ro, q),
            forall|q: int| 0 <= q < p ==> (#[trigger] mc@[q]) <= MAX_POPULATION,
        decreases n - p,
    {
        let choices = &ro.choices_ix[p];
        let mut cnt: usize = 0;
        let mut k: usize = 0;
        while k < choices.len()
            invariant
                ro.wf(),
                n == ro.n(),
                (p as int) < n as int,
                choices@ == ro.choices_ix@[p as int]@,
                k <= choices@.len(),
                cnt <= k,
                cnt == mutual_upto(*ro, p as int, k as int),
            decreases choices@.len() - k,
        {
            let c = choices[k];
            if crate::hints::is_mutual(ro, p, c) {
                cnt = cnt + 1;
            }
            k = k + 1;
        }
        mc.push(cnt);
        p = p + 1;
    }
    mc
}

/// Relies on rayon's parallel range iterator: runs `construct` once per
/// iteration index in `start..end` (the index as seed), drops infeasible
/// outcomes, evaluates each feasible candidate, and reduces to one with the
/// greatest composite score. Which of several equally scored candidates wins
/// is up to the parallel reduction; every returned candidate is one that
/// `construct` built and `evaluate` measured, so its feasibility and its
/// stats follow from their contracts. The success clause follows the same
/// way: when nothing is avoid-constrained and the plans cover every
/// population, `construct` guarantees `Some` for every seed, the range is
/// non-empty, and `max_by_key` of a non-empty iterator is `Some`.
#[verifier::external_body]
fn run_chunk(
    ro: &Roster,
    plans: &Vec<Vec<usize>>,
    mutual_counts: &Vec<usize>,
    hints: &PairHints,
    start: usize,
    end: usize,
) -> (r: Option<(Vec<IxRoom>, Stats)>)
    requires
        ro.wf(),
        plans_wf(plans@, *ro),
        mutual_counts@.len() == ro.n(),
        forall|i: int| 0 <= i < ro.n() ==> (#[trigger] mutual_counts@[i]) <= MAX_POPULATION,
        hints.wf(ro.n()),
    ensures
        match r {
            Some((sol, st)) => complete_wf(sol@, *ro) && frame_wf(sol@, plans@, *ro)
                && stats_match(*ro, sol@, st),
            None => true,
        },
        start < end && unconstrained(*ro) && plans_cover(plans@, *ro) ==> r is Some,
{
    (start..end)
        .into_par_iter()
        .filter_map(|it| construct(ro, plans, mutual_counts, hints, it as u64))
        .map(|sol| {
            let st = evaluate(ro, &sol);
            (sol, st)
        })
        .max_by_key(|pair| pair.1.total)
}

/// Runs the whole search: `iteration_budget` independent seeded
/// constructions in chunks of `CHUNK_SIZE`, in parallel within each chunk.
/// Between chunks it reports progress, refreshes the hint map from the
/// incumbent every `HINT_REFRESH_INTERVAL` chunks, and adopts a chunk's best
/// candidate whenever its composite score strictly exceeds the incumbent's.
///
/// Returns the best feasible assignment found with its measures, or `None`
/// when no iteration produced a feasible assignment — in particular,
/// always `None` for a zero budget, without constructing anything. With a
/// positive budget, no avoid constraints anywhere and plans covering every
/// category's population, a feasible assignment is guaranteed to be found.
pub fn search<S: ProgressSink>(
    ro: &Roster,
    plans: &Vec<Vec<usize>>,
    iteration_budget: usize,
    sink: &mut S,
) -> (r: Option<(Vec<IxRoom>, Stats)>)
    requires
        ro.wf(),
        plans_wf(plans@, *ro),
    ensures
        iteration_budget == 0 ==> r is None,
        iteration_budget >= 1 && unconstrained(*ro) && plans_cover(plans@, *ro) ==> r is Some,
        match r {
            Some((sol, st)) => complete_wf(sol@, *ro) && frame_wf(sol@, plans@, *ro)
                && stats_match(*ro, sol@, st),
            None => true,
        },
{
    let n = ro.people.len();
    let mutual_counts = compute_mutual_counts(ro);
    let num_chunks = iteration_budget / CHUNK_SIZE + if iteration_budget % CHUNK_SIZE > 0 {
        1
    } else {
        0
    };
    proof {
        if iteration_budget == 0 {
            vstd::arithmetic::div_mod::lemma_div_of0(CHUNK_SIZE as int);
            vstd::arithmetic::div_mod::lemma_small_mod(0, CHUNK_SIZE as nat);
        }
    }
    let mut best: Option<(Vec<IxRoom>, Stats)> = None;
    let mut hints = PairHints::empty(n);
    let mut start: usize = 0;
    let mut chunk_idx: usize = 0;
    while chunk_idx < num_chunks
        invariant
            ro.wf(),
            plans_wf(plans@, *ro),
            n == ro.n(),
            mutual_counts@.len() == ro.n(),
            forall|i: int| 0 <= i < ro.n() ==> (#[trigger] mutual_counts@[i]) <= MAX_POPULATION,
            hints.wf(ro.n()),
            chunk_idx <= num_chunks,
            num_chunks > 0 ==> iteration_budget > 0,
            iteration_budget == 0 ==> best is None,
            chunk_idx == 0 ==> start == 0 && best is None,
            chunk_idx >= 1 && unconstrained(*ro) && plans_cover(plans@, *ro) ==> best is Some,
            start <= iteration_budget,
            match best {
                Some((sol, st)) => complete_wf(sol@, *ro) && frame_wf(sol@, plans@, *ro)
                    && stats_match(*ro, sol@, st),
                None => true,
            },
        decreases num_chunks - chunk_idx,
    {
        let end = if iteration_budget - start > CHUNK_SIZE {
            start + CHUNK_SIZE
        } else {
            iteration_budget
        };
        let percent_wide: u128 = (start as u128) * 100 / (iteration_budget as u128);
        proof {
            vstd::arithmetic::div_mod::lemma_fundamental_div_mod(
                (start as int) * 100,
                iteration_budget as int,
            );
            assert((start as int) * 100 / (iteration_budget as int) <= 100) by (nonlinear_arith)
                requires
                    1 <= iteration_budget as int,
                    0 <= start as int <= iteration_budget as int,
                    (iteration_budget as int) * ((start as int) * 100 / (iteration_budget as int))
                        + ((start as int) * 100) % (iteration_budget as int) == (start as int)
                        * 100,
                    0 <= ((start as int) * 100) % (iteration_budget as int),
            ;
        }
        sink.on_progress(percent_wide as u32);
        if chunk_idx > 0 && chunk_idx % HINT_REFRESH_INTERVAL == 0 {
            hints = match &best {
                Some((b, _)) => crate::hints::extract_pair_hints(ro, b),
                None => PairHints::empty(n),
            };
        }
        let chunk_result = run_chunk(ro, plans, &mutual_counts, &hints, start, end);
        if let Some((sol, st)) = chunk_result {
            let better = match &best {
                Some((_, bst)) => st.total > bst.total,
                None => true,
            };
            if better {
                sink.on_improved(st.choice_score, st.without_choices, st.imbalance, st.total);
                best = Some((sol, st));
            }
        }
        start = end;
        chunk_idx = chunk_idx + 1;
    }
    best
}

} // verus!
