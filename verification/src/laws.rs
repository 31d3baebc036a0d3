//! Properties of the greedy cover algorithm, proved once and for all over
//! the spec model. The executable solver's contract pins its result to
//! [`crate::model::greedy`], so each law here holds of every solver run.

use vstd::prelude::*;

use crate::model::{covered_by_chosen, greedy, lemma_pick_best, lemma_remove_nonempty_subset,
    pick_best};

verus! {

/// The problems left unsolved are always a subset of the targets asked for.
pub proof fn lemma_unsolved_subset_of_targets(catalog: Seq<(u32, Set<u32>)>, targets: Set<u32>)
    requires
        targets.finite(),
    ensures
        greedy(catalog, targets).1.subset_of(targets),
    decreases targets.len(),
{
    if targets.is_empty() {
    } else {
        let best = pick_best(catalog, targets);
        if best.1.is_empty() {
        } else {
            lemma_pick_best(catalog, targets);
            lemma_remove_nonempty_subset(targets, best.1);
            lemma_unsolved_subset_of_targets(catalog, targets.difference(best.1));
        }
    }
}

/// Nothing the catalog offers covers any problem left unsolved: every
/// entry's covered set is disjoint from the unsolved set at termination.
pub proof fn lemma_unsolved_uncoverable(catalog: Seq<(u32, Set<u32>)>, targets: Set<u32>)
    requires
        targets.finite(),
    ensures
        forall|i: int| 0 <= i < catalog.len() ==> (#[trigger] catalog[i]).1.intersect(
            greedy(catalog, targets).1,
        ).is_empty(),
    decreases targets.len(),
{
    if targets.is_empty() {
        assert forall|i: int| 0 <= i < catalog.len() implies (#[trigger] catalog[i]).1.intersect(
            greedy(catalog, targets).1,
        ).is_empty() by {
            assert(catalog[i].1.intersect(Set::<u32>::empty()) =~= Set::<u32>::empty());
        }
    } else {
        let best = pick_best(catalog, targets);
        lemma_pick_best(catalog, targets);
        if best.1.is_empty() {
            assert forall|i: int| 0 <= i < catalog.len() implies (#[trigger] catalog[i]).1.intersect(
                greedy(catalog, targets).1,
            ).is_empty() by {
                let gain = targets.intersect(catalog[i].1);
                assert(best.1.len() == 0) by {
                    assert(best.1 =~= Set::<u32>::empty());
                }
                assert(gain.len() <= best.1.len());
                assert(gain.subset_of(targets));
                vstd::set_lib::lemma_len_subset(gain, targets);
                gain.lemma_len0_is_empty();
                assert(catalog[i].1.intersect(targets) =~= targets.intersect(catalog[i].1));
            }
        } else {
            lemma_remove_nonempty_subset(targets, best.1);
            lemma_unsolved_uncoverable(catalog, targets.difference(best.1));
        }
    }
}

/// Every chosen solution pulled its weight: some catalog entry carrying its
/// identifier covers at least one target that ended up solved, so no
/// solution is ever chosen with zero marginal coverage.
pub proof fn lemma_chosen_contribute(catalog: Seq<(u32, Set<u32>)>, targets: Set<u32>)
    requires
        targets.finite(),
    ensures
        forall|s: u32| #[trigger] greedy(catalog, targets).0.contains(s) ==> exists|i: int|
            0 <= i < catalog.len() && (#[trigger] catalog[i]).0 == s && !catalog[i].1.intersect(
                targets.difference(greedy(catalog, targets).1),
            ).is_empty(),
    decreases targets.len(),
{
    if targets.is_empty() {
    } else {
        let best = pick_best(catalog, targets);
        if best.1.is_empty() {
        } else {
            lemma_pick_best(catalog, targets);
            lemma_remove_nonempty_subset(targets, best.1);
            let shrunk = targets.difference(best.1);
            lemma_chosen_contribute(catalog, shrunk);
            lemma_unsolved_subset_of_targets(catalog, shrunk);
            let unsolved = greedy(catalog, targets).1;
            assert(greedy(catalog, shrunk).1 == unsolved);
            let solved = targets.difference(unsolved);
            assert(shrunk.difference(unsolved).subset_of(solved));
            assert forall|s: u32| #[trigger] greedy(catalog, targets).0.contains(s) implies exists|
                i: int,
            |
                0 <= i < catalog.len() && (#[trigger] catalog[i]).0 == s
                    && !catalog[i].1.intersect(solved).is_empty() by {
                if s == best.0 {
                    let i = choose|i: int|
                        0 <= i < catalog.len() && (#[trigger] catalog[i]).0 == best.0 && best.1
                            == targets.intersect(catalog[i].1);
                    assert(exists|x: u32| best.1.contains(x)) by {
                        if forall|x: u32| !best.1.contains(x) {
                            assert(best.1 =~= Set::<u32>::empty());
                        }
                    }
                    let x = choose|x: u32| best.1.contains(x);
                    assert(!unsolved.contains(x));
                    assert(catalog[i].1.intersect(solved).contains(x));
                } else {
                    assert(greedy(catalog, shrunk).0.contains(s));
                    let i = choose|i: int|
                        0 <= i < catalog.len() && (#[trigger] catalog[i]).0 == s
                            && !catalog[i].1.intersect(shrunk.difference(unsolved)).is_empty();
                    let small = catalog[i].1.intersect(shrunk.difference(unsolved));
                    assert(exists|x: u32| small.contains(x)) by {
                        if forall|x: u32| !small.contains(x) {
                            assert(small =~= Set::<u32>::empty());
                        }
                    }
                    let x = choose|x: u32| small.contains(x);
                    assert(catalog[i].1.intersect(solved).contains(x));
                    assert(!catalog[i].1.intersect(solved).is_empty());
                }
            }
        }
    }
}

/// Together the chosen solutions cover, within the targets, exactly those
/// targets that did not end up unsolved.
pub proof fn lemma_chosen_cover_exactly(catalog: Seq<(u32, Set<u32>)>, targets: Set<u32>)
    requires
        targets.finite(),
    ensures
        covered_by_chosen(catalog, greedy(catalog, targets).0).intersect(targets)
            == targets.difference(greedy(catalog, targets).1),
    decreases targets.len(),
{
    let chosen = greedy(catalog, targets).0;
    let unsolved = greedy(catalog, targets).1;
    lemma_unsolved_uncoverable(catalog, targets);
    if targets.is_empty() {
        assert(covered_by_chosen(catalog, chosen).intersect(targets) =~= targets.difference(
            unsolved,
        ));
    } else {
        let best = pick_best(catalog, targets);
        lemma_pick_best(catalog, targets);
        if best.1.is_empty() {
            assert(unsolved == targets);
            assert forall|p: u32| !(covered_by_chosen(catalog, chosen).intersect(
                targets,
            ).contains(p)) by {
                if chosen.contains(p) {
                    assert(chosen =~= Set::<u32>::empty());
                }
            }
            assert(covered_by_chosen(catalog, chosen).intersect(targets) =~= targets.difference(
                unsolved,
            ));
        } else {
            lemma_remove_nonempty_subset(targets, best.1);
            let shrunk = targets.difference(best.1);
            lemma_chosen_cover_exactly(catalog, shrunk);
            lemma_unsolved_subset_of_targets(catalog, shrunk);
            let rest = greedy(catalog, shrunk).0;
            assert(chosen == rest.insert(best.0));
            assert(unsolved == greedy(catalog, shrunk).1);
            let i0 = choose|i: int|
                0 <= i < catalog.len() && (#[trigger] catalog[i]).0 == best.0 && best.1
                    == targets.intersect(catalog[i].1);
            assert forall|p: u32| covered_by_chosen(catalog, chosen).intersect(targets).contains(
                p,
            ) implies targets.difference(unsolved).contains(p) by {
                let i = choose|i: int|
                    0 <= i < catalog.len() && chosen.contains((#[trigger] catalog[i]).0)
                        && catalog[i].1.contains(p);
                assert(catalog[i].1.intersect(unsolved).is_empty());
                if unsolved.contains(p) {
                    assert(catalog[i].1.intersect(unsolved).contains(p));
                }
            }
            assert forall|p: u32| targets.difference(unsolved).contains(p) implies
                covered_by_chosen(catalog, chosen).intersect(targets).contains(p) by {
                if best.1.contains(p) {
                    assert(chosen.contains(catalog[i0].0) && catalog[i0].1.contains(p));
                } else {
                    assert(shrunk.difference(unsolved).contains(p));
                    assert(covered_by_chosen(catalog, rest).intersect(shrunk).contains(p));
                    let i = choose|i: int|
                        0 <= i < catalog.len() && rest.contains((#[trigger] catalog[i]).0)
                            && catalog[i].1.contains(p);
                    assert(chosen.contains(catalog[i].0) && catalog[i].1.contains(p));
                }
            }
            assert(covered_by_chosen(catalog, chosen).intersect(targets) =~= targets.difference(
                unsolved,
            ));
        }
    }
}

/// Solving is deterministic: the outcome is a function of the catalog and
/// the target set alone, so re-running the solver on the same input yields
/// the same chosen solutions and the same unsolved problems. The solver's
/// contract pins each run's result to `greedy`, so any two runs coincide.
pub proof fn lemma_solve_idempotent(
    catalog: Seq<(u32, Set<u32>)>,
    targets: Set<u32>,
    first: (Set<u32>, Set<u32>),
    second: (Set<u32>, Set<u32>),
)
    requires
        first == greedy(catalog, targets),
        second == greedy(catalog, targets),
    ensures
        first == second,
{
}

/// No targets means nothing to choose and nothing left unsolved.
pub proof fn lemma_empty_targets(catalog: Seq<(u32, Set<u32>)>, targets: Set<u32>)
    requires
        targets.is_empty(),
    ensures
        greedy(catalog, targets).0 == Set::<u32>::empty(),
        greedy(catalog, targets).1 == Set::<u32>::empty(),
{
    assert(targets =~= Set::<u32>::empty());
    assert(targets.finite());
}

/// An empty catalog chooses nothing and leaves every target unsolved.
pub proof fn lemma_empty_catalog(catalog: Seq<(u32, Set<u32>)>, targets: Set<u32>)
    requires
        targets.finite(),
        catalog.len() == 0,
    ensures
        greedy(catalog, targets).0 == Set::<u32>::empty(),
        greedy(catalog, targets).1 == targets,
{
    if !targets.is_empty() {
        assert(pick_best(catalog, targets).1.is_empty());
    }
}

} // verus!
