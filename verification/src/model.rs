//! Mathematical model of the greedy cover algorithm.
//!
//! The catalog is modelled as a sequence of entries, each pairing a solution
//! identifier with the set of problem identifiers it covers; the order of
//! the sequence is the order in which the selection scan visits entries, and
//! therefore the order in which ties are broken. The algorithm itself is the
//! spec function [`greedy`], which the executable solver is proved to match
//! exactly.

use vstd::prelude::*;
use vstd::set_lib::lemma_len_subset;

verus! {

/// Does some entry of the catalog carry this solution identifier?
pub open spec fn has_solution(catalog: Seq<(u32, Set<u32>)>, solution: u32) -> bool {
    exists|i: int| 0 <= i < catalog.len() && (#[trigger] catalog[i]).0 == solution
}

/// An index of an entry carrying this solution identifier (unique when the
/// catalog's identifiers are distinct).
pub open spec fn solution_index(catalog: Seq<(u32, Set<u32>)>, solution: u32) -> int {
    choose|i: int| 0 <= i < catalog.len() && (#[trigger] catalog[i]).0 == solution
}

/// The catalog after binding `solution` to `problems`: the entry already
/// carrying `solution` is replaced, otherwise a new entry is appended.
pub open spec fn with_solution(
    catalog: Seq<(u32, Set<u32>)>,
    solution: u32,
    problems: Set<u32>,
) -> Seq<(u32, Set<u32>)> {
    if has_solution(catalog, solution) {
        catalog.update(solution_index(catalog, solution), (solution, problems))
    } else {
        catalog.push((solution, problems))
    }
}

/// The catalog built by binding each listed entry in turn, starting from an
/// empty catalog.
pub open spec fn catalog_of(entries: Seq<(u32, Vec<u32>)>) -> Seq<(u32, Set<u32>)>
    decreases entries.len(),
{
    if entries.len() == 0 {
        Seq::empty()
    } else {
        with_solution(
            catalog_of(entries.drop_last()),
            entries.last().0,
            entries.last().1@.to_set(),
        )
    }
}

/// One scan of the catalog over the current universe of unsolved problems:
/// returns the winning solution identifier and the set of unsolved problems
/// it covers. The scan keeps the first entry whose intersection with
/// `universe` is strictly larger than anything seen before it; when every
/// intersection is empty it returns an empty set (and the identifier 0,
/// which the caller then ignores).
pub open spec fn pick_best(catalog: Seq<(u32, Set<u32>)>, universe: Set<u32>) -> (u32, Set<u32>)
    decreases catalog.len(),
{
    if catalog.len() == 0 {
        (0u32, Set::<u32>::empty())
    } else {
        let prev = pick_best(catalog.drop_last(), universe);
        let gain = universe.intersect(catalog.last().1);
        if gain.len() > prev.1.len() {
            (catalog.last().0, gain)
        } else {
            prev
        }
    }
}

/// What one scan returns: a subset of the universe, which is the universe's
/// intersection with some entry of the winning identifier whenever it is
/// non-empty, and which no entry's intersection with the universe exceeds.
pub proof fn lemma_pick_best(catalog: Seq<(u32, Set<u32>)>, universe: Set<u32>)
    requires
        universe.finite(),
    ensures
        pick_best(catalog, universe).1.subset_of(universe),
        pick_best(catalog, universe).1.finite(),
        !pick_best(catalog, universe).1.is_empty() ==> exists|i: int|
            0 <= i < catalog.len() && (#[trigger] catalog[i]).0 == pick_best(catalog, universe).0
                && pick_best(catalog, universe).1 == universe.intersect(catalog[i].1),
        forall|i: int| 0 <= i < catalog.len() ==> universe.intersect(
            (#[trigger] catalog[i]).1,
        ).len() <= pick_best(catalog, universe).1.len(),
    decreases catalog.len(),
{
    if catalog.len() == 0 {
        assert(pick_best(catalog, universe).1.subset_of(universe));
    } else {
        let prefix = catalog.drop_last();
        lemma_pick_best(prefix, universe);
        let prev = pick_best(prefix, universe);
        let gain = universe.intersect(catalog.last().1);
        assert(gain.subset_of(universe));
        lemma_len_subset(gain, universe);
        if !pick_best(catalog, universe).1.is_empty() {
            if gain.len() > prev.1.len() {
                assert((catalog[catalog.len() - 1]).0 == pick_best(catalog, universe).0
                    && pick_best(catalog, universe).1 == universe.intersect(
                    catalog[catalog.len() - 1].1,
                ));
            } else {
                let j = choose|i: int|
                    0 <= i < prefix.len() && (#[trigger] prefix[i]).0 == prev.0 && prev.1
                        == universe.intersect(prefix[i].1);
                assert((catalog[j]).0 == pick_best(catalog, universe).0 && pick_best(
                    catalog,
                    universe,
                ).1 == universe.intersect(catalog[j].1));
            }
        }
        assert forall|i: int| 0 <= i < catalog.len() implies universe.intersect(
            (#[trigger] catalog[i]).1,
        ).len() <= pick_best(catalog, universe).1.len() by {
            if i < catalog.len() - 1 {
                assert(prefix[i] == catalog[i]);
            }
        }
    }
}

/// Removing a non-empty subset of a finite set strictly shrinks it.
pub proof fn lemma_remove_nonempty_subset(universe: Set<u32>, removed: Set<u32>)
    requires
        universe.finite(),
        removed.subset_of(universe),
        !removed.is_empty(),
    ensures
        universe.difference(removed).finite(),
        universe.difference(removed).len() < universe.len(),
{
    assert(exists|x: u32| removed.contains(x)) by {
        if forall|x: u32| !removed.contains(x) {
            assert(removed =~= Set::<u32>::empty());
        }
    }
    let x = choose|x: u32| removed.contains(x);
    assert(universe.difference(removed).subset_of(universe.remove(x)));
    lemma_len_subset(universe.difference(removed), universe.remove(x));
    assert(universe.remove(x).len() == universe.len() - 1);
}

/// The greedy solving loop: while some target remains unsolved and some
/// catalog entry still covers one, record the best entry's identifier and
/// remove the problems it covers from the universe. Returns the set of
/// chosen solution identifiers and the set of problems left unsolved.
pub open spec fn greedy(catalog: Seq<(u32, Set<u32>)>, universe: Set<u32>) -> (Set<u32>, Set<u32>)
    decreases universe.len() when universe.finite()
{
    if universe.is_empty() {
        (Set::<u32>::empty(), Set::<u32>::empty())
    } else {
        let best = pick_best(catalog, universe);
        if best.1.is_empty() {
            (Set::<u32>::empty(), universe)
        } else {
            proof {
                lemma_pick_best(catalog, universe);
                lemma_remove_nonempty_subset(universe, best.1);
            }
            let rest = greedy(catalog, universe.difference(best.1));
            (rest.0.insert(best.0), rest.1)
        }
    }
}

/// Every problem covered by some catalog entry whose solution identifier
/// was chosen.
pub open spec fn covered_by_chosen(catalog: Seq<(u32, Set<u32>)>, chosen: Set<u32>) -> Set<u32> {
    Set::new(
        |p: u32|
            exists|i: int|
                0 <= i < catalog.len() && chosen.contains((#[trigger] catalog[i]).0)
                    && catalog[i].1.contains(p),
    )
}

} // verus!
