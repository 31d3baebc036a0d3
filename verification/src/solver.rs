//! The executable greedy cover solver.
//!
//! Catalogs and result sets are kept in vectors: the catalog as parallel
//! vectors of solution identifiers and covered-problem lists with distinct
//! identifiers, the working universe and the result sets as duplicate-free
//! vectors viewed as sets. Every function is proved against the model in
//! [`crate::model`]; in particular [`Solver::solve`] returns exactly what
//! the spec function [`crate::model::greedy`] describes.

use vstd::prelude::*;
use vstd::seq_lib::lemma_seq_contains_after_push;
use vstd::seq_lib::seq_to_set_is_finite;

use crate::model::greedy;
use crate::model::pick_best;
use crate::model::with_solution;
use crate::model::catalog_of;
use crate::model::has_solution;
use crate::model::solution_index;
use crate::model::lemma_pick_best;
use crate::model::lemma_remove_nonempty_subset;

verus! {

broadcast use lemma_seq_contains_after_push, seq_to_set_is_finite;

/// A sequence's set view holds exactly the sequence's elements.
proof fn lemma_to_set_contains(values: Seq<u32>, target: u32)
    ensures
        values.to_set().contains(target) == values.contains(target),
{
}

/// Appending an element inserts it into the sequence's set view.
proof fn lemma_push_set(values: Seq<u32>, appended: u32)
    ensures
        values.push(appended).to_set() == values.to_set().insert(appended),
{
    assert forall|y: u32| #![auto] values.push(appended).contains(y) == (appended == y
        || values.contains(y)) by {
        lemma_seq_contains_after_push(values, appended, y);
    }
    assert(values.push(appended).to_set() =~= values.to_set().insert(appended));
}

/// Does `values` hold `target`? A linear scan.
fn contains_value(values: &Vec<u32>, target: u32) -> (present: bool)
    ensures
        present == values@.contains(target),
{
    let mut i: usize = 0;
    while i < values.len()
        invariant
            i <= values@.len(),
            forall|k: int| 0 <= k < i ==> values@[k] != target,
        decreases values@.len() - i,
    {
        if values[i] == target {
            return true;
        }
        i = i + 1;
    }
    false
}

/// The same values with duplicates dropped: first occurrences, in order.
fn distinct_values(values: &Vec<u32>) -> (result: Vec<u32>)
    ensures
        result@.to_set() == values@.to_set(),
        result@.no_duplicates(),
{
    let mut result: Vec<u32> = Vec::new();
    let mut i: usize = 0;
    while i < values.len()
        invariant
            i <= values@.len(),
            result@.to_set() == values@.take(i as int).to_set(),
            result@.no_duplicates(),
        decreases values@.len() - i,
    {
        let v = values[i];
        let present = contains_value(&result, v);
        let ghost prev = result@;
        if !present {
            result.push(v);
        }
        i = i + 1;
        proof {
            assert(values@.take(i as int) =~= values@.take(i as int - 1).push(
                values@[i as int - 1],
            ));
            lemma_push_set(values@.take(i as int - 1), values@[i as int - 1]);
            if !present {
                assert(result@ == prev.push(v));
                lemma_push_set(prev, v);
            } else {
                lemma_to_set_contains(prev, v);
            }
            assert(result@.to_set() =~= values@.take(i as int).to_set());
        }
    }
    proof {
        assert(values@.take(values@.len() as int) =~= values@);
    }
    result
}

/// The members of `universe` that `covered` also holds, in `universe`'s
/// order.
fn shared_values(universe: &Vec<u32>, covered: &Vec<u32>) -> (result: Vec<u32>)
    requires
        universe@.no_duplicates(),
    ensures
        result@.to_set() == universe@.to_set().intersect(covered@.to_set()),
        result@.no_duplicates(),
{
    let mut result: Vec<u32> = Vec::new();
    let mut i: usize = 0;
    while i < universe.len()
        invariant
            i <= universe@.len(),
            universe@.no_duplicates(),
            result@.to_set() == universe@.take(i as int).to_set().intersect(covered@.to_set()),
            result@.no_duplicates(),
        decreases universe@.len() - i,
    {
        let v = universe[i];
        let present = contains_value(covered, v);
        let ghost prev = result@;
        if present {
            proof {
                assert(!universe@.take(i as int).contains(v));
                lemma_to_set_contains(universe@.take(i as int), v);
                lemma_to_set_contains(prev, v);
                assert(!result@.contains(v));
            }
            result.push(v);
        }
        i = i + 1;
        proof {
            assert(universe@.take(i as int) =~= universe@.take(i as int - 1).push(
                universe@[i as int - 1],
            ));
            lemma_push_set(universe@.take(i as int - 1), universe@[i as int - 1]);
            lemma_to_set_contains(covered@, v);
            if present {
                assert(result@ == prev.push(v));
                lemma_push_set(prev, v);
            }
            assert(result@.to_set() =~= universe@.take(i as int).to_set().intersect(
                covered@.to_set(),
            ));
        }
    }
    proof {
        assert(universe@.take(universe@.len() as int) =~= universe@);
    }
    result
}

/// The members of `universe` that `covered` does not hold, in `universe`'s
/// order.
fn remaining_values(universe: &Vec<u32>, covered: &Vec<u32>) -> (result: Vec<u32>)
    requires
        universe@.no_duplicates(),
    ensures
        result@.to_set() == universe@.to_set().difference(covered@.to_set()),
        result@.no_duplicates(),
{
    let mut result: Vec<u32> = Vec::new();
    let mut i: usize = 0;
    while i < universe.len()
        invariant
            i <= universe@.len(),
            universe@.no_duplicates(),
            result@.to_set() == universe@.take(i as int).to_set().difference(covered@.to_set()),
            result@.no_duplicates(),
        decreases universe@.len() - i,
    {
        let v = universe[i];
        let present = contains_value(covered, v);
        let ghost prev = result@;
        if !present {
            proof {
                assert(!universe@.take(i as int).contains(v));
                lemma_to_set_contains(universe@.take(i as int), v);
                lemma_to_set_contains(prev, v);
                assert(!result@.contains(v));
            }
            result.push(v);
        }
        i = i + 1;
        proof {
            assert(universe@.take(i as int) =~= universe@.take(i as int - 1).push(
                universe@[i as int - 1],
            ));
            lemma_push_set(universe@.take(i as int - 1), universe@[i as int - 1]);
            lemma_to_set_contains(covered@, v);
            if !present {
                assert(result@ == prev.push(v));
                lemma_push_set(prev, v);
            }
            assert(result@.to_set() =~= universe@.take(i as int).to_set().difference(
                covered@.to_set(),
            ));
        }
    }
    proof {
        assert(universe@.take(universe@.len() as int) =~= universe@);
    }
    result
}

/// The position of `target` in `values`, if it is present.
fn find_value(values: &Vec<u32>, target: u32) -> (found: Option<usize>)
    ensures
        match found {
            Some(i) => i < values@.len() && values@[i as int] == target,
            None => !values@.contains(target),
        },
{
    let mut i: usize = 0;
    while i < values.len()
        invariant
            i <= values@.len(),
            forall|k: int| 0 <= k < i ==> values@[k] != target,
        decreases values@.len() - i,
    {
        if values[i] == target {
            return Some(i);
        }
        i = i + 1;
    }
    None
}

/// The input catalog: parallel vectors binding each solution identifier to
/// the problems it covers. Identifiers are distinct, so the catalog is a
/// mapping; the order of entries fixes how the solver breaks ties between
/// equally good candidates.
pub struct SolverInput {
    /// The solution identifiers, one per entry, without repetition.
    pub solution_ids: Vec<u32>,
    /// For each entry of `solution_ids`, the problems it covers.
    pub covered_problems: Vec<Vec<u32>>,
}

impl SolverInput {
    /// The catalog this input stands for: one entry per solution, pairing
    /// its identifier with the set of problems it covers.
    pub open spec fn catalog(&self) -> Seq<(u32, Set<u32>)> {
        Seq::new(
            self.solution_ids@.len() as nat,
            |i: int| (self.solution_ids@[i], self.covered_problems@[i]@.to_set()),
        )
    }

    /// Well-formed: the two vectors run in parallel and no solution
    /// identifier repeats.
    pub open spec fn wf(&self) -> bool {
        &&& self.solution_ids@.len() == self.covered_problems@.len()
        &&& forall|i: int, j: int|
            0 <= i < j < self.solution_ids@.len() ==> self.solution_ids@[i]
                != self.solution_ids@[j]
    }

    /// Builds a catalog from the listed entries, binding each in turn; a
    /// later entry carrying an already-bound solution identifier replaces
    /// the earlier binding.
    pub fn new(entries: Vec<(u32, Vec<u32>)>) -> (result: SolverInput)
        ensures
            result.wf(),
            result.catalog() == catalog_of(entries@),
    {
        let ghost all = entries@;
        let mut entries = entries;
        let mut result = SolverInput { solution_ids: Vec::new(), covered_problems: Vec::new() };
        proof {
            assert(result.catalog() =~= catalog_of(all.take(0)));
        }
        while entries.len() > 0
            invariant
                result.wf(),
                entries@.len() <= all.len(),
                entries@ == all.skip(all.len() - entries@.len()),
                result.catalog() == catalog_of(all.take(all.len() - entries@.len())),
            decreases entries@.len(),
        {
            let ghost done = all.len() - entries@.len();
            let (solution, problems) = entries.remove(0);
            proof {
                assert(all.skip(done as int).remove(0) =~= all.skip(done as int + 1));
                assert(all.take(done as int + 1).drop_last() =~= all.take(done as int));
                assert(all.take(done as int + 1).last() == all[done as int]);
            }
            result.add_solution(solution, problems);
        }
        proof {
            assert(all.take(all.len() as int) =~= all);
        }
        result
    }

    /// Binds `solution` to `problems`: replaces the entry already carrying
    /// `solution` if there is one, otherwise appends a new entry.
    pub fn add_solution(&mut self, solution: u32, problems: Vec<u32>)
        requires
            old(self).wf(),
        ensures
            final(self).wf(),
            final(self).catalog() == with_solution(
                old(self).catalog(),
                solution,
                problems@.to_set(),
            ),
    {
        let found = find_value(&self.solution_ids, solution);
        match found {
            Some(i) => {
                proof {
                    assert((old(self).catalog()[i as int]).0 == solution);
                    assert(has_solution(old(self).catalog(), solution));
                    let j = solution_index(old(self).catalog(), solution);
                    assert(0 <= j < old(self).catalog().len() && (old(self).catalog()[j]).0
                        == solution);
                    assert(j == i) by {
                        if j < i as int {
                            assert(old(self).solution_ids@[j] != old(self).solution_ids@[i as int]);
                        }
                        if j > i as int {
                            assert(old(self).solution_ids@[i as int] != old(self).solution_ids@[j]);
                        }
                    }
                }
                self.covered_problems.set(i, problems);
                proof {
                    assert(self.catalog() =~= old(self).catalog().update(
                        i as int,
                        (solution, problems@.to_set()),
                    ));
                }
            },
            None => {
                proof {
                    assert forall|k: int|
                        0 <= k < old(self).catalog().len() implies (#[trigger] old(
                        self,
                    ).catalog()[k]).0 != solution by {
                        assert(!old(self).solution_ids@.contains(solution));
                        assert(old(self).solution_ids@[k] != solution);
                    }
                    assert(!has_solution(old(self).catalog(), solution));
                }
                self.solution_ids.push(solution);
                self.covered_problems.push(problems);
                proof {
                    assert(!old(self).solution_ids@.contains(solution));
                    assert forall|k: int| 0 <= k < old(self).solution_ids@.len() implies (
                    #[trigger] old(self).solution_ids@[k]) != solution by {}
                    assert(self.catalog() =~= old(self).catalog().push(
                        (solution, problems@.to_set()),
                    ));
                }
            },
        }
    }
}

impl Default for SolverInput {
    /// An empty catalog.
    fn default() -> (result: SolverInput)
        ensures
            result.wf(),
            result.catalog() == catalog_of(Seq::<(u32, Vec<u32>)>::empty()),
    {
        SolverInput::new(Vec::new())
    }
}

/// The solver's result: the chosen solution identifiers and the problems
/// left unsolved, each a duplicate-free vector read as a set.
pub struct SolverOutput {
    /// The chosen solution identifiers, without repetition.
    pub best_solutions: Vec<u32>,
    /// The targets no chosen solution covers, without repetition.
    pub unsolved_problems: Vec<u32>,
}

impl SolverOutput {
    /// The set of chosen solution identifiers.
    pub open spec fn best_set(&self) -> Set<u32> {
        self.best_solutions@.to_set()
    }

    /// The set of problems left unsolved.
    pub open spec fn unsolved_set(&self) -> Set<u32> {
        self.unsolved_problems@.to_set()
    }

    /// The chosen solution identifiers.
    pub fn get_best_solutions(&self) -> (result: &Vec<u32>)
        ensures
            result@ == self.best_solutions@,
    {
        &self.best_solutions
    }

    /// The problems left unsolved.
    pub fn get_unsolved_problems(&self) -> (result: &Vec<u32>)
        ensures
            result@ == self.unsolved_problems@,
    {
        &self.unsolved_problems
    }
}

/// The solver in use. The one strategy offered is the greedy heuristic:
/// repeatedly take the catalog entry covering the most still-unsolved
/// problems.
pub enum Solver {
    GreedySolver(SolverInput),
}

impl Solver {
    /// The catalog handed to this solver.
    pub open spec fn input(&self) -> SolverInput {
        match self {
            Solver::GreedySolver(input) => *input,
        }
    }

    /// Solves for the given targets: the result is exactly what the greedy
    /// model computes for this solver's catalog and the target set. The
    /// targets may repeat; only the set of them matters.
    pub fn solve(&self, problems: Vec<u32>) -> (result: SolverOutput)
        requires
            self.input().wf(),
        ensures
            result.best_set() == greedy(self.input().catalog(), problems@.to_set()).0,
            result.unsolved_set() == greedy(self.input().catalog(), problems@.to_set()).1,
            result.best_solutions@.no_duplicates(),
            result.unsolved_problems@.no_duplicates(),
    {
        match self {
            Solver::GreedySolver(input) => {
                proof {
                    assert(self.input() == *input);
                }
                self.solve_greedy(problems, input)
            },
        }
    }

    /// One greedy run: repeatedly scan the catalog for the entry covering
    /// the most problems still in the universe, record its identifier, and
    /// remove what it covers, until the universe empties or no entry makes
    /// progress.
    fn solve_greedy(&self, problems: Vec<u32>, input: &SolverInput) -> (result: SolverOutput)
        requires
            input.wf(),
        ensures
            result.best_set() == greedy(input.catalog(), problems@.to_set()).0,
            result.unsolved_set() == greedy(input.catalog(), problems@.to_set()).1,
            result.best_solutions@.no_duplicates(),
            result.unsolved_problems@.no_duplicates(),
    {
        let ghost cat = input.catalog();
        let ghost targets = problems@.to_set();
        let mut universe: Vec<u32> = distinct_values(&problems);
        let mut best_solutions: Vec<u32> = Vec::new();
        proof {
            assert(best_solutions@.to_set() =~= Set::<u32>::empty());
            assert(Set::<u32>::empty().union(greedy(cat, targets).0) =~= greedy(cat, targets).0);
        }
        while universe.len() > 0
            invariant
                input.wf(),
                cat == input.catalog(),
                targets == problems@.to_set(),
                targets.finite(),
                universe@.no_duplicates(),
                best_solutions@.no_duplicates(),
                greedy(cat, targets).0 == best_solutions@.to_set().union(
                    greedy(cat, universe@.to_set()).0,
                ),
                greedy(cat, targets).1 == greedy(cat, universe@.to_set()).1,
            decreases universe@.len(),
        {
            let ghost u_now = universe@.to_set();
            proof {
                assert(u_now.contains(universe@[0]));
            }
            let mut best_solution: u32 = 0;
            let mut best_intersection: Vec<u32> = Vec::new();
            proof {
                assert(best_intersection@.to_set() =~= Set::<u32>::empty());
                assert(cat.take(0) =~= Seq::<(u32, Set<u32>)>::empty());
            }
            let mut idx: usize = 0;
            while idx < input.solution_ids.len()
                invariant
                    input.wf(),
                    cat == input.catalog(),
                    idx <= input.solution_ids@.len(),
                    universe@.no_duplicates(),
                    u_now == universe@.to_set(),
                    best_intersection@.no_duplicates(),
                    (best_solution, best_intersection@.to_set()) == pick_best(
                        cat.take(idx as int),
                        u_now,
                    ),
                decreases input.solution_ids@.len() - idx,
            {
                let intersection = shared_values(&universe, &input.covered_problems[idx]);
                proof {
                    intersection@.unique_seq_to_set();
                    best_intersection@.unique_seq_to_set();
                }
                if intersection.len() > best_intersection.len() {
                    best_solution = input.solution_ids[idx];
                    best_intersection = intersection;
                }
                idx = idx + 1;
                proof {
                    assert(cat.take(idx as int).drop_last() =~= cat.take(idx as int - 1));
                    assert(cat.take(idx as int).last() == cat[idx as int - 1]);
                    assert(cat[idx as int - 1] == (
                        input.solution_ids@[idx as int - 1],
                        input.covered_problems@[idx as int - 1]@.to_set(),
                    ));
                    assert((best_solution, best_intersection@.to_set()) == pick_best(
                        cat.take(idx as int),
                        u_now,
                    ));
                }
            }
            proof {
                assert(cat.take(cat.len() as int) =~= cat);
                assert((best_solution, best_intersection@.to_set()) == pick_best(cat, u_now));
            }
            if best_intersection.len() == 0 {
                proof {
                    assert(best_intersection@.to_set() =~= Set::<u32>::empty());
                    assert(pick_best(cat, u_now).1.is_empty());
                    assert(greedy(cat, u_now) == (Set::<u32>::empty(), u_now));
                    assert(best_solutions@.to_set().union(Set::<u32>::empty())
                        =~= best_solutions@.to_set());
                }
                return SolverOutput { best_solutions, unsolved_problems: universe };
            }
            let ghost old_universe = universe@;
            let updated = remaining_values(&universe, &best_intersection);
            let chosen_already = contains_value(&best_solutions, best_solution);
            let ghost old_best = best_solutions@;
            if !chosen_already {
                best_solutions.push(best_solution);
            }
            universe = updated;
            proof {
                let b = best_intersection@.to_set();
                assert(b.contains(best_intersection@[0]));
                assert(!b.is_empty());
                lemma_pick_best(cat, u_now);
                lemma_remove_nonempty_subset(u_now, b);
                assert(greedy(cat, u_now) == (
                    greedy(cat, u_now.difference(b)).0.insert(best_solution),
                    greedy(cat, u_now.difference(b)).1,
                ));
                assert(universe@.to_set() == u_now.difference(b));
                if !chosen_already {
                    assert(best_solutions@ == old_best.push(best_solution));
                    lemma_push_set(old_best, best_solution);
                } else {
                    lemma_to_set_contains(old_best, best_solution);
                }
                assert(old_best.to_set().union(greedy(cat, u_now).0)
                    =~= best_solutions@.to_set().union(greedy(cat, universe@.to_set()).0));
                old_universe.unique_seq_to_set();
                universe@.unique_seq_to_set();
                assert(universe@.len() < old_universe.len());
            }
        }
        proof {
            assert(universe@.to_set() =~= Set::<u32>::empty());
            assert(greedy(cat, universe@.to_set()) == (Set::<u32>::empty(), Set::<u32>::empty()));
            assert(best_solutions@.to_set().union(Set::<u32>::empty())
                =~= best_solutions@.to_set());
        }
        let unsolved_problems: Vec<u32> = Vec::new();
        proof {
            assert(unsolved_problems@.to_set() =~= Set::<u32>::empty());
        }
        SolverOutput { best_solutions, unsolved_problems }
    }
}

} // verus!
