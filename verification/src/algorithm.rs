//! The search strategies, and the choice among them.

use vstd::prelude::*;
use crate::algorithm::random::{
    backtrack_outcome, bannings_outcome, random_assignment, random_assignment_outcome,
    random_with_backtrack, random_with_bannings,
};
use crate::algorithm::search::{
    breadth_first, breadth_first_outcome, depth_first, depth_first_outcome,
};
use crate::algorithm::simulation::{annealing, annealing_outcome};
use crate::args::{configured, Algorithm, Args, ConfigurationError};
use crate::coloring::{
    is_candidate, is_solution, lemma_candidates_up_to_three_pass, lemma_solution_is_normalized,
    passes, schur_valid, ColorVec,
};

pub mod random;
pub mod search;
pub mod simulation;

verus! {

/// What each strategy returns. Only annealing looks at `attempts`.
pub open spec fn strategy_outcome(
    algorithm: Algorithm,
    colors: u8,
    target: nat,
    attempts: nat,
    outcome: Option<Vec<ColorVec>>,
) -> bool {
    match algorithm {
        Algorithm::Random => random_assignment_outcome(colors, target, outcome),
        Algorithm::RandomBan => bannings_outcome(colors, target, outcome),
        Algorithm::RandomDfs => backtrack_outcome(colors, target, outcome),
        Algorithm::SearchDfs => depth_first_outcome(colors, target, outcome),
        Algorithm::SearchBfs => breadth_first_outcome(colors, target, outcome),
        Algorithm::Sim => annealing_outcome(colors, target, attempts, outcome),
    }
}

/// Runs one strategy.
pub fn search(algorithm: Algorithm, args: &Args) -> (outcome: Option<Vec<ColorVec>>)
    ensures
        strategy_outcome(
            algorithm,
            args.colors,
            args.target as nat,
            args.attempts as nat,
            outcome,
        ),
{
    match algorithm {
        Algorithm::Random => random_assignment(args),
        Algorithm::RandomBan => random_with_bannings(args),
        Algorithm::RandomDfs => random_with_backtrack(args),
        Algorithm::SearchDfs => depth_first(args),
        Algorithm::SearchBfs => breadth_first(args),
        Algorithm::Sim => annealing(args),
    }
}

/// Checks the parameters and, where they are in order, runs the strategy
/// that they name. Nothing is searched where they are not.
pub fn run(args: &Args) -> (outcome: Result<Option<Vec<ColorVec>>, ConfigurationError>)
    ensures
        match configured(args.colors, args.algorithm@) {
            Ok(algorithm) => outcome matches Ok(found) && strategy_outcome(
                algorithm,
                args.colors,
                args.target as nat,
                args.attempts as nat,
                found,
            ),
            Err(error) => outcome matches Err(e) && e == error,
        },
{
    match args.configure() {
        Ok(algorithm) => Ok(search(algorithm, args)),
        Err(error) => Err(error),
    }
}

/// Whatever the strategy, each coloring that it returns is a solution: it
/// passes the checker, holds no monochromatic Schur triple, and begins with
/// color 0 followed by color 1.
pub proof fn lemma_outcome_holds_solutions(
    algorithm: Algorithm,
    colors: u8,
    target: nat,
    attempts: nat,
    outcome: Option<Vec<ColorVec>>,
    k: int,
)
    requires
        strategy_outcome(algorithm, colors, target, attempts, outcome),
        outcome matches Some(found) && 0 <= k < found.len(),
    ensures
        is_solution(outcome->0[k]@, colors, target),
        passes(outcome->0[k]@),
        schur_valid(outcome->0[k]@),
        target >= 1 ==> outcome->0[k]@[0] == 0,
        target >= 2 ==> outcome->0[k]@[1] == 1,
{
    let found = outcome->0;
    assert(is_solution(found[k]@, colors, target));
    lemma_solution_is_normalized(found[k]@, colors, target);
}

/// A strategy that returns colorings returns at least one.
pub proof fn lemma_outcome_is_not_empty(
    algorithm: Algorithm,
    colors: u8,
    target: nat,
    attempts: nat,
    outcome: Option<Vec<ColorVec>>,
)
    requires
        strategy_outcome(algorithm, colors, target, attempts, outcome),
        outcome is Some,
    ensures
        outcome->0.len() > 0,
{
    if algorithm == Algorithm::SearchBfs {
        let s = choose|s: Seq<u8>| #[trigger] is_solution(s, colors, target);
        assert(is_solution(s, colors, target));
    }
}

/// Up to a target of 2 there is no triple at all, and at a target of 3 the
/// only one is 1 + 2 = 3, whose first two members differ in color: with two
/// colors or more every strategy returns a coloring.
pub proof fn lemma_small_targets_succeed(
    algorithm: Algorithm,
    colors: u8,
    target: nat,
    attempts: nat,
    outcome: Option<Vec<ColorVec>>,
)
    requires
        strategy_outcome(algorithm, colors, target, attempts, outcome),
        colors >= 2,
        target <= 3,
    ensures
        outcome is Some,
{
    let c = seq![0u8, 1u8, 0u8].take(target as int);
    assert(is_candidate(c, colors, target));
    lemma_candidates_up_to_three_pass(c, colors, target);
    assert(is_solution(c, colors, target));
}

} // verus!
