//! Randomized construction: a plain random fill, a fill that avoids the
//! colors that are blocked at each position, and the same with
//! backtracking.

use vstd::prelude::*;
use crate::args::Args;
use crate::backtrack::Backtracker;
use crate::checker::check_coloring;
use crate::coloring::{
    blocked, is_candidate, is_solution, lemma_candidates_up_to_three_pass, lemma_passes_push,
    lemma_solution_needs_seed, passes, satisfiable, seedable, ColorVec,
};
use crate::extension::{allowed_colors, seed};

verus! {

/// A draw from `rand::random_range` on the range `0..bound`, which uses the
/// random number generator of the current thread. The range must not be
/// empty: `random_range` panics on an empty range. All that is claimed of
/// the draw is that it lies in the range; which value comes is up to the
/// generator, and two calls need not agree. Nothing is proved of this
/// function. The generator itself panics where the operating system gives
/// it no seed, which no caller can rule out.
#[verifier::external_body]
pub(crate) fn random_below(bound: u64) -> (draw: u64)
    requires
        bound > 0,
    ensures
        draw < bound,
{
    rand::random_range(0..bound)
}

/// A random color below `colors`.
pub(crate) fn random_color(colors: u8) -> (color: u8)
    requires
        colors > 0,
    ensures
        color < colors,
{
    random_below(colors as u64) as u8
}

/// A random index below `len`.
pub(crate) fn random_index(len: usize) -> (index: usize)
    requires
        len > 0,
    ensures
        index < len,
{
    random_below(len as u64) as usize
}

/// A random candidate: color 0, color 1, and from the third position on a
/// random color below `colors` at each position.
pub fn random_fill(colors: u8, target: usize) -> (coloring: ColorVec)
    requires
        seedable(colors, target as nat),
    ensures
        is_candidate(coloring@, colors, target as nat),
{
    let mut coloring: ColorVec = Vec::new();
    if target >= 1 {
        coloring.push(0);
    }
    if target >= 2 {
        coloring.push(1);
    }
    while coloring.len() < target
        invariant
            seedable(colors, target as nat),
            coloring.len() <= target,
            target >= 2 ==> coloring.len() >= 2,
            target < 2 ==> coloring.len() == target,
            is_candidate(coloring@, colors, coloring.len() as nat),
        decreases target - coloring.len(),
    {
        let color = random_color(colors);
        coloring.push(color);
    }
    coloring
}

/// Returns `candidate` as the one coloring found where it passes the
/// checker, and nothing where it does not.
pub fn accept(candidate: ColorVec) -> (outcome: Option<Vec<ColorVec>>)
    ensures
        outcome is Some <==> passes(candidate@),
        outcome matches Some(found) ==> found.len() == 1 && found[0] == candidate,
{
    match check_coloring(&candidate) {
        Ok(_) => {
            let mut found: Vec<ColorVec> = Vec::new();
            found.push(candidate);
            Some(found)
        },
        Err(_) => None,
    }
}

/// What a randomized strategy returns in one attempt: nothing, or one
/// solution.
pub open spec fn one_solution(colors: u8, target: nat, outcome: Option<Vec<ColorVec>>) -> bool {
    outcome matches Some(found) ==> found.len() == 1 && is_solution(found[0]@, colors, target)
}

/// What a random fill returns: nothing or one solution, and always a
/// solution up to a target of 3, where every candidate passes.
pub open spec fn random_assignment_outcome(
    colors: u8,
    target: nat,
    outcome: Option<Vec<ColorVec>>,
) -> bool {
    &&& one_solution(colors, target, outcome)
    &&& !seedable(colors, target) ==> outcome is None
    &&& seedable(colors, target) && target <= 3 ==> outcome is Some
}

/// One attempt: fills a coloring at random, checks it once, and returns it
/// if it passes.
pub fn random_assignment(args: &Args) -> (outcome: Option<Vec<ColorVec>>)
    ensures
        random_assignment_outcome(args.colors, args.target as nat, outcome),
{
    if seed(args.colors, args.target).is_none() {
        return None;
    }
    let candidate = random_fill(args.colors, args.target);
    proof {
        if args.target <= 3 {
            lemma_candidates_up_to_three_pass(candidate@, args.colors, args.target as nat);
        }
    }
    accept(candidate)
}

/// With this many colors no position up to `target` can have all of them
/// blocked: a position is blocked by pairs of earlier positions, each pair
/// blocks at most one color, and there are at most `target / 2` pairs.
pub open spec fn never_stuck(colors: u8, target: nat) -> bool {
    seedable(colors, target) && (target <= 2 || colors > target / 2)
}

/// A fill with bannings can get stuck after `p`: `p` passes, is not yet
/// full, and every color is blocked at the position after it.
pub open spec fn dead_end(p: Seq<u8>, colors: u8, target: nat) -> bool {
    &&& 2 <= p.len() < target
    &&& is_solution(p, colors, p.len())
    &&& forall|color: u8| color < colors ==> blocked(p, p.len() as int, color)
}

/// What a fill with bannings returns: nothing or one solution. It is
/// always a solution where the colors are too many to get stuck, and it is
/// nothing only where there is no candidate at all, or where some partial
/// coloring leaves no color for the position after it.
pub open spec fn bannings_outcome(colors: u8, target: nat, outcome: Option<Vec<ColorVec>>) -> bool {
    &&& one_solution(colors, target, outcome)
    &&& !seedable(colors, target) ==> outcome is None
    &&& never_stuck(colors, target) ==> outcome is Some
    &&& outcome is None ==> !seedable(colors, target) || exists|p: Seq<u8>| #[trigger]
        dead_end(p, colors, target)
}

/// One attempt at a fill with bannings: fills the positions from left to
/// right, each with a random one of the colors that are not blocked there,
/// and gives up at the first position where every color is blocked.
pub fn fill_with_bannings(colors: u8, target: usize) -> (outcome: Option<ColorVec>)
    ensures
        outcome matches Some(coloring) ==> is_solution(coloring@, colors, target as nat),
        !seedable(colors, target as nat) ==> outcome is None,
        never_stuck(colors, target as nat) ==> outcome is Some,
        outcome is None ==> !seedable(colors, target as nat) || exists|p: Seq<u8>| #[trigger]
            dead_end(p, colors, target as nat),
{
    let mut coloring = match seed(colors, target) {
        None => {
            return None;
        },
        Some(prefix) => prefix,
    };
    while coloring.len() < target
        invariant
            coloring.len() <= target,
            target >= 2 ==> coloring.len() >= 2,
            target < 2 ==> coloring.len() == target,
            is_solution(coloring@, colors, coloring.len() as nat),
        decreases target - coloring.len(),
    {
        let options = allowed_colors(&coloring, colors);
        if options.len() == 0 {
            proof {
                assert forall|color: u8| color < colors implies blocked(
                    coloring@,
                    coloring.len() as int,
                    color,
                ) by {
                    if !blocked(coloring@, coloring.len() as int, color) {
                        assert(options@.contains(color));
                    }
                }
                assert(dead_end(coloring@, colors, target as nat));
            }
            return None;
        }
        let color = options[random_index(options.len())];
        proof {
            lemma_passes_push(coloring@, color);
        }
        coloring.push(color);
    }
    Some(coloring)
}

/// Fills with bannings until a fill succeeds: once, and up to `attempts`
/// times more.
pub fn random_with_bannings(args: &Args) -> (outcome: Option<Vec<ColorVec>>)
    ensures
        bannings_outcome(args.colors, args.target as nat, outcome),
{
    let colors = args.colors;
    let target = args.target;
    let attempts = args.attempts;
    if seed(colors, target).is_none() {
        return None;
    }
    let mut tries: usize = 0;
    let mut more = true;
    while more
        invariant
            colors == args.colors,
            target == args.target,
            attempts == args.attempts,
            tries <= attempts,
            seedable(colors, target as nat),
            !more ==> !never_stuck(colors, target as nat),
            !more ==> exists|p: Seq<u8>| #[trigger] dead_end(p, colors, target as nat),
        decreases attempts - tries + if more { 1int } else { 0int },
    {
        match fill_with_bannings(colors, target) {
            Some(coloring) => {
                let mut found: Vec<ColorVec> = Vec::new();
                found.push(coloring);
                return Some(found);
            },
            None => {},
        }
        if tries == attempts {
            more = false;
        } else {
            tries += 1;
        }
    }
    None
}

/// What randomized backtracking returns: one solution where there is a
/// solution, and nothing where there is none.
pub open spec fn backtrack_outcome(
    colors: u8,
    target: nat,
    outcome: Option<Vec<ColorVec>>,
) -> bool {
    &&& one_solution(colors, target, outcome)
    &&& outcome is Some <==> satisfiable(colors, target)
}

/// Fills the positions from left to right as `fill_with_bannings` does,
/// but goes back where every color is blocked: the color of the position
/// before counts as tried, and another of its untried colors is drawn. It
/// gives up only when nothing is left to go back to, so it finds a solution
/// wherever there is one, and a second run could not find what the first
/// did not: `attempts` plays no part.
pub fn random_with_backtrack(args: &Args) -> (outcome: Option<Vec<ColorVec>>)
    ensures
        backtrack_outcome(args.colors, args.target as nat, outcome),
{
    let colors = args.colors;
    let target = args.target;
    let mut found: Vec<ColorVec> = Vec::new();
    if target <= 2 || colors < 2 {
        match seed(colors, target) {
            None => {
                proof {
                    assert forall|s: Seq<u8>| !#[trigger] is_solution(s, colors, target as nat) by {
                        if is_solution(s, colors, target as nat) {
                            lemma_solution_needs_seed(s, colors, target as nat);
                        }
                    }
                }
                return None;
            },
            Some(prefix) => {
                found.push(prefix);
                assert(is_solution(found[0]@, colors, target as nat));
                return Some(found);
            },
        }
    }
    let mut bt = Backtracker::new(colors, target);
    loop
        invariant
            bt.wf(),
            bt.colors == colors,
            bt.target == target,
            colors == args.colors,
            target == args.target,
            found.len() == 0,
        decreases bt.remaining(),
    {
        if bt.is_complete() {
            found.push(bt.into_path());
            assert(is_solution(found[0]@, colors, target as nat));
            return Some(found);
        }
        let choices = bt.choices();
        let pick = if choices > 0 {
            random_index(choices)
        } else {
            0
        };
        if !bt.step(pick) {
            return None;
        }
    }
}

} // verus!
