//! Simulated annealing: a random coloring is repaired again and again
//! around the first position at which the checker fails. Positions at and
//! below the failure are mostly kept, positions above it are mostly drawn
//! anew.

use vstd::prelude::*;
use crate::algorithm::random::{random_below, random_color, random_fill};
use crate::args::Args;
use crate::checker::{check_coloring, check_outcome, first_failure, CheckOutcome};
use crate::coloring::{
    is_candidate, is_solution, lemma_candidates_up_to_three_pass, passes, seedable, violated_at,
    ColorVec,
};
use crate::extension::seed;

verus! {

/// Odds are counted in parts of `UNIT`, which stands for certainty. It is
/// two to the power 53.
pub const UNIT: u64 = 9007199254740992;

/// The logistic curve with steepness 2 on its lower half: entry `k` is
/// `UNIT / (1 + e^(2k))`, rounded to the nearest integer. Past the end of
/// the table the curve rounds to 0.
pub const TAIL: [u64; 19] = [
    4503599627370496,
    1073684470400566,
    162005376966166,
    22271409453696,
    3020565445215,
    408907649143,
    55341804898,
    7489738631,
    1013626628,
    137179460,
    18565221,
    2512529,
    340034,
    46019,
    6228,
    843,
    114,
    15,
    2,
];

/// The odds, in parts of `UNIT`, at distance `k` below the midpoint.
pub open spec fn tail_odds(k: nat) -> nat {
    if k < 19 {
        TAIL@[k as int] as nat
    } else {
        0
    }
}

/// The odds, in parts of `UNIT`, that position `n` is drawn anew after a
/// failure at position `mid`: `UNIT / (1 + e^(-2 (n - mid)))`. Above the
/// midpoint the curve is the mirror image of its lower half.
pub open spec fn logistic_odds(n: int, mid: int) -> nat {
    if n >= mid {
        (UNIT - tail_odds((n - mid) as nat)) as nat
    } else {
        tail_odds((mid - n) as nat)
    }
}

/// The table falls from one half to nearly nothing.
pub proof fn lemma_tail_falls(j: nat, k: nat)
    requires
        j <= k,
    ensures
        tail_odds(k) <= tail_odds(j) <= UNIT / 2,
{
    assert(TAIL@[0] == 4503599627370496);
    assert(TAIL@[1] == 1073684470400566);
    assert(TAIL@[2] == 162005376966166);
    assert(TAIL@[3] == 22271409453696);
    assert(TAIL@[4] == 3020565445215);
    assert(TAIL@[5] == 408907649143);
    assert(TAIL@[6] == 55341804898);
    assert(TAIL@[7] == 7489738631);
    assert(TAIL@[8] == 1013626628);
    assert(TAIL@[9] == 137179460);
    assert(TAIL@[10] == 18565221);
    assert(TAIL@[11] == 2512529);
    assert(TAIL@[12] == 340034);
    assert(TAIL@[13] == 46019);
    assert(TAIL@[14] == 6228);
    assert(TAIL@[15] == 843);
    assert(TAIL@[16] == 114);
    assert(TAIL@[17] == 15);
    assert(TAIL@[18] == 2);
}

/// At the midpoint the odds are even.
pub proof fn lemma_logistic_midpoint(mid: int)
    ensures
        2 * logistic_odds(mid, mid) == UNIT,
{
    lemma_tail_falls(0, 0);
}

/// The odds at equal distances above and below the midpoint add up to
/// certainty.
pub proof fn lemma_logistic_mirror(mid: int, distance: nat)
    ensures
        logistic_odds(mid + distance, mid) + logistic_odds(mid - distance, mid) == UNIT,
{
    lemma_tail_falls(0, distance);
}

/// The odds never fall as the position moves up.
pub proof fn lemma_logistic_rises(lower: int, upper: int, mid: int)
    requires
        lower <= upper,
    ensures
        logistic_odds(lower, mid) <= logistic_odds(upper, mid) <= UNIT,
{
    if lower >= mid {
        lemma_tail_falls((lower - mid) as nat, (upper - mid) as nat);
        lemma_tail_falls(0, (lower - mid) as nat);
    } else if upper >= mid {
        lemma_tail_falls(0, (mid - lower) as nat);
        lemma_tail_falls(0, (upper - mid) as nat);
    } else {
        lemma_tail_falls((mid - upper) as nat, (mid - lower) as nat);
    }
}

/// Far from the midpoint the odds are all or nothing.
pub proof fn lemma_logistic_ends(n: int, mid: int)
    ensures
        n >= mid + 19 ==> logistic_odds(n, mid) == UNIT,
        n + 19 <= mid ==> logistic_odds(n, mid) == 0,
        mid - 19 < n < mid + 19 ==> 0 < logistic_odds(n, mid) < UNIT,
{
    if mid - 19 < n < mid + 19 {
        let distance = if n >= mid { (n - mid) as nat } else { (mid - n) as nat };
        lemma_tail_falls(distance, 18);
        lemma_tail_falls(0, distance);
    }
}

/// The odds, in parts of `UNIT`, that position `n` is drawn anew after a
/// failure at position `mid`.
pub fn logistic(n: usize, mid: usize) -> (odds: u64)
    ensures
        odds == logistic_odds(n as int, mid as int),
        odds <= UNIT,
{
    proof {
        lemma_logistic_rises(n as int, n as int, mid as int);
    }
    if n >= mid {
        let distance = n - mid;
        if distance < 19 {
            proof {
                lemma_tail_falls(0, distance as nat);
            }
            UNIT - TAIL[distance]
        } else {
            UNIT
        }
    } else {
        let distance = mid - n;
        if distance < 19 {
            TAIL[distance]
        } else {
            0
        }
    }
}

/// Whether position `n` is drawn anew after a failure at position `mid`,
/// given a draw from `0..UNIT`.
pub fn reassigns(n: usize, mid: usize, draw: u64) -> (yes: bool)
    ensures
        yes == (draw < logistic_odds(n as int, mid as int)),
{
    draw < logistic(n, mid)
}

/// The color of position `i` after a repair around `index`, where `draws`
/// holds a draw from `0..UNIT` and `fresh` a new color for each position.
/// The failing position takes its new color in any case; the first two
/// positions never change.
pub open spec fn repaired_color(
    before: Seq<u8>,
    index: int,
    draws: Seq<u64>,
    fresh: Seq<u8>,
    i: int,
) -> u8 {
    if i >= 2 && (i == index || draws[i] < logistic_odds(i, index)) {
        fresh[i]
    } else {
        before[i]
    }
}

/// Repairs `candidate` after a failure at `index` with the draws and the
/// new colors given.
pub fn apply_repair(candidate: &mut ColorVec, index: usize, draws: &Vec<u64>, fresh: &Vec<u8>)
    requires
        draws.len() == old(candidate).len(),
        fresh.len() == old(candidate).len(),
    ensures
        final(candidate).len() == old(candidate).len(),
        forall|i: int|
            0 <= i < old(candidate).len() ==> #[trigger] final(candidate)[i] == repaired_color(
                old(candidate)@,
                index as int,
                draws@,
                fresh@,
                i,
            ),
{
    let n = candidate.len();
    let mut i: usize = 2;
    while i < n
        invariant
            2 <= i,
            n == candidate.len(),
            n == old(candidate).len(),
            n == draws.len(),
            n == fresh.len(),
            forall|j: int|
                0 <= j < n ==> #[trigger] candidate[j] == if j < i {
                    repaired_color(old(candidate)@, index as int, draws@, fresh@, j)
                } else {
                    old(candidate)[j]
                },
        decreases n - i,
    {
        if i == index || reassigns(i, index, draws[i]) {
            candidate.set(i, fresh[i]);
        }
        i += 1;
    }
}

/// `after` is what a repair of `before` around `index` comes to with the
/// draws and the new colors given: one draw from `0..UNIT` and one new
/// color below `colors` for each position.
pub open spec fn repaired_by(
    before: Seq<u8>,
    after: Seq<u8>,
    colors: u8,
    index: int,
    draws: Seq<u64>,
    fresh: Seq<u8>,
) -> bool {
    &&& after.len() == before.len()
    &&& draws.len() == before.len()
    &&& fresh.len() == before.len()
    &&& forall|i: int| 0 <= i < before.len() ==> #[trigger] draws[i] < UNIT
    &&& forall|i: int| 0 <= i < before.len() ==> #[trigger] fresh[i] < colors
    &&& forall|i: int|
        0 <= i < before.len() ==> #[trigger] after[i] == repaired_color(
            before,
            index,
            draws,
            fresh,
            i,
        )
}

/// What a repair needs drawn: for each of `len` positions a draw from
/// `0..UNIT` and a new color below `colors`.
pub fn draw_for_repair(len: usize, colors: u8) -> (drawn: (Vec<u64>, Vec<u8>))
    requires
        len > 0 ==> colors > 0,
    ensures
        drawn.0.len() == len,
        drawn.1.len() == len,
        forall|j: int| 0 <= j < len ==> #[trigger] drawn.0[j] < UNIT,
        forall|j: int| 0 <= j < len ==> #[trigger] drawn.1[j] < colors,
{
    let mut draws: Vec<u64> = Vec::new();
    let mut fresh: Vec<u8> = Vec::new();
    while draws.len() < len
        invariant
            len > 0 ==> colors > 0,
            draws.len() == fresh.len(),
            draws.len() <= len,
            forall|j: int| 0 <= j < draws.len() ==> #[trigger] draws[j] < UNIT,
            forall|j: int| 0 <= j < fresh.len() ==> #[trigger] fresh[j] < colors,
        decreases len - draws.len(),
    {
        draws.push(random_below(UNIT));
        fresh.push(random_color(colors));
    }
    (draws, fresh)
}

/// Repairs `candidate` after a failure at `index`: the failing position
/// gets a new random color, and so does each position from the third on
/// with the odds that `logistic` gives it. Whatever is drawn, the result is
/// what `apply_repair` makes of some draws from `0..UNIT` and some new
/// colors below `colors`; the first two positions keep their colors, and so
/// does each position so far below the failure that its odds are nothing.
pub fn repair(candidate: &mut ColorVec, colors: u8, index: usize)
    requires
        2 <= index < old(candidate).len(),
        is_candidate(old(candidate)@, colors, old(candidate).len() as nat),
    ensures
        is_candidate(final(candidate)@, colors, old(candidate).len() as nat),
        exists|draws: Seq<u64>, fresh: Seq<u8>| #[trigger]
            repaired_by(old(candidate)@, final(candidate)@, colors, index as int, draws, fresh),
        forall|i: int|
            0 <= i < old(candidate).len() && (i < 2 || i + 19 <= index) ==> final(candidate)[i]
                == old(candidate)[i],
{
    let n = candidate.len();
    let (draws, fresh) = draw_for_repair(n, colors);
    apply_repair(candidate, index, &draws, &fresh);
    proof {
        assert(repaired_by(old(candidate)@, candidate@, colors, index as int, draws@, fresh@));
        assert forall|i: int|
            0 <= i < n && (i < 2 || i + 19 <= index) implies candidate[i] == old(candidate)[i] by {
            lemma_logistic_ends(i, index as int);
        }
    }
}

/// `coloring` is among `found`.
pub open spec fn among(found: Seq<ColorVec>, coloring: Seq<u8>) -> bool {
    exists|k: int| 0 <= k < found.len() && #[trigger] found[k]@ == coloring
}

/// Whether `coloring` is among `found`.
pub fn holds(found: &Vec<ColorVec>, coloring: &ColorVec) -> (yes: bool)
    ensures
        yes == among(found@, coloring@),
{
    let mut k: usize = 0;
    while k < found.len()
        invariant
            k <= found.len(),
            forall|j: int| 0 <= j < k ==> #[trigger] found[j]@ != coloring@,
        decreases found.len() - k,
    {
        let same = found[k] == *coloring;
        proof {
            if same {
                assert(found[k as int]@ =~= coloring@);
            }
        }
        if same {
            return true;
        }
        k += 1;
    }
    false
}

/// No coloring is in `found` twice.
pub open spec fn distinct(found: Seq<ColorVec>) -> bool {
    forall|i: int, j: int| 0 <= i < j < found.len() ==> #[trigger] found[i]@ != #[trigger] found[j]@
}

/// `found` holds solutions only, and none of them twice.
pub open spec fn distinct_solutions(found: Seq<ColorVec>, colors: u8, target: nat) -> bool {
    &&& forall|k: int| 0 <= k < found.len() ==> is_solution(#[trigger] found[k]@, colors, target)
    &&& distinct(found)
}

/// Adds a copy of `solution` at the end of `found`, unless it is there
/// already, and says whether it did.
pub fn record(found: &mut Vec<ColorVec>, solution: &ColorVec) -> (added: bool)
    ensures
        added == !among(old(found)@, solution@),
        !added ==> final(found)@ == old(found)@,
        added ==> final(found)@.len() == old(found)@.len() + 1 && final(found)@.drop_last() == old(
            found,
        )@ && final(found)@.last()@ == solution@,
{
    if holds(found, solution) {
        return false;
    }
    let ghost before = found@;
    let copy = solution.clone();
    found.push(copy);
    assert(found@.drop_last() =~= before);
    true
}

/// Distinct solutions stay distinct solutions when one that is not among
/// them joins them.
proof fn lemma_record_keeps_distinct(
    before: Seq<ColorVec>,
    after: Seq<ColorVec>,
    solution: Seq<u8>,
    colors: u8,
    target: nat,
)
    requires
        distinct_solutions(before, colors, target),
        is_solution(solution, colors, target),
        !among(before, solution),
        after.len() == before.len() + 1,
        after.drop_last() == before,
        after.last()@ == solution,
    ensures
        distinct_solutions(after, colors, target),
{
    assert forall|k: int| 0 <= k < after.len() implies is_solution(
        #[trigger] after[k]@,
        colors,
        target,
    ) by {
        if k < before.len() {
            assert(after[k] == before[k]);
        }
    }
    assert forall|i: int, j: int| 0 <= i < j < after.len() implies #[trigger] after[i]@
        != #[trigger] after[j]@ by {
        assert(after[i] == before[i]);
        if j < before.len() {
            assert(after[j] == before[j]);
        }
    }
}

/// One round of annealing on `candidate`, with everything that chance
/// decides handed in: `refill` is the random fill that takes the place of a
/// candidate that passes, `draws` and `fresh` are the draws and the new
/// colors for the repair of one that fails.
///
/// The candidate is checked. Where it passes, a copy of it joins `found`
/// at the end, unless it is among them already, and `refill` becomes the
/// candidate. Where it fails, `found` stays as it is and the candidate is
/// repaired around the position of its first failure.
pub fn round(
    found: &mut Vec<ColorVec>,
    candidate: &mut ColorVec,
    refill: ColorVec,
    draws: &Vec<u64>,
    fresh: &Vec<u8>,
) -> (passed: bool)
    requires
        draws.len() == old(candidate).len(),
        fresh.len() == old(candidate).len(),
    ensures
        passed == passes(old(candidate)@),
        passed ==> final(candidate)@ == refill@,
        passed && among(old(found)@, old(candidate)@) ==> final(found)@ == old(found)@,
        passed && !among(old(found)@, old(candidate)@) ==> final(found)@.len() == old(
            found,
        )@.len() + 1 && final(found)@.drop_last() == old(found)@ && final(found)@.last()@
            == old(candidate)@,
        !passed ==> final(found)@ == old(found)@,
        !passed ==> exists|e: int| #[trigger]
            first_failure(old(candidate)@, e) && final(candidate)@.len() == old(candidate)@.len()
                && forall|i: int|
                0 <= i < old(candidate).len() ==> #[trigger] final(candidate)[i] == repaired_color(
                    old(candidate)@,
                    e,
                    draws@,
                    fresh@,
                    i,
                ),
{
    match check_coloring(candidate) {
        Ok(_) => {
            record(found, candidate);
            *candidate = refill;
            true
        },
        Err(e) => {
            apply_repair(candidate, e.index, draws, fresh);
            assert(first_failure(old(candidate)@, e.index as int));
            false
        },
    }
}

/// A repair with new colors below `colors` keeps a candidate a candidate.
proof fn lemma_repair_keeps_candidate(
    before: Seq<u8>,
    after: Seq<u8>,
    colors: u8,
    index: int,
    draws: Seq<u64>,
    fresh: Seq<u8>,
)
    requires
        is_candidate(before, colors, before.len()),
        after.len() == before.len(),
        fresh.len() == before.len(),
        forall|i: int| 0 <= i < before.len() ==> #[trigger] fresh[i] < colors,
        forall|i: int|
            0 <= i < before.len() ==> #[trigger] after[i] == repaired_color(
                before,
                index,
                draws,
                fresh,
                i,
            ),
    ensures
        is_candidate(after, colors, before.len()),
{
    assert forall|i: int| 0 <= i < after.len() implies after[i] < colors by {
        assert(after[i] == repaired_color(before, index, draws, fresh, i));
        assert(fresh[i] < colors);
    }
    if before.len() >= 1 {
        assert(after[0] == repaired_color(before, index, draws, fresh, 0));
    }
    if before.len() >= 2 {
        assert(after[1] == repaired_color(before, index, draws, fresh, 1));
    }
}

/// What a round does to the search: the candidate stays a candidate, what
/// was found stays a list of distinct solutions that grows by one at most,
/// and up to a target of 3 something has been found after the round.
proof fn lemma_round_keeps_search(
    found_before: Seq<ColorVec>,
    found_after: Seq<ColorVec>,
    checked: Seq<u8>,
    candidate: Seq<u8>,
    refill: Seq<u8>,
    draws: Seq<u64>,
    fresh: Seq<u8>,
    passed: bool,
    colors: u8,
    target: nat,
)
    requires
        is_candidate(checked, colors, target),
        is_candidate(refill, colors, target),
        distinct_solutions(found_before, colors, target),
        fresh.len() == target,
        forall|i: int| 0 <= i < target ==> #[trigger] fresh[i] < colors,
        passed == passes(checked),
        passed ==> candidate == refill,
        passed && among(found_before, checked) ==> found_after == found_before,
        passed && !among(found_before, checked) ==> found_after.len() == found_before.len() + 1
            && found_after.drop_last() == found_before && found_after.last()@ == checked,
        !passed ==> found_after == found_before,
        !passed ==> exists|e: int| #[trigger]
            first_failure(checked, e) && candidate.len() == checked.len() && forall|i: int|
                0 <= i < checked.len() ==> #[trigger] candidate[i] == repaired_color(
                    checked,
                    e,
                    draws,
                    fresh,
                    i,
                ),
    ensures
        is_candidate(candidate, colors, target),
        distinct_solutions(found_after, colors, target),
        found_before.len() <= found_after.len() <= found_before.len() + 1,
        target <= 3 ==> found_after.len() > 0,
{
    if target <= 3 {
        lemma_candidates_up_to_three_pass(checked, colors, target);
    }
    if passed {
        if !among(found_before, checked) {
            lemma_record_keeps_distinct(found_before, found_after, checked, colors, target);
        }
    } else {
        let e = choose|e: int| #[trigger]
            first_failure(checked, e) && candidate.len() == checked.len() && forall|i: int|
                0 <= i < checked.len() ==> #[trigger] candidate[i] == repaired_color(
                    checked,
                    e,
                    draws,
                    fresh,
                    i,
                );
        lemma_repair_keeps_candidate(checked, candidate, colors, e, draws, fresh);
    }
}

/// What annealing returns: the distinct solutions that it came across, at
/// most one for each round. Up to a target of 3 every candidate is a
/// solution, so the search cannot come back empty where there is a
/// candidate.
pub open spec fn annealing_outcome(
    colors: u8,
    target: nat,
    attempts: nat,
    outcome: Option<Vec<ColorVec>>,
) -> bool {
    match outcome {
        Some(found) => {
            &&& 0 < found.len() <= attempts + 1
            &&& distinct_solutions(found@, colors, target)
        },
        None => target > 3 || !seedable(colors, target),
    }
}

/// Each coloring that annealing returns passes the checker when checked on
/// its own.
pub proof fn lemma_annealing_is_sound(
    colors: u8,
    target: nat,
    attempts: nat,
    outcome: Option<Vec<ColorVec>>,
    k: int,
    verdict: CheckOutcome,
)
    requires
        annealing_outcome(colors, target, attempts, outcome),
        outcome matches Some(found) && 0 <= k < found.len() && check_outcome(found[k]@, verdict),
    ensures
        verdict is Ok,
{
    let c = outcome->0[k]@;
    assert(is_solution(c, colors, target));
    if let Err(e) = verdict {
        assert(violated_at(c, e.index + 1));
    }
}

/// Runs `attempts + 1` rounds on one candidate, which starts as a random
/// fill. For each round it draws what chance decides, a random fill and
/// the draws and new colors of a repair, and hands them to `round`.
pub fn annealing(args: &Args) -> (outcome: Option<Vec<ColorVec>>)
    ensures
        annealing_outcome(args.colors, args.target as nat, args.attempts as nat, outcome),
{
    let colors = args.colors;
    let target = args.target;
    let attempts = args.attempts;
    let mut result: Vec<ColorVec> = Vec::new();
    if seed(colors, target).is_none() {
        return None;
    }
    let mut candidate: ColorVec = random_fill(colors, target);
    let mut sentinel: usize = 0;
    let mut more = true;
    while more
        invariant
            colors == args.colors,
            target == args.target,
            attempts == args.attempts,
            seedable(colors, target as nat),
            is_candidate(candidate@, colors, target as nat),
            sentinel <= attempts,
            result.len() <= sentinel + if more { 0int } else { 1int },
            distinct_solutions(result@, colors, target as nat),
            target <= 3 && (sentinel > 0 || !more) ==> result.len() > 0,
        decreases attempts - sentinel + if more { 1int } else { 0int },
    {
        let refill = random_fill(colors, target);
        let (draws, fresh) = draw_for_repair(target, colors);
        let ghost found_before = result@;
        let ghost checked = candidate@;
        let passed = round(&mut result, &mut candidate, refill, &draws, &fresh);
        proof {
            lemma_round_keeps_search(
                found_before,
                result@,
                checked,
                candidate@,
                refill@,
                draws@,
                fresh@,
                passed,
                colors,
                target as nat,
            );
        }
        if sentinel == attempts {
            more = false;
        } else {
            sentinel += 1;
        }
    }
    if result.len() > 0 {
        return Some(result);
    }
    return None;
}

} // verus!
