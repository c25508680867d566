//! Backtracking over the tree of partial colorings, with an explicit stack.
//!
//! A `Backtracker` holds one partial coloring and, for every position from
//! the third on, the colors that are still untried there. Which of the
//! untried colors comes next is the caller's choice: always the smallest
//! gives a depth-first search in lexicographic order, a random one gives
//! randomized backtracking. Either way the whole tree is visited before the
//! search gives up.

use vstd::prelude::*;
use crate::coloring::{
    agree, blocked, is_solution, lemma_blocked_prefix, lemma_next_color_allowed,
    lemma_passes_prefix, lemma_passes_push, lex_lt, satisfiable, smaller_at, ColorVec,
};
use crate::extension::{allowed_colors, ascending};

verus! {

/// `base` to the power `e`.
pub open spec fn weight(base: int, e: nat) -> int
    decreases e,
{
    if e == 0 {
        1
    } else {
        base * weight(base, (e - 1) as nat)
    }
}

/// The number whose digits, most significant first, are `digits`, read in
/// base `base` with the first digit at exponent `top`.
pub open spec fn total(digits: Seq<int>, top: int, base: int) -> int
    decreases digits.len(),
{
    if digits.len() == 0 {
        0
    } else {
        total(digits.drop_last(), top, base) + digits.last() * weight(
            base,
            (top - (digits.len() - 1)) as nat,
        )
    }
}

proof fn lemma_weight_positive(base: int, e: nat)
    requires
        base >= 1,
    ensures
        weight(base, e) >= 1,
    decreases e,
{
    if e > 0 {
        lemma_weight_positive(base, (e - 1) as nat);
        let w = weight(base, (e - 1) as nat);
        assert(base * w >= 1) by (nonlinear_arith)
            requires
                base >= 1,
                w >= 1,
        ;
    }
}

proof fn lemma_total_push(digits: Seq<int>, x: int, top: int, base: int)
    ensures
        total(digits.push(x), top, base) == total(digits, top, base) + x * weight(
            base,
            (top - digits.len()) as nat,
        ),
{
    assert(digits.push(x).drop_last() =~= digits);
}

proof fn lemma_total_bound(digits: Seq<int>, top: int, base: int)
    requires
        base >= 1,
        digits.len() <= top + 1,
        forall|k: int| 0 <= k < digits.len() ==> 0 <= #[trigger] digits[k] <= base - 1,
    ensures
        0 <= total(digits, top, base),
        total(digits, top, base) + weight(base, (top + 1 - digits.len()) as nat) <= weight(
            base,
            (top + 1) as nat,
        ),
    decreases digits.len(),
{
    if digits.len() > 0 {
        let rest = digits.drop_last();
        lemma_total_bound(rest, top, base);
        let e = (top + 1 - digits.len()) as nat;
        let w = weight(base, e);
        lemma_weight_positive(base, e);
        assert(weight(base, e + 1) == base * w);
        let last = digits.last();
        assert(0 <= last * w && last * w + w <= base * w) by (nonlinear_arith)
            requires
                0 <= last <= base - 1,
                w >= 1,
        ;
    }
}

/// A search in progress for a coloring of `1..=target` with `colors`
/// colors.
pub struct Backtracker {
    pub colors: u8,
    pub target: usize,
    /// The partial coloring under construction.
    pub path: ColorVec,
    /// `pending[k]` holds the colors not yet tried at position `k + 2`,
    /// given the colors of `path` before that position.
    pub pending: Vec<Vec<u8>>,
}

/// For each list of untried colors, how many of the colors at its position
/// are done with: all but the untried ones and, below the last position,
/// the one in use.
pub open spec fn done_counts(pending: Seq<Vec<u8>>, colors: int) -> Seq<int> {
    Seq::new(
        pending.len(),
        |k: int| colors - pending[k].len() - if k + 1 < pending.len() { 1int } else { 0int },
    )
}

/// How a step changes the search. Where colors are untried at the position
/// after the path, the one at `pick` leaves their list and extends the
/// path, and a fresh list for the next position follows. Where none is, the
/// search loses the last position and the empty list, unless the path is
/// down to its fixed beginning: then the search is over, and nothing
/// changes.
pub open spec fn stepped(before: Backtracker, pick: int, alive: bool, after: Backtracker) -> bool {
    let n = before.pending.len() - 1;
    let list = before.untried();
    if list.len() > 0 {
        &&& alive
        &&& after.path@ == before.path@.push(list[pick])
        &&& after.pending.len() == n + 2
        &&& forall|k: int| 0 <= k < n ==> after.pending[k] == before.pending[k]
        &&& after.pending[n]@ == list.remove(pick)
        &&& after.fresh()
    } else if before.path.len() > 2 {
        &&& alive
        &&& after.path@ == before.path@.drop_last()
        &&& after.pending@ == before.pending@.drop_last()
    } else {
        &&& !alive
        &&& after.path@ == before.path@
        &&& after.pending@ == before.pending@
    }
}

impl Backtracker {
    /// The list at `k` is in ascending order, of colors below `colors` that
    /// are not blocked at its position, and leaves room for the color in
    /// use there.
    pub open spec fn level_ok(&self, k: int) -> bool {
        let list = self.pending[k]@;
        &&& ascending(list)
        &&& forall|i: int|
            0 <= i < list.len() ==> #[trigger] list[i] < self.colors && !blocked(
                self.path@,
                k + 2,
                list[i],
            )
        &&& list.len() + if k + 1 < self.pending.len() { 1int } else { 0int } <= self.colors
    }

    /// A solution `s` that follows the path up to position `j` either goes
    /// on with it, or continues with a color that is still untried there.
    pub open spec fn covers(&self, s: Seq<u8>, j: int) -> bool {
        (is_solution(s, self.colors, self.target as nat) && 2 <= j <= self.path.len() && agree(
            s,
            self.path@,
            j,
        )) ==> {
            ||| j == self.target
            ||| j < self.path.len() && s[j] == self.path[j]
            ||| self.pending[j - 2]@.contains(s[j])
        }
    }

    /// The colors still untried at the position after the path.
    pub open spec fn untried(&self) -> Seq<u8> {
        self.pending[self.pending.len() - 1]@
    }

    /// The last list holds every color that may follow the path: the
    /// position after the path has just been reached.
    pub open spec fn fresh(&self) -> bool {
        let list = self.untried();
        if self.path.len() < self.target {
            forall|color: u8|
                list.contains(color) <==> color < self.colors && !blocked(
                    self.path@,
                    self.path.len() as int,
                    color,
                )
        } else {
            list.len() == 0
        }
    }

    /// The state is consistent, and no solution lies in the part of the
    /// tree that the search has left behind.
    pub open spec fn wf(&self) -> bool {
        &&& self.colors >= 2
        &&& 2 <= self.path.len() <= self.target
        &&& self.pending.len() == self.path.len() - 1
        &&& is_solution(self.path@, self.colors, self.path.len() as nat)
        &&& forall|k: int| 0 <= k < self.pending.len() ==> #[trigger] self.level_ok(k)
        &&& forall|s: Seq<u8>, j: int| #[trigger] self.covers(s, j)
    }

    /// Every color on the path is smaller than the colors still untried at
    /// its position: the search has so far always taken the smallest.
    pub open spec fn lowest(&self) -> bool {
        forall|k: int, i: int|
            0 <= k < self.pending.len() - 1 && 0 <= i < self.pending[k].len()
                ==> self.path[k + 2] < #[trigger] self.pending[k][i]
    }

    /// How far the search has come: it grows with every step.
    pub open spec fn progress(&self) -> int {
        2 * total(done_counts(self.pending@, self.colors as int), self.target - 2, self.colors + 1)
            + self.path.len()
    }

    /// An upper bound on the number of steps that are left.
    pub open spec fn remaining(&self) -> int {
        2 * weight(self.colors + 1, (self.target - 1) as nat) + self.target - self.progress()
    }

    /// The path is a full coloring.
    pub open spec fn complete(&self) -> bool {
        self.path.len() == self.target
    }

    proof fn lemma_remaining_positive(&self)
        requires
            self.wf(),
        ensures
            self.remaining() > 0,
    {
        let d = done_counts(self.pending@, self.colors as int);
        assert forall|k: int| 0 <= k < d.len() implies 0 <= #[trigger] d[k] <= self.colors by {
            assert(self.level_ok(k));
        }
        lemma_total_bound(d, self.target - 2, self.colors + 1);
        lemma_weight_positive(self.colors + 1, (self.target - 1 - d.len()) as nat);
    }

    /// Starts a search at the fixed beginning of every candidate.
    pub fn new(colors: u8, target: usize) -> (bt: Backtracker)
        requires
            colors >= 2,
            target >= 2,
        ensures
            bt.wf(),
            bt.lowest(),
            bt.fresh(),
            bt.colors == colors,
            bt.target == target,
            bt.path@ == seq![0u8, 1u8],
    {
        let mut path: ColorVec = Vec::new();
        path.push(0);
        path.push(1);
        let first = if target > 2 {
            allowed_colors(&path, colors)
        } else {
            Vec::new()
        };
        let mut pending: Vec<Vec<u8>> = Vec::new();
        pending.push(first);
        let bt = Backtracker { colors, target, path, pending };
        proof {
            assert(bt.path@ =~= seq![0u8, 1u8]);
            assert(bt.level_ok(0));
            assert(is_solution(bt.path@, colors, 2));
            assert forall|s: Seq<u8>, j: int| #[trigger] bt.covers(s, j) by {
                if is_solution(s, colors, target as nat) && j == 2 && target > 2 {
                    lemma_next_color_allowed(s, bt.path@);
                }
            }
        }
        bt
    }

    /// Whether the path is a full coloring, and with it a solution.
    pub fn is_complete(&self) -> (done: bool)
        requires
            self.wf(),
        ensures
            done == self.complete(),
            done ==> is_solution(self.path@, self.colors, self.target as nat),
    {
        self.path.len() == self.target
    }

    /// The number of colors still untried at the position after the path.
    pub fn choices(&self) -> (n: usize)
        requires
            self.wf(),
        ensures
            n == self.untried().len(),
    {
        self.pending[self.pending.len() - 1].len()
    }

    /// Hands out the path.
    pub fn into_path(self) -> (path: ColorVec)
        ensures
            path == self.path,
    {
        self.path
    }

    /// One step of the search. Where colors are left at the position after
    /// the path, the one at index `pick` among them extends the path;
    /// where none is left, the search goes back by one position. It
    /// returns `false` when there is no position to go back to: then the
    /// whole tree has been searched, and there is no solution.
    pub fn step(&mut self, pick: usize) -> (alive: bool)
        requires
            old(self).wf(),
            !old(self).complete(),
            pick < old(self).untried().len() || old(self).untried().len() == 0,
        ensures
            final(self).colors == old(self).colors,
            final(self).target == old(self).target,
            alive ==> final(self).wf(),
            alive ==> 0 <= final(self).remaining() < old(self).remaining(),
            alive && pick == 0 && old(self).lowest() ==> final(self).lowest(),
            !alive ==> !satisfiable(old(self).colors, old(self).target as nat),
            stepped(*old(self), pick as int, alive, *final(self)),
    {
        if self.choices() == 0 {
            self.retreat()
        } else {
            self.advance(pick);
            true
        }
    }

    /// Goes back by one position, unless the path is down to its fixed
    /// beginning.
    fn retreat(&mut self) -> (alive: bool)
        requires
            old(self).wf(),
            !old(self).complete(),
            old(self).untried().len() == 0,
        ensures
            final(self).colors == old(self).colors,
            final(self).target == old(self).target,
            alive ==> final(self).wf(),
            alive ==> 0 <= final(self).remaining() < old(self).remaining(),
            alive && old(self).lowest() ==> final(self).lowest(),
            !alive ==> !satisfiable(old(self).colors, old(self).target as nat),
            stepped(*old(self), 0, alive, *final(self)),
    {
        let ghost before = *self;
        let ghost base = self.colors + 1;
        let ghost top = self.target - 2;
        proof {
            before.lemma_remaining_positive();
        }
        if self.path.len() == 2 {
            proof {
                assert forall|s: Seq<u8>| !#[trigger] is_solution(
                    s,
                    before.colors,
                    before.target as nat,
                ) by {
                    assert(before.covers(s, 2));
                }
            }
            return false;
        }
        let list = self.pending.pop().unwrap();
        let ghost below = self.pending@;
        assert(before.pending@ =~= below.push(list));
        let last = self.path.pop().unwrap();
        proof {
            let n = below.len() as int;
            assert(before.path@ =~= self.path@.push(last));
            lemma_passes_prefix(before.path@, self.path.len() as int);
            assert(before.path@.take(self.path.len() as int) =~= self.path@);
            assert forall|k: int| 0 <= k < self.pending.len() implies #[trigger] self.level_ok(
                k,
            ) by {
                assert(before.level_ok(k));
                let l = self.pending[k]@;
                assert forall|i: int| 0 <= i < l.len() implies !blocked(
                    self.path@,
                    k + 2,
                    #[trigger] l[i],
                ) by {
                    lemma_blocked_prefix(before.path@, self.path@, k + 2, l[i]);
                }
            }
            assert forall|s: Seq<u8>, j: int| #[trigger] self.covers(s, j) by {
                if is_solution(s, self.colors, self.target as nat) && 2 <= j
                    <= self.path.len() && agree(s, self.path@, j) {
                    assert(agree(s, before.path@, j));
                    assert(before.covers(s, j));
                    if j == self.path.len() && s[j] == before.path[j] {
                        assert(agree(s, before.path@, j + 1));
                        assert(before.covers(s, j + 1));
                    }
                }
            }
            // The position given up counted for `colors` at its weight; the
            // position below it now counts one more at the next weight.
            let d_old = done_counts(before.pending@, before.colors as int);
            let d_new = done_counts(self.pending@, self.colors as int);
            let stem = d_new.drop_last();
            let a = d_new.last();
            assert(d_new =~= stem.push(a));
            assert(d_old =~= stem.push(a - 1).push(self.colors as int));
            lemma_total_push(stem, a, top, base);
            lemma_total_push(stem, a - 1, top, base);
            lemma_total_push(stem.push(a - 1), self.colors as int, top, base);
            let e = (top - n) as nat;
            let w = weight(base, e);
            lemma_weight_positive(base, e);
            let hi = weight(base, (top - stem.len()) as nat);
            assert(hi == base * w);
            assert(a * hi - ((a - 1) * hi + self.colors * w) == w) by (nonlinear_arith)
                requires
                    hi == base * w,
                    base == self.colors + 1,
            ;
            self.lemma_remaining_positive();
            assert(self.path@ =~= before.path@.drop_last());
            assert(self.pending@ =~= before.pending@.drop_last());
        }
        true
    }

    /// Extends the path with the untried color at index `pick`.
    fn advance(&mut self, pick: usize)
        requires
            old(self).wf(),
            !old(self).complete(),
            pick < old(self).untried().len(),
        ensures
            final(self).colors == old(self).colors,
            final(self).target == old(self).target,
            final(self).wf(),
            0 <= final(self).remaining() < old(self).remaining(),
            pick == 0 && old(self).lowest() ==> final(self).lowest(),
            stepped(*old(self), pick as int, true, *final(self)),
    {
        let ghost before = *self;
        let ghost base = self.colors + 1;
        let ghost top = self.target - 2;
        proof {
            before.lemma_remaining_positive();
        }
        let mut list = self.pending.pop().unwrap();
        let ghost below = self.pending@;
        assert(before.pending@ =~= below.push(list));
        assert(before.level_ok(below.len() as int));
        let ghost full = list@;
        let color = list.remove(pick);
        self.path.push(color);
        let ghost rest = list@;
        self.pending.push(list);
        let next = if self.path.len() < self.target {
            allowed_colors(&self.path, self.colors)
        } else {
            Vec::new()
        };
        self.pending.push(next);
        proof {
            let n = below.len() as int;
            assert(rest =~= full.remove(pick as int));
            assert(full[pick as int] == color);
            assert(before.path@.push(color) =~= self.path@);
            lemma_passes_push(before.path@, color);
            assert(is_solution(self.path@, self.colors, self.path.len() as nat));
            assert forall|k: int| 0 <= k < self.pending.len() implies #[trigger] self.level_ok(
                k,
            ) by {
                let l = self.pending[k]@;
                if k < n {
                    assert(before.level_ok(k));
                    assert forall|i: int| 0 <= i < l.len() implies !blocked(
                        self.path@,
                        k + 2,
                        #[trigger] l[i],
                    ) by {
                        lemma_blocked_prefix(before.path@, self.path@, k + 2, l[i]);
                    }
                } else if k == n {
                    assert(before.level_ok(n));
                    assert forall|i: int, j: int| 0 <= i < j < rest.len() implies rest[i]
                        < rest[j] by {
                        let ii = if i < pick { i } else { i + 1 };
                        let jj = if j < pick { j } else { j + 1 };
                        assert(rest[i] == full[ii] && rest[j] == full[jj]);
                    }
                    assert forall|i: int| 0 <= i < rest.len() implies #[trigger] rest[i]
                        < self.colors && !blocked(self.path@, k + 2, rest[i]) by {
                        let ii = if i < pick { i } else { i + 1 };
                        assert(rest[i] == full[ii]);
                        lemma_blocked_prefix(before.path@, self.path@, k + 2, rest[i]);
                    }
                }
            }
            assert(self.pending.len() == self.path.len() - 1);
            assert forall|s: Seq<u8>, j: int| #[trigger] self.covers(s, j) by {
                if is_solution(s, self.colors, self.target as nat) && 2 <= j
                    <= self.path.len() && agree(s, self.path@, j) {
                    if j < before.path.len() {
                        assert(agree(s, before.path@, j));
                        assert(before.covers(s, j));
                    } else if j == before.path.len() {
                        assert(agree(s, before.path@, j));
                        assert(before.covers(s, j));
                        if s[j] != color {
                            let at = choose|at: int| 0 <= at < full.len() && full[at] == s[j];
                            let to = if at < pick { at } else { at - 1 };
                            assert(rest[to] == s[j]);
                        }
                    } else if j < self.target {
                        lemma_next_color_allowed(s, self.path@);
                    }
                }
            }
            let d_old = done_counts(before.pending@, before.colors as int);
            let d_new = done_counts(self.pending@, self.colors as int);
            let fresh = self.colors - next.len();
            assert(d_new =~= d_old.push(fresh));
            lemma_total_push(d_old, fresh, top, base);
            let e = (top - d_old.len()) as nat;
            let w = weight(base, e);
            lemma_weight_positive(base, e);
            assert(fresh * w >= 0) by (nonlinear_arith)
                requires
                    fresh >= 0,
                    w >= 1,
            ;
            self.lemma_remaining_positive();
            assert(self.fresh()) by {
                let last = self.pending[self.pending.len() - 1]@;
                assert(last == next@);
                if self.path.len() < self.target {
                    assert forall|c: u8| last.contains(c) implies c < self.colors && !blocked(
                        self.path@,
                        self.path.len() as int,
                        c,
                    ) by {
                        let at = choose|at: int| 0 <= at < last.len() && last[at] == c;
                        assert(next[at] < self.colors);
                    }
                }
            }
            if pick == 0 && before.lowest() {
                assert forall|k: int, i: int|
                    0 <= k < self.pending.len() - 1 && 0 <= i < self.pending[k].len()
                    implies self.path[k + 2] < #[trigger] self.pending[k][i] by {
                    if k < n {
                        assert(before.path[k + 2] < before.pending[k][i]);
                    } else {
                        assert(rest[i] == full[i + 1]);
                    }
                }
            }
        }
    }

    /// With the smallest untried color taken at every step, the first full
    /// coloring that the search reaches is the first solution in
    /// lexicographic order.
    pub proof fn lemma_lowest_is_first(&self, s: Seq<u8>)
        requires
            self.wf(),
            self.lowest(),
            self.complete(),
            is_solution(s, self.colors, self.target as nat),
        ensures
            s == self.path@ || lex_lt(self.path@, s),
    {
        self.lemma_follow(s, 2);
    }

    proof fn lemma_follow(&self, s: Seq<u8>, j: int)
        requires
            self.wf(),
            self.lowest(),
            self.complete(),
            is_solution(s, self.colors, self.target as nat),
            2 <= j <= self.target,
            agree(s, self.path@, j),
        ensures
            s == self.path@ || lex_lt(self.path@, s),
        decreases self.target - j,
    {
        if j == self.target {
            assert(s =~= self.path@);
        } else {
            assert(self.covers(s, j));
            if s[j] == self.path[j] {
                self.lemma_follow(s, j + 1);
            } else {
                let list = self.pending[j - 2]@;
                let i = choose|i: int| 0 <= i < list.len() && list[i] == s[j];
                assert(self.path[j] < self.pending[j - 2][i]);
                assert(agree(self.path@, s, j));
                assert(smaller_at(self.path@, s, j));
            }
        }
    }
}

} // verus!
