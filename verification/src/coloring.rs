//! The coloring model: what a coloring is, which triples it must avoid,
//! what the strategies look for, and how colorings are written down.

use vstd::prelude::*;
use vstd::string::*;

verus! {

/// A coloring of the integers `1..=n`: position `i` holds the color of the
/// integer `i + 1`.
pub type ColorVec = Vec<u8>;

/// The letters that stand for the colors in the short form of a coloring:
/// as many as there can be colors.
pub const COLOR_LETTERS: &'static str = "ABCDEFGHIJKLMNOPQRSTUVWXYZ";

/// The integers `x <= y` and their sum all carry one color.
pub open spec fn monochromatic(c: Seq<u8>, x: int, y: int) -> bool {
    &&& 1 <= x <= y
    &&& x + y <= c.len()
    &&& c[x - 1] == c[y - 1]
    &&& c[y - 1] == c[x + y - 1]
}

/// No Schur triple within the colored range is monochromatic.
pub open spec fn schur_valid(c: Seq<u8>) -> bool {
    forall|x: int, y: int| !#[trigger] monochromatic(c, x, y)
}

/// The pair `x`, `pos + 1 - x` of earlier integers is entirely of color
/// `color`, so that `color` at position `pos` would close a triple.
pub open spec fn pair_blocks(c: Seq<u8>, pos: int, color: u8, x: int) -> bool {
    &&& 1 <= x
    &&& 2 * x <= pos + 1
    &&& pos <= c.len()
    &&& c[x - 1] == color
    &&& c[pos - x] == color
}

/// Giving `color` to position `pos` would close a monochromatic triple with
/// the positions before it.
pub open spec fn blocked(c: Seq<u8>, pos: int, color: u8) -> bool {
    exists|x: int| #[trigger] pair_blocks(c, pos, color, x)
}

/// The integer `z` is the largest member of a monochromatic triple.
pub open spec fn violated_at(c: Seq<u8>, z: int) -> bool {
    1 <= z <= c.len() && blocked(c, z - 1, c[z - 1])
}

/// What the checker accepts: no integer from 3 up is the sum of a
/// monochromatic triple.
pub open spec fn passes(c: Seq<u8>) -> bool {
    forall|z: int| 3 <= z <= c.len() ==> !#[trigger] violated_at(c, z)
}

/// A coloring as the strategies build it: `target` colors below `colors`,
/// with the integer 1 in color 0 and the integer 2 in color 1. Fixing these
/// two leaves out the colorings that differ only by renaming colors.
pub open spec fn is_candidate(c: Seq<u8>, colors: u8, target: nat) -> bool {
    &&& c.len() == target
    &&& forall|i: int| 0 <= i < c.len() ==> c[i] < colors
    &&& target >= 1 ==> c[0] == 0
    &&& target >= 2 ==> c[1] == 1
}

/// A candidate that the checker accepts.
pub open spec fn is_solution(c: Seq<u8>, colors: u8, target: nat) -> bool {
    is_candidate(c, colors, target) && passes(c)
}

/// Some coloring of `1..=target` with `colors` colors is a solution.
pub open spec fn satisfiable(colors: u8, target: nat) -> bool {
    exists|c: Seq<u8>| #[trigger] is_solution(c, colors, target)
}

/// There are enough colors for the two fixed positions that `target` has.
pub open spec fn seedable(colors: u8, target: nat) -> bool {
    target == 0 || colors >= 2 || (target == 1 && colors == 1)
}

/// `a` and `b` hold the same colors at the first `j` positions.
pub open spec fn agree(a: Seq<u8>, b: Seq<u8>, j: int) -> bool {
    forall|i: int| 0 <= i < j ==> a[i] == b[i]
}

/// `a` and `b` agree before position `j`, where `a` has the smaller color.
pub open spec fn smaller_at(a: Seq<u8>, b: Seq<u8>, j: int) -> bool {
    &&& 0 <= j < a.len()
    &&& j < b.len()
    &&& agree(a, b, j)
    &&& a[j] < b[j]
}

/// `a` comes before `b` in lexicographic order.
pub open spec fn lex_lt(a: Seq<u8>, b: Seq<u8>) -> bool {
    exists|j: int| #[trigger] smaller_at(a, b, j)
}

/// Whether `color` is blocked at `pos` depends on the positions before `pos`
/// only.
pub proof fn lemma_blocked_prefix(a: Seq<u8>, b: Seq<u8>, pos: int, color: u8)
    requires
        0 <= pos <= a.len(),
        pos <= b.len(),
        forall|i: int| 0 <= i < pos ==> a[i] == b[i],
    ensures
        blocked(a, pos, color) == blocked(b, pos, color),
{
    if blocked(a, pos, color) {
        let x = choose|x: int| #[trigger] pair_blocks(a, pos, color, x);
        assert(pair_blocks(b, pos, color, x));
    }
    if blocked(b, pos, color) {
        let x = choose|x: int| #[trigger] pair_blocks(b, pos, color, x);
        assert(pair_blocks(a, pos, color, x));
    }
}

/// A coloring that passes still passes when cut short.
pub proof fn lemma_passes_prefix(c: Seq<u8>, k: int)
    requires
        passes(c),
        0 <= k <= c.len(),
    ensures
        passes(c.take(k)),
{
    let p = c.take(k);
    assert forall|z: int| 3 <= z <= p.len() implies !#[trigger] violated_at(p, z) by {
        lemma_blocked_prefix(p, c, z - 1, c[z - 1]);
        assert(!violated_at(c, z));
    }
}

/// Appending one color keeps a coloring passing exactly when that color is
/// not blocked at the new position (the first two positions cannot fail).
pub proof fn lemma_passes_push(p: Seq<u8>, color: u8)
    requires
        passes(p),
    ensures
        passes(p.push(color)) <==> (p.len() < 2 || !blocked(p, p.len() as int, color)),
{
    let q = p.push(color);
    let n = p.len() as int;
    lemma_blocked_prefix(p, q, n, color);
    assert(violated_at(q, n + 1) == blocked(p, n, color));
    if n < 2 || !blocked(p, n, color) {
        assert forall|z: int| 3 <= z <= q.len() implies !#[trigger] violated_at(q, z) by {
            if z <= n {
                lemma_blocked_prefix(p, q, z - 1, p[z - 1]);
                assert(!violated_at(p, z));
            }
        }
    } else {
        assert(violated_at(q, n + 1));
    }
}

/// A coloring that passes and follows `path` goes on, at the position after
/// it, with a color that is not blocked there.
pub proof fn lemma_next_color_allowed(s: Seq<u8>, path: Seq<u8>)
    requires
        2 <= path.len() < s.len(),
        passes(s),
        agree(s, path, path.len() as int),
    ensures
        !blocked(path, path.len() as int, s[path.len() as int]),
{
    let n = path.len() as int;
    assert(!violated_at(s, n + 1));
    lemma_blocked_prefix(s, path, n, s[n]);
}

/// Colorings of at most two integers hold no triple that the checker looks
/// at, so all of them pass.
pub proof fn lemma_short_colorings_pass(c: Seq<u8>)
    requires
        c.len() <= 2,
    ensures
        passes(c),
{
}

/// The first sum that the checker looks at is 1 + 2 = 3, and a candidate
/// has the integers 1 and 2 in different colors: every candidate of at most
/// three integers passes.
pub proof fn lemma_candidates_up_to_three_pass(c: Seq<u8>, colors: u8, target: nat)
    requires
        is_candidate(c, colors, target),
        target <= 3,
    ensures
        passes(c),
{
    assert forall|z: int| 3 <= z <= c.len() implies !#[trigger] violated_at(c, z) by {
        if violated_at(c, z) {
            let x = choose|x: int| #[trigger] pair_blocks(c, 2, c[2], x);
            assert(x == 1);
        }
    }
}

/// Among colorings that give the integers 1 and 2 different colors, the
/// ones that pass are exactly those without any monochromatic Schur triple.
pub proof fn lemma_passes_is_schur_valid(c: Seq<u8>)
    requires
        c.len() >= 2 ==> c[0] != c[1],
    ensures
        passes(c) <==> schur_valid(c),
{
    if passes(c) {
        assert forall|x: int, y: int| !#[trigger] monochromatic(c, x, y) by {
            if monochromatic(c, x, y) {
                let z = x + y;
                assert(pair_blocks(c, z - 1, c[z - 1], x));
                assert(violated_at(c, z));
            }
        }
    }
    if schur_valid(c) {
        assert forall|z: int| 3 <= z <= c.len() implies !#[trigger] violated_at(c, z) by {
            if violated_at(c, z) {
                let x = choose|x: int| #[trigger] pair_blocks(c, z - 1, c[z - 1], x);
                assert(monochromatic(c, x, z - x));
            }
        }
    }
}

/// Every solution is free of monochromatic Schur triples, and begins with
/// color 0 followed by color 1.
pub proof fn lemma_solution_is_normalized(c: Seq<u8>, colors: u8, target: nat)
    requires
        is_solution(c, colors, target),
    ensures
        schur_valid(c),
        target >= 1 ==> c[0] == 0,
        target >= 2 ==> c[1] == 1,
{
    lemma_passes_is_schur_valid(c);
}

/// A candidate exists only where the two fixed colors are available.
pub proof fn lemma_solution_needs_seed(s: Seq<u8>, colors: u8, target: nat)
    requires
        is_candidate(s, colors, target),
    ensures
        seedable(colors, target),
{
    if target >= 2 {
        assert(s[1] < colors);
    } else if target == 1 {
        assert(s[0] < colors);
    }
}

/// The first `depth` colors of a solution are a solution for `depth`.
pub proof fn lemma_solution_prefix(s: Seq<u8>, colors: u8, target: nat, depth: nat)
    requires
        is_solution(s, colors, target),
        depth <= target,
    ensures
        is_solution(s.take(depth as int), colors, depth),
{
    lemma_passes_prefix(s, depth as int);
}

/// Of two colorings, at most one comes before the other.
pub proof fn lemma_lex_lt_asymmetric(a: Seq<u8>, b: Seq<u8>)
    requires
        lex_lt(a, b),
    ensures
        !lex_lt(b, a),
        a != b,
{
    let i = choose|i: int| #[trigger] smaller_at(a, b, i);
    if lex_lt(b, a) {
        let j = choose|j: int| #[trigger] smaller_at(b, a, j);
        if i < j {
            assert(b[i] == a[i]);
        } else if j < i {
            assert(a[j] == b[j]);
        }
    }
}

/// The short form of a coloring: for each position the letter of its color.
pub open spec fn short_form(c: Seq<u8>) -> Seq<char> {
    Seq::new(c.len(), |i: int| COLOR_LETTERS@[c[i] as int])
}

/// Writes a coloring in its short form, one letter for each position. Each
/// color must have a letter.
pub fn short(coloring: &ColorVec) -> (text: String)
    requires
        forall|i: int| 0 <= i < coloring.len() ==> coloring[i] < COLOR_LETTERS@.len(),
    ensures
        text@ == short_form(coloring@),
{
    proof {
        reveal_strlit("ABCDEFGHIJKLMNOPQRSTUVWXYZ");
    }
    assert(COLOR_LETTERS.is_ascii());
    let mut text = String::new();
    let mut i: usize = 0;
    while i < coloring.len()
        invariant
            i <= coloring.len(),
            COLOR_LETTERS@.len() == 26,
            COLOR_LETTERS.is_ascii(),
            forall|i: int| 0 <= i < coloring.len() ==> coloring[i] < 26,
            text@ == short_form(coloring@.take(i as int)),
        decreases coloring.len() - i,
    {
        let color = coloring[i] as usize;
        text.append(COLOR_LETTERS.substring_ascii(color, color + 1));
        assert(text@ =~= short_form(coloring@.take(i + 1)));
        i += 1;
    }
    assert(coloring@.take(coloring.len() as int) =~= coloring@);
    text
}

/// There is a letter for each of 26 colors, and for no more.
pub proof fn lemma_color_letters()
    ensures
        COLOR_LETTERS@.len() == 26,
        COLOR_LETTERS@[0] == 'A',
        COLOR_LETTERS@[25] == 'Z',
{
    reveal_strlit("ABCDEFGHIJKLMNOPQRSTUVWXYZ");
}

} // verus!
