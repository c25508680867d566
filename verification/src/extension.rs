//! Extending a partial coloring by one position. Only the new position is
//! looked at: the positions before it were checked when they were filled.

use vstd::prelude::*;
use crate::coloring::{blocked, is_solution, pair_blocks, seedable, ColorVec};

verus! {

/// The colors of `s` grow strictly from left to right.
pub open spec fn ascending(s: Seq<u8>) -> bool {
    forall|i: int, j: int| 0 <= i < j < s.len() ==> s[i] < s[j]
}

/// The number of entries of `s` that are set.
pub open spec fn count_true(s: Seq<bool>) -> nat
    decreases s.len(),
{
    if s.len() == 0 {
        0
    } else {
        count_true(s.drop_last()) + if s.last() { 1nat } else { 0nat }
    }
}

proof fn lemma_count_set(s: Seq<bool>, i: int)
    requires
        0 <= i < s.len(),
    ensures
        count_true(s) <= count_true(s.update(i, true)) <= count_true(s) + 1,
    decreases s.len(),
{
    let t = s.update(i, true);
    if i == s.len() - 1 {
        assert(t.drop_last() =~= s.drop_last());
    } else {
        assert(t.drop_last() =~= s.drop_last().update(i, true));
        lemma_count_set(s.drop_last(), i);
    }
}

/// Some pair with first member at most `limit` blocks `color` at `pos`.
pub open spec fn blocked_within(c: Seq<u8>, pos: int, color: u8, limit: int) -> bool {
    exists|x: int| 1 <= x <= limit && #[trigger] pair_blocks(c, pos, color, x)
}

/// The fixed beginning of every candidate for `target`: color 0, then color
/// 1, as far as `target` reaches. There is none when `colors` is too small
/// for it.
pub fn seed(colors: u8, target: usize) -> (prefix: Option<ColorVec>)
    ensures
        prefix is Some <==> seedable(colors, target as nat),
        prefix matches Some(p) ==> {
            &&& p.len() == if target < 2 { target } else { 2 }
            &&& is_solution(p@, colors, p.len() as nat)
        },
{
    let mut p: ColorVec = Vec::new();
    if target >= 1 {
        if colors < 1 {
            return None;
        }
        p.push(0);
    }
    if target >= 2 {
        if colors < 2 {
            return None;
        }
        p.push(1);
    }
    Some(p)
}

/// Finds the smallest `x` such that `x` and `pos + 1 - x` both have `color`,
/// looking only at positions before `pos`.
pub fn closing_pair(coloring: &ColorVec, pos: usize, color: u8) -> (found: Option<usize>)
    requires
        pos <= coloring.len(),
    ensures
        found is None <==> !blocked(coloring@, pos as int, color),
        found matches Some(x) ==> {
            &&& pair_blocks(coloring@, pos as int, color, x as int)
            &&& forall|w: int|
                1 <= w < x ==> !#[trigger] pair_blocks(coloring@, pos as int, color, w)
        },
{
    let mut i: usize = 0;
    while i < pos - i
        invariant
            i <= pos <= coloring.len(),
            forall|w: int| 1 <= w <= i ==> !#[trigger] pair_blocks(coloring@, pos as int, color, w),
        decreases pos - i,
    {
        if coloring[i] == color && coloring[pos - 1 - i] == color {
            assert(pair_blocks(coloring@, pos as int, color, i + 1));
            return Some(i + 1);
        }
        i += 1;
    }
    None
}

/// Marks, for the position after the last one of `coloring`, each color
/// below `colors` that would close a monochromatic triple there. Each pair
/// of earlier positions is looked at once, and bans at most one color.
pub fn banned_colors(coloring: &ColorVec, colors: u8) -> (banned: Vec<bool>)
    ensures
        banned.len() == colors,
        forall|color: u8|
            color < colors ==> banned[color as int] == blocked(
                coloring@,
                coloring.len() as int,
                color,
            ),
        count_true(banned@) <= (coloring.len() + 1) / 2,
{
    let pos = coloring.len();
    let mut banned: Vec<bool> = Vec::new();
    let mut k: u8 = 0;
    while k < colors
        invariant
            k <= colors,
            banned.len() == k,
            forall|j: int| 0 <= j < k ==> !banned[j],
            count_true(banned@) == 0,
        decreases colors - k,
    {
        let ghost before = banned@;
        banned.push(false);
        assert(banned@.drop_last() =~= before);
        k += 1;
    }
    let mut i: usize = 0;
    while i < pos - i
        invariant
            i <= pos,
            2 * i <= pos + 1,
            pos == coloring.len(),
            banned.len() == colors,
            forall|color: u8|
                color < colors ==> banned[color as int] == blocked_within(
                    coloring@,
                    pos as int,
                    color,
                    i as int,
                ),
            count_true(banned@) <= i,
        decreases pos - i,
    {
        let a = coloring[i];
        let ghost before = banned@;
        if a == coloring[pos - 1 - i] && a < colors {
            proof {
                lemma_count_set(banned@, a as int);
            }
            banned.set(a as usize, true);
        }
        assert forall|color: u8| color < colors implies banned[color as int] == blocked_within(
            coloring@,
            pos as int,
            color,
            i + 1,
        ) by {
            let here = pair_blocks(coloring@, pos as int, color, i + 1);
            assert(here == (a == color && coloring[pos - 1 - i] == color));
            assert(before[color as int] == blocked_within(coloring@, pos as int, color, i as int));
            if blocked_within(coloring@, pos as int, color, i + 1) {
                let x = choose|x: int|
                    1 <= x <= i + 1 && #[trigger] pair_blocks(coloring@, pos as int, color, x);
                if x <= i {
                    assert(blocked_within(coloring@, pos as int, color, i as int));
                }
            }
            if blocked_within(coloring@, pos as int, color, i as int) {
                let x = choose|x: int|
                    1 <= x <= i && #[trigger] pair_blocks(coloring@, pos as int, color, x);
                assert(1 <= x <= i + 1 && pair_blocks(coloring@, pos as int, color, x));
            }
        }
        i += 1;
    }
    assert forall|color: u8| color < colors implies banned[color as int] == blocked(
        coloring@,
        pos as int,
        color,
    ) by {
        if blocked(coloring@, pos as int, color) {
            let x = choose|x: int| #[trigger] pair_blocks(coloring@, pos as int, color, x);
            assert(1 <= x <= i && pair_blocks(coloring@, pos as int, color, x));
        }
        if blocked_within(coloring@, pos as int, color, i as int) {
            let x = choose|x: int|
                1 <= x <= i && #[trigger] pair_blocks(coloring@, pos as int, color, x);
            assert(pair_blocks(coloring@, pos as int, color, x));
        }
    }
    banned
}

/// The colors below `colors` that may follow `coloring` without closing a
/// monochromatic triple, smallest first.
pub fn allowed_colors(coloring: &ColorVec, colors: u8) -> (options: Vec<u8>)
    ensures
        ascending(options@),
        forall|k: int|
            0 <= k < options.len() ==> #[trigger] options[k] < colors && !blocked(
                coloring@,
                coloring.len() as int,
                options[k],
            ),
        forall|color: u8|
            color < colors && !blocked(coloring@, coloring.len() as int, color)
                ==> options@.contains(color),
        options.len() <= colors,
        options.len() + (coloring.len() + 1) / 2 >= colors,
{
    let banned = banned_colors(coloring, colors);
    let mut options: Vec<u8> = Vec::new();
    let mut color: u8 = 0;
    while color < colors
        invariant
            color <= colors,
            banned.len() == colors,
            forall|c: u8|
                c < colors ==> banned[c as int] == blocked(coloring@, coloring.len() as int, c),
            ascending(options@),
            forall|k: int|
                0 <= k < options.len() ==> #[trigger] options[k] < color
                    && !banned[options[k] as int],
            forall|c: u8| c < color && !banned[c as int] ==> options@.contains(c),
            options.len() + count_true(banned@.take(color as int)) == color,
        decreases colors - color,
    {
        assert(banned@.take(color + 1).drop_last() =~= banned@.take(color as int));
        if !banned[color as usize] {
            let ghost before = options@;
            options.push(color);
            assert forall|c: u8| c <= color && !banned[c as int] implies options@.contains(c) by {
                if c < color {
                    let k = choose|k: int| 0 <= k < before.len() && before[k] == c;
                    assert(options@[k] == c);
                } else {
                    assert(options@[before.len() as int] == c);
                }
            }
        }
        color += 1;
    }
    assert(banned@.take(colors as int) =~= banned@);
    options
}

} // verus!
