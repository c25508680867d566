//! Exhaustive search: depth first and breadth first over the tree of
//! partial colorings. A branch ends where the color of a new position
//! closes a monochromatic triple with the positions before it.

use vstd::prelude::*;
use crate::args::Args;
use crate::backtrack::Backtracker;
use crate::coloring::{
    agree, blocked, is_solution, lemma_lex_lt_asymmetric, lemma_next_color_allowed,
    lemma_passes_push, lemma_solution_needs_seed, lemma_solution_prefix, lex_lt, satisfiable,
    smaller_at, ColorVec,
};
use crate::extension::{allowed_colors, ascending, seed};

verus! {

/// `c` is the solution that comes first in lexicographic order.
pub open spec fn first_solution(c: Seq<u8>, colors: u8, target: nat) -> bool {
    &&& is_solution(c, colors, target)
    &&& forall|s: Seq<u8>| #[trigger] is_solution(s, colors, target) ==> s == c || lex_lt(c, s)
}

/// `found` lists every solution once, in lexicographic order.
pub open spec fn all_solutions(found: Seq<ColorVec>, colors: u8, target: nat) -> bool {
    &&& forall|k: int| 0 <= k < found.len() ==> is_solution(#[trigger] found[k]@, colors, target)
    &&& forall|s: Seq<u8>| #[trigger]
        is_solution(s, colors, target) ==> exists|k: int|
            0 <= k < found.len() && #[trigger] found[k]@ == s
    &&& forall|i: int, j: int|
        0 <= i < j < found.len() ==> lex_lt(#[trigger] found[i]@, #[trigger] found[j]@)
}

/// What depth-first search returns: the first solution in lexicographic
/// order where there is a solution, and nothing where there is none.
pub open spec fn depth_first_outcome(
    colors: u8,
    target: nat,
    outcome: Option<Vec<ColorVec>>,
) -> bool {
    &&& outcome is Some <==> satisfiable(colors, target)
    &&& outcome matches Some(found) ==> found.len() == 1 && first_solution(
        found[0]@,
        colors,
        target,
    )
}

/// What breadth-first search returns: all solutions in lexicographic order
/// where there is one, and nothing where there is none.
pub open spec fn breadth_first_outcome(
    colors: u8,
    target: nat,
    outcome: Option<Vec<ColorVec>>,
) -> bool {
    &&& outcome is Some <==> satisfiable(colors, target)
    &&& outcome matches Some(found) ==> all_solutions(found@, colors, target)
}

/// Depth-first and breadth-first search agree on whether there is a
/// solution: either both find one, or both come back with nothing.
pub proof fn lemma_searches_agree(
    colors: u8,
    target: nat,
    depth: Option<Vec<ColorVec>>,
    breadth: Option<Vec<ColorVec>>,
)
    requires
        depth_first_outcome(colors, target, depth),
        breadth_first_outcome(colors, target, breadth),
    ensures
        depth is Some <==> breadth is Some,
        depth matches Some(d) ==> breadth matches Some(b) && b[0]@ == d[0]@,
{
    if let Some(d) = depth {
        assert(is_solution(d[0]@, colors, target));
        if let Some(b) = breadth {
            let first = b[0]@;
            assert(is_solution(first, colors, target));
            let k = choose|k: int| 0 <= k < b.len() && #[trigger] b[k]@ == d[0]@;
            if k > 0 {
                assert(lex_lt(b[0]@, b[k]@));
                lemma_lex_lt_asymmetric(first, d[0]@);
            }
        }
    }
    if let Some(b) = breadth {
        assert(is_solution(b[0]@, colors, target));
    }
}

/// Searches depth first, trying the colors of each position in ascending
/// order, and returns the first full coloring that it reaches. `attempts`
/// plays no part.
pub fn depth_first(args: &Args) -> (outcome: Option<Vec<ColorVec>>)
    ensures
        depth_first_outcome(args.colors, args.target as nat, outcome),
{
    let colors = args.colors;
    let target = args.target;
    let mut found: Vec<ColorVec> = Vec::new();
    if target <= 2 || colors < 2 {
        match seed(colors, target) {
            None => {
                proof {
                    assert forall|s: Seq<u8>| !#[trigger] is_solution(s, colors, target as nat) by {
                        if is_solution(s, colors, target as nat) {
                            lemma_solution_needs_seed(s, colors, target as nat);
                        }
                    }
                }
                return None;
            },
            Some(prefix) => {
                proof {
                    assert forall|s: Seq<u8>| #[trigger]
                        is_solution(s, colors, target as nat) implies s == prefix@ by {
                        assert(s =~= prefix@);
                    }
                }
                found.push(prefix);
                return Some(found);
            },
        }
    }
    let mut bt = Backtracker::new(colors, target);
    loop
        invariant
            bt.wf(),
            bt.lowest(),
            bt.colors == colors,
            bt.target == target,
            colors == args.colors,
            target == args.target,
            found.len() == 0,
        decreases bt.remaining(),
    {
        if bt.is_complete() {
            proof {
                assert forall|s: Seq<u8>| #[trigger]
                    is_solution(s, colors, target as nat) implies s == bt.path@ || lex_lt(
                    bt.path@,
                    s,
                ) by {
                    bt.lemma_lowest_is_first(s);
                }
            }
            found.push(bt.into_path());
            assert(is_solution(found[0]@, colors, target as nat));
            return Some(found);
        }
        if !bt.step(0) {
            return None;
        }
    }
}

/// While a level is being expanded: `g` extends a parent before the one at
/// `k`, or the parent at `k` with a color below `limit`.
pub open spec fn placed(g: Seq<u8>, level: Seq<ColorVec>, depth: int, k: int, limit: int) -> bool {
    ||| exists|e: int| 0 <= e < k && e < level.len() && agree(g, #[trigger] level[e]@, depth)
    ||| k < level.len() && agree(g, level[k]@, depth) && g[depth] < limit
}

/// While a level is being expanded: `next` lists, in lexicographic order,
/// exactly the solutions for `depth + 1` that extend a parent before the
/// one at `k`, or the parent at `k` with a color below `limit`.
pub open spec fn expanded(
    next: Seq<ColorVec>,
    level: Seq<ColorVec>,
    colors: u8,
    depth: nat,
    k: int,
    limit: int,
) -> bool {
    &&& forall|m: int|
        0 <= m < next.len() ==> is_solution(#[trigger] next[m]@, colors, depth + 1) && placed(
            next[m]@,
            level,
            depth as int,
            k,
            limit,
        )
    &&& forall|s: Seq<u8>| #[trigger]
        is_solution(s, colors, depth + 1) && placed(s, level, depth as int, k, limit)
            ==> exists|m: int| 0 <= m < next.len() && #[trigger] next[m]@ == s
    &&& forall|i: int, j: int|
        0 <= i < j < next.len() ==> lex_lt(#[trigger] next[i]@, #[trigger] next[j]@)
}

/// `options` holds, in ascending order, exactly the colors that may follow
/// `parent`.
pub open spec fn options_of(options: Seq<u8>, parent: Seq<u8>, colors: u8) -> bool {
    &&& ascending(options)
    &&& forall|x: int|
        0 <= x < options.len() ==> #[trigger] options[x] < colors && !blocked(
            parent,
            parent.len() as int,
            options[x],
        )
    &&& forall|color: u8|
        color < colors && !blocked(parent, parent.len() as int, color) ==> options.contains(color)
}

/// What comes before `g` in the expansion comes before the child that
/// extends the parent at `k` with `color`.
proof fn lemma_child_after(
    g: Seq<u8>,
    level: Seq<ColorVec>,
    colors: u8,
    depth: nat,
    k: int,
    color: u8,
)
    requires
        all_solutions(level, colors, depth),
        0 <= k < level.len(),
        g.len() == depth + 1,
        placed(g, level, depth as int, k, color as int),
    ensures
        lex_lt(g, level[k]@.push(color)),
{
    let child = level[k]@.push(color);
    assert(is_solution(level[k]@, colors, depth));
    if agree(g, level[k]@, depth as int) && g[depth as int] < color {
        assert(smaller_at(g, child, depth as int));
    } else {
        let e = choose|e: int|
            0 <= e < k && e < level.len() && agree(g, #[trigger] level[e]@, depth as int);
        assert(lex_lt(level[e]@, level[k]@));
        let j = choose|j: int| #[trigger] smaller_at(level[e]@, level[k]@, j);
        assert(is_solution(level[e]@, colors, depth));
        assert(smaller_at(g, child, j));
    }
}

/// The limit may rise over colors that cannot follow the parent at `k`.
proof fn lemma_expanded_raise(
    next: Seq<ColorVec>,
    level: Seq<ColorVec>,
    colors: u8,
    depth: nat,
    k: int,
    from: int,
    to: int,
    options: Seq<u8>,
)
    requires
        2 <= depth,
        all_solutions(level, colors, depth),
        0 <= k < level.len(),
        options_of(options, level[k]@, colors),
        expanded(next, level, colors, depth, k, from),
        from <= to,
        forall|x: int| 0 <= x < options.len() ==> #[trigger] options[x] < from || options[x] >= to,
    ensures
        expanded(next, level, colors, depth, k, to),
{
    let parent = level[k]@;
    assert(is_solution(parent, colors, depth));
    assert forall|m: int| 0 <= m < next.len() implies placed(
        #[trigger] next[m]@,
        level,
        depth as int,
        k,
        to,
    ) by {
        assert(placed(next[m]@, level, depth as int, k, from));
    }
    assert forall|s: Seq<u8>| #[trigger]
        is_solution(s, colors, depth + 1) && placed(
            s,
            level,
            depth as int,
            k,
            to,
        ) implies exists|m: int| 0 <= m < next.len() && #[trigger] next[m]@ == s by {
        if !placed(s, level, depth as int, k, from) {
            lemma_placed_same_parent(s, level, depth as int, k, from, to);
            lemma_next_color_allowed(s, parent);
            assert(options.contains(s[depth as int]));
        }
    }
}

/// The child that extends the parent at `k` with the color at the limit
/// takes its place at the end, and the limit moves past its color.
proof fn lemma_expanded_push(
    next: Seq<ColorVec>,
    level: Seq<ColorVec>,
    colors: u8,
    depth: nat,
    k: int,
    color: u8,
    child: ColorVec,
)
    requires
        2 <= depth,
        all_solutions(level, colors, depth),
        0 <= k < level.len(),
        expanded(next, level, colors, depth, k, color as int),
        color < colors,
        !blocked(level[k]@, depth as int, color),
        child@ == level[k]@.push(color),
    ensures
        expanded(next.push(child), level, colors, depth, k, color + 1),
{
    let parent = level[k]@;
    let grown = next.push(child);
    assert(is_solution(parent, colors, depth));
    lemma_passes_push(parent, color);
    assert(is_solution(child@, colors, depth + 1));
    assert(agree(child@, parent, depth as int));
    assert forall|m: int| 0 <= m < grown.len() implies is_solution(
        #[trigger] grown[m]@,
        colors,
        depth + 1,
    ) && placed(grown[m]@, level, depth as int, k, color + 1) by {
        if m < next.len() {
            assert(grown[m] == next[m]);
            assert(placed(next[m]@, level, depth as int, k, color as int));
        }
    }
    assert forall|s: Seq<u8>| #[trigger]
        is_solution(s, colors, depth + 1) && placed(
            s,
            level,
            depth as int,
            k,
            color + 1,
        ) implies exists|m: int| 0 <= m < grown.len() && #[trigger] grown[m]@ == s by {
        if placed(s, level, depth as int, k, color as int) {
            let m = choose|m: int| 0 <= m < next.len() && #[trigger] next[m]@ == s;
            assert(grown[m]@ == s);
        } else {
            lemma_placed_same_parent(s, level, depth as int, k, color as int, color + 1);
            assert(s =~= child@);
            assert(grown[next.len() as int]@ == s);
        }
    }
    assert forall|i: int, j: int| 0 <= i < j < grown.len() implies lex_lt(
        #[trigger] grown[i]@,
        #[trigger] grown[j]@,
    ) by {
        assert(grown[i] == next[i]);
        if j < next.len() {
            assert(grown[j] == next[j]);
        } else {
            lemma_child_after(next[i]@, level, colors, depth, k, color);
        }
    }
}

/// With all colors of the parent at `k` done, the parent after it is next.
proof fn lemma_expanded_next_parent(
    next: Seq<ColorVec>,
    level: Seq<ColorVec>,
    colors: u8,
    depth: nat,
    k: int,
)
    requires
        0 <= k < level.len(),
        expanded(next, level, colors, depth, k, 256),
    ensures
        expanded(next, level, colors, depth, k + 1, 0),
{
    assert forall|m: int| 0 <= m < next.len() implies placed(
        #[trigger] next[m]@,
        level,
        depth as int,
        k + 1,
        0,
    ) by {
        let g = next[m]@;
        assert(placed(g, level, depth as int, k, 256));
        if agree(g, level[k]@, depth as int) {
            assert(0 <= k < k + 1 && agree(g, level[k]@, depth as int));
        } else {
            let e = choose|e: int|
                0 <= e < k && e < level.len() && agree(g, #[trigger] level[e]@, depth as int);
            assert(0 <= e < k + 1 && agree(g, level[e]@, depth as int));
        }
    }
    assert forall|s: Seq<u8>| #[trigger]
        is_solution(s, colors, depth + 1) && placed(
            s,
            level,
            depth as int,
            k + 1,
            0,
        ) implies exists|m: int| 0 <= m < next.len() && #[trigger] next[m]@ == s by {
        let e = choose|e: int|
            0 <= e < k + 1 && e < level.len() && agree(s, #[trigger] level[e]@, depth as int);
        if e < k {
            assert(0 <= e < k && agree(s, level[e]@, depth as int));
        }
        assert(placed(s, level, depth as int, k, 256));
    }
}

/// With every parent done, the expansion holds all solutions of the next
/// length.
proof fn lemma_expanded_all(next: Seq<ColorVec>, level: Seq<ColorVec>, colors: u8, depth: nat)
    requires
        all_solutions(level, colors, depth),
        expanded(next, level, colors, depth, level.len() as int, 0),
    ensures
        all_solutions(next, colors, depth + 1),
{
    assert forall|s: Seq<u8>| #[trigger] is_solution(s, colors, depth + 1) implies exists|m: int|
        0 <= m < next.len() && #[trigger] next[m]@ == s by {
        lemma_solution_prefix(s, colors, depth + 1, depth);
        let e = choose|e: int| 0 <= e < level.len() && #[trigger] level[e]@ == s.take(depth as int);
        assert(agree(s, level[e]@, depth as int));
        assert(placed(s, level, depth as int, level.len() as int, 0));
    }
}

/// In an expansion, what extends the parent at `k` at a higher limit only
/// has its color between the two limits.
proof fn lemma_placed_same_parent(
    g: Seq<u8>,
    level: Seq<ColorVec>,
    depth: int,
    k: int,
    limit: int,
    after: int,
)
    requires
        placed(g, level, depth, k, after),
        !placed(g, level, depth, k, limit),
    ensures
        k < level.len(),
        agree(g, level[k]@, depth),
        limit <= g[depth] < after,
{
    if !(k < level.len() && agree(g, level[k]@, depth) && g[depth] < after) {
        let e = choose|e: int|
            0 <= e < k && e < level.len() && agree(g, #[trigger] level[e]@, depth);
        assert(0 <= e < k && e < level.len() && agree(g, level[e]@, depth));
    }
}

/// Adds to `next` the children of the parent at `k`: the parent followed by
/// each color that may follow it, in ascending order.
fn extend_parent(
    next: &mut Vec<ColorVec>,
    level: &Vec<ColorVec>,
    k: usize,
    colors: u8,
    Ghost(depth): Ghost<nat>,
)
    requires
        2 <= depth,
        all_solutions(level@, colors, depth),
        k < level.len(),
        expanded(old(next)@, level@, colors, depth, k as int, 0),
    ensures
        expanded(final(next)@, level@, colors, depth, k + 1, 0),
{
    let options = allowed_colors(&level[k], colors);
    let ghost parent = level[k as int]@;
    assert(is_solution(parent, colors, depth));
    proof {
        let first = if 0 < options.len() { options[0] as int } else { 256 };
        lemma_expanded_raise(next@, level@, colors, depth, k as int, 0, first, options@);
    }
    let mut i: usize = 0;
    while i < options.len()
        invariant
            2 <= depth,
            all_solutions(level@, colors, depth),
            k < level.len(),
            i <= options.len(),
            parent == level[k as int]@,
            parent.len() == depth,
            options_of(options@, parent, colors),
            expanded(
                next@,
                level@,
                colors,
                depth,
                k as int,
                if i < options.len() { options[i as int] as int } else { 256 },
            ),
        decreases options.len() - i,
    {
        let color = options[i];
        let mut child = level[k].clone();
        child.push(color);
        proof {
            let after = if i + 1 < options.len() { options[i + 1] as int } else { 256 };
            assert(child@ =~= parent.push(color));
            lemma_expanded_push(next@, level@, colors, depth, k as int, color, child);
            lemma_expanded_raise(
                next@.push(child),
                level@,
                colors,
                depth,
                k as int,
                color + 1,
                after,
                options@,
            );
        }
        next.push(child);
        i += 1;
    }
    proof {
        lemma_expanded_next_parent(next@, level@, colors, depth, k as int);
    }
}

/// From all solutions for `depth`, in lexicographic order, builds all
/// solutions for `depth + 1`, in lexicographic order.
fn expand(level: &Vec<ColorVec>, colors: u8, Ghost(depth): Ghost<nat>) -> (next: Vec<ColorVec>)
    requires
        2 <= depth,
        all_solutions(level@, colors, depth),
    ensures
        all_solutions(next@, colors, depth + 1),
{
    let mut next: Vec<ColorVec> = Vec::new();
    let mut k: usize = 0;
    while k < level.len()
        invariant
            2 <= depth,
            all_solutions(level@, colors, depth),
            k <= level.len(),
            expanded(next@, level@, colors, depth, k as int, 0),
        decreases level.len() - k,
    {
        extend_parent(&mut next, level, k, colors, Ghost(depth));
        k += 1;
    }
    proof {
        lemma_expanded_all(next@, level@, colors, depth);
    }
    next
}

/// Searches breadth first: from all partial colorings of one length it
/// builds all of the next, until they are full. It returns every solution,
/// in lexicographic order. `attempts` plays no part.
pub fn breadth_first(args: &Args) -> (outcome: Option<Vec<ColorVec>>)
    ensures
        breadth_first_outcome(args.colors, args.target as nat, outcome),
{
    let colors = args.colors;
    let target = args.target;
    let mut level: Vec<ColorVec> = Vec::new();
    match seed(colors, target) {
        None => {
            proof {
                assert forall|s: Seq<u8>| !#[trigger] is_solution(s, colors, target as nat) by {
                    if is_solution(s, colors, target as nat) {
                        lemma_solution_needs_seed(s, colors, target as nat);
                    }
                }
            }
            return None;
        },
        Some(prefix) => {
            proof {
                assert forall|s: Seq<u8>| #[trigger]
                    is_solution(s, colors, prefix.len() as nat) implies s == prefix@ by {
                    assert(s =~= prefix@);
                }
            }
            level.push(prefix);
            assert(level[0]@ == prefix@);
        },
    }
    let mut depth: usize = if target < 2 {
        target
    } else {
        2
    };
    while depth < target
        invariant
            colors == args.colors,
            target == args.target,
            depth <= target,
            depth == target || depth >= 2,
            level.len() > 0,
            all_solutions(level@, colors, depth as nat),
        decreases target - depth,
    {
        let next = expand(&level, colors, Ghost(depth as nat));
        if next.len() == 0 {
            proof {
                assert forall|s: Seq<u8>| !#[trigger] is_solution(s, colors, target as nat) by {
                    if is_solution(s, colors, target as nat) {
                        lemma_solution_prefix(s, colors, target as nat, (depth + 1) as nat);
                    }
                }
            }
            return None;
        }
        level = next;
        depth += 1;
    }
    assert(is_solution(level[0]@, colors, target as nat));
    Some(level)
}

} // verus!
