//! The validity checker: scans a coloring for the earliest integer that is
//! the sum of a monochromatic triple.

use vstd::prelude::*;
use vstd::string::*;
use crate::coloring::{
    lemma_passes_is_schur_valid, monochromatic, pair_blocks, passes, schur_valid, violated_at,
    ColorVec,
};
use crate::extension::closing_pair;

verus! {

/// What the checker found wrong: `index` is the position of the smallest
/// integer that closes a monochromatic triple, `message` names the triple.
#[derive(Debug)]
pub struct ViolationError {
    /// The position at which the coloring fails.
    pub index: usize,
    /// The triple that fails there, in words.
    pub message: String,
}

/// What a check comes to: the confirmation, or the first failure.
pub type CheckOutcome = Result<String, ViolationError>;

/// The character for a single decimal digit.
pub open spec fn digit_char(d: int) -> char {
    if d == 0 {
        '0'
    } else if d == 1 {
        '1'
    } else if d == 2 {
        '2'
    } else if d == 3 {
        '3'
    } else if d == 4 {
        '4'
    } else if d == 5 {
        '5'
    } else if d == 6 {
        '6'
    } else if d == 7 {
        '7'
    } else if d == 8 {
        '8'
    } else {
        '9'
    }
}

/// The decimal numeral of `n`, without leading zeros.
pub open spec fn decimal(n: nat) -> Seq<char>
    decreases n,
{
    if n < 10 {
        seq![digit_char(n as int)]
    } else {
        decimal(n / 10).push(digit_char((n % 10) as int))
    }
}

/// The text of the message for the triple `x + y = z` in color `color`.
pub open spec fn violation_text(x: nat, y: nat, z: nat, color: nat) -> Seq<char> {
    decimal(x) + " + "@ + decimal(y) + " = "@ + decimal(z) + " are all in color "@ + decimal(color)
}

/// The text that comes with a coloring that passes.
pub open spec fn confirmation_text() -> Seq<char> {
    "Coloring is valid"@
}

/// The smallest `x` for which `x` and `z - x` have the color of `z`.
pub open spec fn first_pair(c: Seq<u8>, z: int) -> int {
    let pos = z - 1;
    let color = c[pos];
    choose|x: int|
        {
            &&& #[trigger] pair_blocks(c, pos, color, x)
            &&& forall|w: int| 1 <= w < x ==> !#[trigger] pair_blocks(c, pos, color, w)
        }
}

/// `index` is the position of the first integer, from 3 up, that closes a
/// monochromatic triple.
pub open spec fn first_failure(c: Seq<u8>, index: int) -> bool {
    &&& 2 <= index < c.len()
    &&& violated_at(c, index + 1)
    &&& forall|z: int| 3 <= z <= index ==> !#[trigger] violated_at(c, z)
}

/// The message that belongs to a failure at `index`: it names the pair with
/// the smallest first member.
pub open spec fn failure_text(c: Seq<u8>, index: int) -> Seq<char> {
    let x = first_pair(c, index + 1);
    violation_text(x as nat, (index + 1 - x) as nat, (index + 1) as nat, c[index] as nat)
}

/// What a check of `c` comes to: the confirmation where `c` passes, and
/// else the first failure with its message.
pub open spec fn check_outcome(c: Seq<u8>, outcome: CheckOutcome) -> bool {
    match outcome {
        Ok(text) => passes(c) && text@ == confirmation_text(),
        Err(e) => first_failure(c, e.index as int) && e.message@ == failure_text(
            c,
            e.index as int,
        ),
    }
}

/// The checker is right about every coloring of three integers or more in
/// which 1 and 2 have different colors: it confirms the coloring exactly
/// when no Schur triple is monochromatic, and else the index that it
/// reports is that of the smallest sum of a monochromatic triple.
pub proof fn lemma_checker_is_right(c: Seq<u8>, outcome: CheckOutcome)
    requires
        check_outcome(c, outcome),
        c.len() >= 3,
        c[0] != c[1],
    ensures
        outcome is Ok <==> schur_valid(c),
        outcome matches Err(e) ==> {
            &&& exists|x: int, y: int| #[trigger] monochromatic(c, x, y) && x + y == e.index + 1
            &&& forall|x: int, y: int| #[trigger] monochromatic(c, x, y) ==> x + y >= e.index + 1
        },
{
    lemma_passes_is_schur_valid(c);
    if let Err(e) = outcome {
        lemma_first_failure_is_smallest(c, e.index as int);
        assert(violated_at(c, e.index + 1));
    }
}

/// Where the integers 1 and 2 have different colors, the failure that the
/// checker reports is at a monochromatic Schur triple with the smallest sum
/// that any such triple has.
pub proof fn lemma_first_failure_is_smallest(c: Seq<u8>, index: int)
    requires
        first_failure(c, index),
        c[0] != c[1],
    ensures
        exists|x: int, y: int| #[trigger] monochromatic(c, x, y) && x + y == index + 1,
        forall|x: int, y: int| #[trigger] monochromatic(c, x, y) ==> x + y >= index + 1,
{
    let z = index + 1;
    let w = choose|w: int| #[trigger] pair_blocks(c, z - 1, c[z - 1], w);
    assert(monochromatic(c, w, z - w));
    assert forall|x: int, y: int| #[trigger] monochromatic(c, x, y) implies x + y >= z by {
        if x + y < z {
            let sum = x + y;
            assert(pair_blocks(c, sum - 1, c[sum - 1], x));
            assert(violated_at(c, sum));
        }
    }
}

fn digit_str(d: usize) -> (s: &'static str)
    requires
        d < 10,
    ensures
        s@ == seq![digit_char(d as int)],
{
    proof {
        reveal_strlit("0");
        reveal_strlit("1");
        reveal_strlit("2");
        reveal_strlit("3");
        reveal_strlit("4");
        reveal_strlit("5");
        reveal_strlit("6");
        reveal_strlit("7");
        reveal_strlit("8");
        reveal_strlit("9");
    }
    let s = if d == 0 {
        "0"
    } else if d == 1 {
        "1"
    } else if d == 2 {
        "2"
    } else if d == 3 {
        "3"
    } else if d == 4 {
        "4"
    } else if d == 5 {
        "5"
    } else if d == 6 {
        "6"
    } else if d == 7 {
        "7"
    } else if d == 8 {
        "8"
    } else {
        "9"
    };
    assert(s@ =~= seq![digit_char(d as int)]);
    s
}

/// Appends the decimal numeral of `n` to `out`.
fn push_decimal(out: &mut String, n: usize)
    ensures
        final(out)@ == old(out)@ + decimal(n as nat),
    decreases n,
{
    if n >= 10 {
        push_decimal(out, n / 10);
    }
    out.append(digit_str(n % 10));
    assert(out@ =~= old(out)@ + decimal(n as nat));
}

/// Writes the message for the triple `x + y = z` in color `color`.
fn violation_message(x: usize, y: usize, z: usize, color: u8) -> (message: String)
    ensures
        message@ == violation_text(x as nat, y as nat, z as nat, color as nat),
{
    let mut message = String::new();
    push_decimal(&mut message, x);
    message.append(" + ");
    push_decimal(&mut message, y);
    message.append(" = ");
    push_decimal(&mut message, z);
    message.append(" are all in color ");
    push_decimal(&mut message, color as usize);
    assert(message@ =~= violation_text(x as nat, y as nat, z as nat, color as nat));
    message
}

/// Checks a coloring. It passes when no integer from 3 up to its length is
/// the sum of two integers of its own color; otherwise the error holds the
/// position of the first such integer and names the triple that fails there.
pub fn check_coloring(coloring: &ColorVec) -> (outcome: CheckOutcome)
    ensures
        outcome is Ok <==> passes(coloring@),
        check_outcome(coloring@, outcome),
{
    let n = coloring.len();
    let mut pos: usize = 2;
    while pos < n
        invariant
            2 <= pos,
            n == coloring.len(),
            forall|z: int| 3 <= z <= pos && z <= n ==> !#[trigger] violated_at(coloring@, z),
        decreases n - pos,
    {
        let color = coloring[pos];
        match closing_pair(coloring, pos, color) {
            Some(x) => {
                assert(violated_at(coloring@, pos + 1));
                assert(first_pair(coloring@, pos + 1) == x) by {
                    let w = first_pair(coloring@, pos + 1);
                    assert(pair_blocks(coloring@, pos as int, color, w));
                    assert(forall|v: int|
                        1 <= v < w ==> !#[trigger] pair_blocks(coloring@, pos as int, color, v));
                }
                let message = violation_message(x, pos + 1 - x, pos + 1, color);
                return Err(ViolationError { index: pos, message });
            },
            None => {},
        }
        pos += 1;
    }
    Ok(String::from_str("Coloring is valid"))
}

} // verus!
