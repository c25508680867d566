use schur::checker::check_coloring;
use schur::coloring::{short, COLOR_LETTERS};
use schur::extension::{allowed_colors, banned_colors, closing_pair, seed};

/// The first integer from 3 up that closes a monochromatic triple, with the
/// smallest first member of such a triple, as a plain double loop.
fn first_failure(c: &[u8]) -> Option<(usize, usize)> {
    for z in 3..=c.len() {
        for x in 1..=z / 2 {
            let y = z - x;
            if c[x - 1] == c[z - 1] && c[y - 1] == c[z - 1] {
                return Some((z - 1, x));
            }
        }
    }
    None
}

fn next_coloring(c: &mut Vec<u8>, colors: u8) -> bool {
    for i in 0..c.len() {
        if c[i] + 1 < colors {
            c[i] += 1;
            return true;
        }
        c[i] = 0;
    }
    false
}

#[test]
fn short_colorings_always_pass() {
    assert!(check_coloring(&vec![]).is_ok());
    assert!(check_coloring(&vec![0]).is_ok());
    assert!(check_coloring(&vec![0, 1]).is_ok());
    assert!(check_coloring(&vec![0, 0]).is_ok());
    assert!(check_coloring(&vec![7, 7]).is_ok());
}

#[test]
fn passing_coloring_gets_confirmation() {
    let outcome = check_coloring(&vec![0, 1, 1, 0]);
    assert_eq!(outcome.unwrap(), "Coloring is valid");
}

#[test]
fn two_colors_on_four_integers() {
    assert!(check_coloring(&vec![0, 1, 1, 0]).is_ok());
    assert!(check_coloring(&vec![0, 1, 0, 0]).is_err());
    assert!(check_coloring(&vec![0, 1, 0, 1]).is_err());
    assert!(check_coloring(&vec![0, 1, 1, 1]).is_err());
}

#[test]
fn failure_names_index_and_triple() {
    let e = check_coloring(&vec![0, 1, 0, 0]).unwrap_err();
    assert_eq!(e.index, 3);
    assert_eq!(e.message, "1 + 3 = 4 are all in color 0");
    let e = check_coloring(&vec![0, 1, 1, 0, 1]).unwrap_err();
    assert_eq!(e.index, 4);
    assert_eq!(e.message, "2 + 3 = 5 are all in color 1");
    let e = check_coloring(&vec![0, 0, 0]).unwrap_err();
    assert_eq!(e.index, 2);
    assert_eq!(e.message, "1 + 2 = 3 are all in color 0");
}

#[test]
fn failure_is_the_earliest() {
    // 2 + 2 = 4 fails at index 3, 1 + 4 = 5 would fail at index 4.
    let e = check_coloring(&vec![0, 1, 0, 1, 0]).unwrap_err();
    assert_eq!(e.index, 3);
    assert_eq!(e.message, "2 + 2 = 4 are all in color 1");
}

#[test]
fn failure_names_the_pair_with_smallest_first_member() {
    // 1 + 5 = 6 and 3 + 3 = 6 both fail.
    let e = check_coloring(&vec![2, 0, 2, 1, 2, 2]).unwrap_err();
    assert_eq!(e.index, 5);
    assert_eq!(e.message, "1 + 5 = 6 are all in color 2");
}

#[test]
fn message_with_several_digits() {
    let mut c: Vec<u8> = vec![0, 1, 1, 0, 2, 2, 0, 2, 2, 0, 1, 1, 0];
    assert!(check_coloring(&c).is_ok());
    c.push(2);
    let e = check_coloring(&c).unwrap_err();
    assert_eq!(e.index, 13);
    assert_eq!(e.message, "5 + 9 = 14 are all in color 2");
    c[13] = 1;
    let e = check_coloring(&c).unwrap_err();
    assert_eq!(e.index, 13);
    assert_eq!(e.message, "2 + 12 = 14 are all in color 1");
    let mut wide: Vec<u8> = vec![200; 3];
    wide[0] = 13;
    let e = check_coloring(&wide);
    assert!(e.is_ok());
    let e = check_coloring(&vec![255, 255, 255]).unwrap_err();
    assert_eq!(e.message, "1 + 2 = 3 are all in color 255");
}

#[test]
fn the_sum_of_one_and_one_is_not_looked_at() {
    // 1 + 1 = 2 is monochromatic here, but the scan starts at 3.
    assert!(check_coloring(&vec![0, 0, 1]).is_ok());
}

#[test]
fn checker_agrees_with_a_plain_scan() {
    for len in 0..8usize {
        let mut c: Vec<u8> = vec![0; len];
        loop {
            let expected = first_failure(&c);
            match check_coloring(&c) {
                Ok(_) => assert_eq!(expected, None),
                Err(e) => {
                    let (index, x) = expected.unwrap();
                    assert_eq!(e.index, index);
                    let text = format!(
                        "{} + {} = {} are all in color {}",
                        x,
                        index + 1 - x,
                        index + 1,
                        c[index]
                    );
                    assert_eq!(e.message, text);
                }
            }
            if !next_coloring(&mut c, 3) {
                break;
            }
        }
    }
}

#[test]
fn checker_leaves_its_input_alone() {
    let c: Vec<u8> = vec![0, 1, 0, 0];
    let copy = c.clone();
    let _ = check_coloring(&c);
    assert_eq!(c, copy);
}

#[test]
fn closing_pair_finds_the_smallest() {
    let c: Vec<u8> = vec![2, 0, 2, 1, 2];
    assert_eq!(closing_pair(&c, 5, 2), Some(1));
    assert_eq!(closing_pair(&c, 5, 0), None);
    assert_eq!(closing_pair(&c, 5, 1), None);
    assert_eq!(closing_pair(&c, 3, 0), Some(2));
    assert_eq!(closing_pair(&c, 1, 2), Some(1));
    assert_eq!(closing_pair(&c, 0, 2), None);
}

#[test]
fn banned_and_allowed_colors() {
    let c: Vec<u8> = vec![0, 1, 1, 0];
    assert_eq!(banned_colors(&c, 3), vec![true, true, false]);
    assert_eq!(allowed_colors(&c, 3), vec![2]);
    assert_eq!(allowed_colors(&c, 2), Vec::<u8>::new());
    let c: Vec<u8> = vec![0, 1];
    assert_eq!(banned_colors(&c, 4), vec![false, false, false, false]);
    assert_eq!(allowed_colors(&c, 4), vec![0, 1, 2, 3]);
    let c: Vec<u8> = vec![0, 1, 0];
    assert_eq!(allowed_colors(&c, 3), vec![2]);
    assert_eq!(allowed_colors(&c, 0), Vec::<u8>::new());
}

#[test]
fn banned_colors_ignores_colors_out_of_range() {
    let c: Vec<u8> = vec![9, 1, 9];
    assert_eq!(banned_colors(&c, 2), vec![false, true]);
    let mut expected = vec![false; 10];
    expected[1] = true;
    expected[9] = true;
    assert_eq!(banned_colors(&c, 10), expected);
}

#[test]
fn seed_is_the_fixed_beginning() {
    assert_eq!(seed(2, 0), Some(vec![]));
    assert_eq!(seed(0, 0), Some(vec![]));
    assert_eq!(seed(1, 1), Some(vec![0]));
    assert_eq!(seed(0, 1), None);
    assert_eq!(seed(2, 2), Some(vec![0, 1]));
    assert_eq!(seed(1, 2), None);
    assert_eq!(seed(5, 9), Some(vec![0, 1]));
    assert_eq!(seed(1, 9), None);
}

#[test]
fn short_form_uses_the_letters() {
    assert_eq!(COLOR_LETTERS.len(), 26);
    assert_eq!(short(&vec![0, 1, 1, 0]), "ABBA");
    assert_eq!(short(&vec![]), "");
    assert_eq!(short(&vec![25, 0, 12]), "ZAM");
}
