use schur::algorithm::random::{
    accept, fill_with_bannings, random_assignment, random_fill, random_with_backtrack,
    random_with_bannings,
};
use schur::algorithm::search::breadth_first;
use schur::args::Args;
use schur::checker::check_coloring;

fn args(colors: u8, target: usize) -> Args {
    Args { colors, target, algorithm: String::from("random"), attempts: 100 }
}

fn single(colors: u8, target: usize) -> Args {
    Args { colors, target, algorithm: String::from("random"), attempts: 0 }
}

fn is_solution(c: &[u8], colors: u8, target: usize) -> bool {
    c.len() == target
        && c.iter().all(|x| *x < colors)
        && (target < 1 || c[0] == 0)
        && (target < 2 || c[1] == 1)
        && check_coloring(&c.to_vec()).is_ok()
}

#[test]
fn random_fill_gives_a_candidate() {
    for colors in 2..6u8 {
        for target in 0..30usize {
            let c = random_fill(colors, target);
            assert_eq!(c.len(), target);
            assert!(c.iter().all(|x| *x < colors));
            if target >= 1 {
                assert_eq!(c[0], 0);
            }
            if target >= 2 {
                assert_eq!(c[1], 1);
            }
        }
    }
    assert_eq!(random_fill(1, 1), vec![0]);
    assert_eq!(random_fill(0, 0), Vec::<u8>::new());
}

#[test]
fn random_fill_uses_every_color() {
    let c = random_fill(3, 2000);
    for color in 0..3u8 {
        assert!(c[2..].contains(&color));
    }
}

#[test]
fn accept_returns_what_passes() {
    assert_eq!(accept(vec![0, 1, 1, 0]), Some(vec![vec![0, 1, 1, 0]]));
    assert_eq!(accept(vec![0, 1, 0, 0]), None);
    assert_eq!(accept(vec![]), Some(vec![vec![]]));
}

#[test]
fn random_assignment_returns_solutions_only() {
    let mut found = 0;
    for _ in 0..400 {
        if let Some(v) = random_assignment(&args(2, 4)) {
            assert_eq!(v, vec![vec![0, 1, 1, 0]]);
            found += 1;
        }
    }
    // One fill in four is the solution.
    assert!(found > 0);
    assert!(found < 400);
}

#[test]
fn random_assignment_on_small_targets() {
    assert_eq!(random_assignment(&args(2, 0)), Some(vec![vec![]]));
    assert_eq!(random_assignment(&args(2, 1)), Some(vec![vec![0]]));
    assert_eq!(random_assignment(&args(2, 2)), Some(vec![vec![0, 1]]));
    assert_eq!(random_assignment(&args(1, 2)), None);
    assert_eq!(random_assignment(&args(0, 1)), None);
    assert_eq!(random_assignment(&args(0, 7)), None);
}

#[test]
fn random_assignment_always_succeeds_at_three() {
    for colors in 2..6u8 {
        for _ in 0..50 {
            let v = random_assignment(&single(colors, 3)).unwrap();
            assert_eq!(v.len(), 1);
            assert_eq!(v[0][..2], [0, 1]);
            assert!(v[0][2] < colors);
        }
    }
}

#[test]
fn random_assignment_cannot_succeed_without_a_solution() {
    for _ in 0..50 {
        assert_eq!(random_assignment(&args(2, 5)), None);
        assert_eq!(random_assignment(&args(1, 3)), None);
    }
}

#[test]
fn bannings_return_solutions_only() {
    for colors in 0..6u8 {
        for target in 0..20usize {
            for _ in 0..5 {
                if let Some(v) = random_with_bannings(&args(colors, target)) {
                    assert_eq!(v.len(), 1);
                    assert!(is_solution(&v[0], colors, target));
                }
            }
        }
    }
}

#[test]
fn bannings_never_fail_with_colors_to_spare() {
    for target in 0..40usize {
        let colors = (target / 2 + 1).max(2) as u8;
        for _ in 0..5 {
            let v = random_with_bannings(&args(colors, target)).unwrap();
            assert!(is_solution(&v[0], colors, target));
        }
    }
}

#[test]
fn bannings_can_get_stuck() {
    // After 0, 1, 0 both colors are banned for the fourth position.
    let mut stuck = 0;
    let mut done = 0;
    for _ in 0..400 {
        match fill_with_bannings(2, 4) {
            Some(c) => {
                assert_eq!(c, vec![0, 1, 1, 0]);
                done += 1;
            }
            None => stuck += 1,
        }
    }
    assert!(stuck > 0);
    assert!(done > 0);
    stuck = 0;
    for _ in 0..400 {
        match random_with_bannings(&single(2, 4)) {
            Some(v) => assert_eq!(v, vec![vec![0, 1, 1, 0]]),
            None => stuck += 1,
        }
    }
    assert!(stuck > 0);
}

#[test]
fn bannings_fail_only_at_a_dead_end() {
    // With three colors no partial coloring of up to five integers has all
    // colors blocked for the next: a fill of six cannot fail.
    for _ in 0..300 {
        let c = fill_with_bannings(3, 6).unwrap();
        assert!(is_solution(&c, 3, 6));
    }
    // With two colors, 0 1 0 is a dead end for four.
    assert_eq!(schur::extension::allowed_colors(&vec![0, 1, 0], 2), Vec::<u8>::new());
}

#[test]
fn bannings_try_again() {
    // One fill in two succeeds; a thousand and one in a row do not fail.
    let many = Args { colors: 2, target: 4, algorithm: String::from("random_ban"), attempts: 1000 };
    for _ in 0..20 {
        assert_eq!(random_with_bannings(&many), Some(vec![vec![0, 1, 1, 0]]));
    }
}

#[test]
fn fill_with_bannings_on_small_targets() {
    assert_eq!(fill_with_bannings(2, 0), Some(vec![]));
    assert_eq!(fill_with_bannings(2, 1), Some(vec![0]));
    assert_eq!(fill_with_bannings(2, 2), Some(vec![0, 1]));
    assert_eq!(fill_with_bannings(1, 2), None);
    assert_eq!(fill_with_bannings(0, 1), None);
    let c = fill_with_bannings(2, 3).unwrap();
    assert_eq!(c[..2], [0, 1]);
}

#[test]
fn bannings_find_nothing_where_nothing_is() {
    for _ in 0..50 {
        assert_eq!(random_with_bannings(&args(2, 5)), None);
    }
    assert_eq!(random_with_bannings(&args(1, 2)), None);
}

#[test]
fn backtrack_finds_the_only_solution() {
    for _ in 0..50 {
        assert_eq!(random_with_backtrack(&args(2, 4)), Some(vec![vec![0, 1, 1, 0]]));
    }
}

#[test]
fn backtrack_succeeds_exactly_where_a_solution_is() {
    for colors in 0..5u8 {
        for target in 0..15usize {
            let all = breadth_first(&args(colors, target));
            let found = random_with_backtrack(&args(colors, target));
            assert_eq!(found.is_some(), all.is_some());
            if let (Some(f), Some(a)) = (found, all) {
                assert_eq!(f.len(), 1);
                assert!(a.contains(&f[0]));
            }
        }
    }
}

#[test]
fn backtrack_reaches_different_solutions() {
    let all = breadth_first(&args(3, 5)).unwrap();
    let mut seen: Vec<Vec<u8>> = Vec::new();
    for _ in 0..600 {
        let f = random_with_backtrack(&args(3, 5)).unwrap();
        assert!(all.contains(&f[0]));
        if !seen.contains(&f[0]) {
            seen.push(f[0].clone());
        }
    }
    assert!(seen.len() > 1);
}
