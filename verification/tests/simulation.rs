use schur::algorithm::simulation::{
    annealing, apply_repair, draw_for_repair, holds, logistic, reassigns, record, repair, round,
    TAIL, UNIT,
};
use schur::args::Args;
use schur::checker::check_coloring;

fn args(colors: u8, target: usize, attempts: usize) -> Args {
    Args { colors, target, algorithm: String::from("sim"), attempts }
}

fn curve(n: usize, mid: usize) -> f64 {
    let x = n as f64 - mid as f64;
    1.0 / (1.0 + (-2.0 * x).exp())
}

#[test]
fn unit_is_two_to_the_53() {
    assert_eq!(UNIT, 1u64 << 53);
}

#[test]
fn logistic_is_even_at_the_midpoint() {
    assert_eq!(logistic(0, 0), UNIT / 2);
    assert_eq!(logistic(5, 5), 4503599627370496);
    assert_eq!(logistic(usize::MAX, usize::MAX), UNIT / 2);
}

#[test]
fn logistic_exact_values() {
    assert_eq!(logistic(4, 5), 1073684470400566);
    assert_eq!(logistic(6, 5), UNIT - 1073684470400566);
    assert_eq!(logistic(3, 5), 162005376966166);
    assert_eq!(logistic(7, 5), 8845193877774826);
    assert_eq!(logistic(2, 20), 2);
    assert_eq!(logistic(38, 20), UNIT - 2);
    assert_eq!(logistic(1, 20), 0);
    assert_eq!(logistic(39, 20), UNIT);
    assert_eq!(logistic(0, usize::MAX), 0);
    assert_eq!(logistic(usize::MAX, 0), UNIT);
}

#[test]
fn logistic_follows_the_curve() {
    let unit = UNIT as f64;
    for mid in 0..60usize {
        for n in 0..60usize {
            let odds = logistic(n, mid) as f64 / unit;
            assert!((odds - curve(n, mid)).abs() < 1e-15);
        }
    }
    for (k, entry) in TAIL.iter().enumerate() {
        let expected = unit / (1.0 + (2.0 * k as f64).exp());
        assert!((*entry as f64 - expected).abs() <= 1.0);
    }
}

#[test]
fn logistic_is_mirrored_and_rising() {
    for mid in 20..40usize {
        for d in 0..20usize {
            assert_eq!(logistic(mid + d, mid) + logistic(mid - d, mid), UNIT);
        }
        for n in 0..59usize {
            assert!(logistic(n, mid) <= logistic(n + 1, mid));
        }
    }
}

#[test]
fn reassigns_compares_the_draw_with_the_odds() {
    assert!(reassigns(5, 5, 0));
    assert!(reassigns(5, 5, UNIT / 2 - 1));
    assert!(!reassigns(5, 5, UNIT / 2));
    assert!(!reassigns(1, 20, 0));
    assert!(reassigns(39, 20, UNIT - 1));
    assert!(reassigns(2, 20, 1));
    assert!(!reassigns(2, 20, 2));
}

#[test]
fn apply_repair_follows_the_draws() {
    let mut c: Vec<u8> = vec![0, 1, 0, 0, 1, 1];
    let low = 0u64;
    let high = UNIT - 1;
    // Positions 0 and 1 stay whatever is drawn; position 3 failed and
    // changes whatever is drawn; 2 and 5 are drawn, 4 is not.
    let draws: Vec<u64> = vec![low, low, low, high, high, low];
    let fresh: Vec<u8> = vec![2, 2, 2, 2, 2, 2];
    apply_repair(&mut c, 3, &draws, &fresh);
    assert_eq!(c, vec![0, 1, 2, 2, 1, 2]);
}

#[test]
fn apply_repair_at_the_thresholds() {
    let fresh: Vec<u8> = vec![9; 5];
    let mut c: Vec<u8> = vec![0, 1, 0, 0, 0];
    // Around position 3: the odds of 2 are `TAIL[1]`, of 4 `UNIT - TAIL[1]`.
    let draws: Vec<u64> = vec![0, 0, TAIL[1] - 1, 0, UNIT - TAIL[1] - 1];
    apply_repair(&mut c, 3, &draws, &fresh);
    assert_eq!(c, vec![0, 1, 9, 9, 9]);
    let mut c: Vec<u8> = vec![0, 1, 0, 0, 0];
    let draws: Vec<u64> = vec![0, 0, TAIL[1], UNIT - 1, UNIT - TAIL[1]];
    apply_repair(&mut c, 3, &draws, &fresh);
    assert_eq!(c, vec![0, 1, 0, 9, 0]);
}

#[test]
fn repair_keeps_a_candidate() {
    for _ in 0..200 {
        let mut c: Vec<u8> = vec![0, 1, 0, 0, 2, 2, 1, 0];
        repair(&mut c, 3, 3);
        assert_eq!(c.len(), 8);
        assert_eq!(c[0], 0);
        assert_eq!(c[1], 1);
        assert!(c.iter().all(|x| *x < 3));
    }
}

#[test]
fn repair_changes_what_is_above_the_failure() {
    // Far above the failure the odds are certain: each of these positions
    // gets one of 200 colors anew, so some of them must change.
    let before: Vec<u8> = vec![0; 64];
    let mut changed = false;
    for _ in 0..20 {
        let mut c = before.clone();
        c[1] = 1;
        repair(&mut c, 200, 2);
        if c[30..] != before[30..] {
            changed = true;
        }
    }
    assert!(changed);
}

#[test]
fn repair_keeps_what_is_far_below_the_failure() {
    // Nineteen positions or more below the failure the odds are nothing.
    let mut before: Vec<u8> = vec![2; 40];
    before[0] = 0;
    before[1] = 1;
    for _ in 0..50 {
        let mut c = before.clone();
        repair(&mut c, 3, 30);
        assert_eq!(c[..12], before[..12]);
        assert!(c.iter().all(|x| *x < 3));
    }
}

#[test]
fn repair_draws_the_failing_position_anew() {
    let mut before: Vec<u8> = vec![0; 40];
    before[1] = 1;
    let mut changed = false;
    for _ in 0..200 {
        let mut c = before.clone();
        repair(&mut c, 50, 39);
        if c[39] != before[39] {
            changed = true;
        }
    }
    assert!(changed);
}

#[test]
fn holds_finds_equal_colorings() {
    let found: Vec<Vec<u8>> = vec![vec![0, 1, 0], vec![0, 1, 1]];
    assert!(holds(&found, &vec![0, 1, 1]));
    assert!(holds(&found, &vec![0, 1, 0]));
    assert!(!holds(&found, &vec![0, 1, 2]));
    assert!(!holds(&found, &vec![0, 1]));
    assert!(!holds(&Vec::new(), &vec![]));
}

#[test]
fn record_adds_what_is_new() {
    let mut found: Vec<Vec<u8>> = Vec::new();
    assert!(record(&mut found, &vec![0, 1, 1]));
    assert!(record(&mut found, &vec![0, 1, 0]));
    assert!(!record(&mut found, &vec![0, 1, 1]));
    assert!(!record(&mut found, &vec![0, 1, 0]));
    assert!(record(&mut found, &vec![0, 1]));
    assert_eq!(found, vec![vec![0, 1, 1], vec![0, 1, 0], vec![0, 1]]);
}

#[test]
fn draw_for_repair_stays_in_range() {
    for colors in 1..5u8 {
        let (draws, fresh) = draw_for_repair(500, colors);
        assert_eq!(draws.len(), 500);
        assert_eq!(fresh.len(), 500);
        assert!(draws.iter().all(|d| *d < UNIT));
        assert!(fresh.iter().all(|c| *c < colors));
    }
    let (draws, fresh) = draw_for_repair(0, 0);
    assert!(draws.is_empty() && fresh.is_empty());
    // Draws spread over the whole range, colors over all colors.
    let (draws, fresh) = draw_for_repair(2000, 3);
    assert!(draws.iter().any(|d| *d >= UNIT / 2));
    assert!(draws.iter().any(|d| *d < UNIT / 2));
    for color in 0..3u8 {
        assert!(fresh.contains(&color));
    }
}

#[test]
fn round_records_what_passes_and_takes_the_refill() {
    let mut found: Vec<Vec<u8>> = Vec::new();
    let mut candidate: Vec<u8> = vec![0, 1, 1, 0];
    let draws: Vec<u64> = vec![0; 4];
    let fresh: Vec<u8> = vec![1; 4];
    assert!(round(&mut found, &mut candidate, vec![0, 1, 0, 0], &draws, &fresh));
    assert_eq!(found, vec![vec![0, 1, 1, 0]]);
    assert_eq!(candidate, vec![0, 1, 0, 0]);
}

#[test]
fn round_records_nothing_twice() {
    let mut found: Vec<Vec<u8>> = vec![vec![0, 1, 0], vec![0, 1, 1]];
    let mut candidate: Vec<u8> = vec![0, 1, 1];
    let draws: Vec<u64> = vec![0; 3];
    let fresh: Vec<u8> = vec![0; 3];
    assert!(round(&mut found, &mut candidate, vec![0, 1, 0], &draws, &fresh));
    assert_eq!(found, vec![vec![0, 1, 0], vec![0, 1, 1]]);
    assert_eq!(candidate, vec![0, 1, 0]);
    let mut candidate: Vec<u8> = vec![0, 1, 2];
    assert!(round(&mut found, &mut candidate, vec![0, 1, 1], &draws, &fresh));
    assert_eq!(found, vec![vec![0, 1, 0], vec![0, 1, 1], vec![0, 1, 2]]);
}

#[test]
fn round_repairs_around_the_first_failure() {
    // 2 + 2 = 4 fails at index 3; 1 + 4 = 5 would fail at index 4.
    let mut found: Vec<Vec<u8>> = vec![vec![0, 1, 1, 0, 2]];
    let mut candidate: Vec<u8> = vec![0, 1, 0, 1, 0];
    // Around index 3 the odds of index 2 are `TAIL[1]`, of index 4
    // `UNIT - TAIL[1]`: these draws are just too high for both.
    let draws: Vec<u64> = vec![0, 0, TAIL[1], UNIT - 1, UNIT - TAIL[1]];
    let fresh: Vec<u8> = vec![2; 5];
    assert!(!round(&mut found, &mut candidate, vec![0, 1, 1, 1, 1], &draws, &fresh));
    assert_eq!(found, vec![vec![0, 1, 1, 0, 2]]);
    assert_eq!(candidate, vec![0, 1, 0, 2, 0]);
    // Just low enough for both.
    let mut candidate: Vec<u8> = vec![0, 1, 0, 1, 0];
    let draws: Vec<u64> = vec![0, 0, TAIL[1] - 1, UNIT - 1, UNIT - TAIL[1] - 1];
    assert!(!round(&mut found, &mut candidate, vec![0, 1, 1, 1, 1], &draws, &fresh));
    assert_eq!(candidate, vec![0, 1, 2, 2, 2]);
}

#[test]
fn annealing_always_succeeds_at_three() {
    for colors in 2..6u8 {
        for attempts in 0..4usize {
            let found = annealing(&args(colors, 3, attempts)).unwrap();
            assert!(!found.is_empty() && found.len() <= attempts + 1);
            for c in found.iter() {
                assert_eq!(c[..2], [0, 1]);
                assert!(c[2] < colors);
            }
        }
    }
}

#[test]
fn annealing_finds_the_coloring_of_four() {
    let found = annealing(&args(2, 4, 2000)).unwrap();
    assert_eq!(found, vec![vec![0, 1, 1, 0]]);
}

#[test]
fn annealing_returns_distinct_solutions() {
    let colors = 3u8;
    let target = 8usize;
    let found = annealing(&args(colors, target, 3000)).unwrap();
    assert!(found.len() <= 3001);
    for (i, c) in found.iter().enumerate() {
        assert_eq!(c.len(), target);
        assert_eq!(c[0], 0);
        assert_eq!(c[1], 1);
        assert!(c.iter().all(|x| *x < colors));
        assert!(check_coloring(c).is_ok());
        assert!(!found[..i].contains(c));
    }
}

#[test]
fn annealing_on_small_targets() {
    assert_eq!(annealing(&args(2, 0, 10)), Some(vec![vec![]]));
    assert_eq!(annealing(&args(3, 1, 10)), Some(vec![vec![0]]));
    assert_eq!(annealing(&args(2, 2, 10)), Some(vec![vec![0, 1]]));
    assert_eq!(annealing(&args(2, 2, 0)), Some(vec![vec![0, 1]]));
    assert_eq!(annealing(&args(1, 2, 10)), None);
    assert_eq!(annealing(&args(0, 5, 10)), None);
}

#[test]
fn annealing_finds_nothing_where_nothing_is() {
    assert_eq!(annealing(&args(2, 5, 500)), None);
    assert_eq!(annealing(&args(2, 9, 500)), None);
}

#[test]
fn annealing_runs_one_round_more_than_attempts() {
    // With no attempts to spare there is still one round: three positions
    // always pass, so that round finds a solution.
    let found = annealing(&args(2, 3, 0)).unwrap();
    assert_eq!(found.len(), 1);
    assert!(check_coloring(&found[0]).is_ok());
}
