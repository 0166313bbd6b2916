use greed::classify::classify;
use num_bigint::BigUint;

fn big(x: u64) -> BigUint {
    BigUint::from(x)
}

#[test]
fn single_die_worked_example() {
    // One die from score 0: rolling a 1 forfeits and stays at 0; rolling
    // 2..=6 adds that face.
    let h = classify(0, 1, 100);
    assert_eq!(h.len(), 101);
    assert_eq!(h[0], big(1));
    assert_eq!(h[1], big(0));
    for f in 2..=6usize {
        assert_eq!(h[f], big(1));
    }
    for d in 7..=100usize {
        assert_eq!(h[d], big(0));
    }
}

#[test]
fn two_dice_bust_example() {
    // Two dice from score 10: (1,1) resets to 0; the 10 outcomes with
    // exactly one 1 stay at 10; the 25 no-1 outcomes add their sum.
    let h = classify(10, 2, 100);
    assert_eq!(h[0], big(1));
    assert_eq!(h[10], big(10));
    let expected = [1u64, 2, 3, 4, 5, 4, 3, 2, 1];
    for (i, e) in expected.iter().enumerate() {
        assert_eq!(h[14 + i], big(*e));
    }
    let mut total = big(0);
    for d in 0..=100usize {
        total += &h[d];
    }
    assert_eq!(total, big(36));
}

#[test]
fn cap_example() {
    // With win bucket 5, from score 3 with one die every non-1 face lands
    // capped at 5, never at 7, 8 or 9.
    let h = classify(3, 1, 5);
    assert_eq!(h.len(), 6);
    assert_eq!(h[0], big(0));
    assert_eq!(h[1], big(0));
    assert_eq!(h[2], big(0));
    assert_eq!(h[3], big(1));
    assert_eq!(h[4], big(0));
    assert_eq!(h[5], big(5));
}

#[test]
fn histogram_completeness_samples() {
    // The histogram accounts for all 6^n ordered outcomes, exactly.
    for (score, n, win) in [(0usize, 1usize, 100usize), (4, 2, 9), (1, 3, 4), (7, 4, 12)] {
        let h = classify(score, n, win);
        let mut total = big(0);
        for d in 0..=win {
            total += &h[d];
        }
        assert_eq!(total, big(6u64.pow(n as u32)));
    }
}

#[test]
fn classify_is_pure() {
    // Identical arguments give identical histograms; caching changes nothing.
    let h1 = classify(7, 3, 50);
    let h2 = classify(7, 3, 50);
    assert_eq!(h1, h2);
}

#[test]
fn smallest_win_space() {
    // win bucket 1: score 0 is the only live score; every non-1 face wins.
    let h = classify(0, 1, 1);
    assert_eq!(h.len(), 2);
    assert_eq!(h[0], big(1));
    assert_eq!(h[1], big(5));
}
