use greed::classify::classify;
use greed::enumerate::{all_worlds, gen_rolls};
use num_bigint::BigUint;

#[test]
fn gen_rolls_one_die() {
    let r = gen_rolls(1);
    assert_eq!(r, vec![vec![1], vec![2], vec![3], vec![4], vec![5], vec![6]]);
}

#[test]
fn gen_rolls_two_dice() {
    let r = gen_rolls(2);
    assert_eq!(r.len(), 36);
    assert_eq!(r[0], vec![1, 1]);
    assert_eq!(r[1], vec![2, 1]);
    assert_eq!(r[5], vec![6, 1]);
    assert_eq!(r[6], vec![1, 2]);
    assert_eq!(r[35], vec![6, 6]);
    // every ordered pair appears exactly once
    let mut seen = [[false; 6]; 6];
    for t in &r {
        assert!(!seen[t[0] - 1][t[1] - 1]);
        seen[t[0] - 1][t[1] - 1] = true;
    }
}

#[test]
fn all_worlds_single_die() {
    // From score 0 with one die: 1 forfeits (stays 0), 2..=6 add the face.
    assert_eq!(all_worlds(0, 1, 100), vec![0, 2, 3, 4, 5, 6]);
}

#[test]
fn all_worlds_capped() {
    // From score 3 with one die and win bucket 5, every gain caps at 5.
    assert_eq!(all_worlds(3, 1, 5), vec![3, 5, 5, 5, 5, 5]);
}

#[test]
fn all_worlds_matches_classify() {
    // The exhaustive enumeration and the combinatorial classifier count
    // the same outcomes per destination bucket.
    for (score, n, win) in [(10usize, 2usize, 100usize), (0, 3, 7), (2, 2, 4)] {
        let worlds = all_worlds(score, n, win);
        let h = classify(score, n, win);
        let mut counts = vec![0u64; win + 1];
        for d in worlds {
            counts[d] += 1;
        }
        for d in 0..=win {
            assert_eq!(h[d], BigUint::from(counts[d]));
        }
    }
}
