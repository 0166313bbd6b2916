use greed::engine::{evaluate_strategy, run};
use greed::propagate::{advance, build_hists, init_dist};
use greed::table::{build_table, build_table_from, student, student_list, ConfigError};
use num_bigint::BigUint;

fn big(x: u64) -> BigUint {
    BigUint::from(x)
}

fn ones_table(win: usize) -> greed::propagate::HistTable {
    let t = build_table_from(vec![1; win], win).unwrap();
    build_hists(t)
}

#[test]
fn student_always_three() {
    assert_eq!(student(0), 3);
    assert_eq!(student(99), 3);
    assert_eq!(student_list(5), vec![3, 3, 3, 3, 3]);
}

#[test]
fn build_table_rejects_zero_dice() {
    let r = build_table_from(vec![2, 0, 1], 3);
    assert_eq!(r.err().unwrap(), ConfigError { score: 1 });
}

#[test]
fn build_table_accepts_positive_dice() {
    let t = build_table_from(vec![2, 1, 3], 3).unwrap();
    assert_eq!(t.win, 3);
    assert_eq!(t.dice, vec![2, 1, 3]);
}

#[test]
fn build_table_from_oracle() {
    let t = build_table(|s: usize| s + 1, 4).unwrap();
    assert_eq!(t.dice, vec![1, 2, 3, 4]);
    let e = build_table(|s: usize| s, 4).err().unwrap();
    assert_eq!(e.score, 0);
}

#[test]
fn one_round_distribution() {
    // win = 3, one die everywhere: out of 6 outcomes from score 0, one
    // forfeits, one lands at 2, four cap at 3.
    let ht = ones_table(3);
    let d0 = init_dist(3);
    let d1 = advance(&d0, &ht);
    assert_eq!(d1.den, big(6));
    assert_eq!(d1.nums, vec![big(1), big(0), big(1), big(4)]);
}

#[test]
fn conservation_and_absorption_two_rounds() {
    let ht = ones_table(3);
    let d0 = init_dist(3);
    let d1 = advance(&d0, &ht);
    let d2 = advance(&d1, &ht);
    // conservation: total mass stays exactly 1 at each denominator
    let total1: BigUint = d1.nums.iter().sum();
    let total2: BigUint = d2.nums.iter().sum();
    assert_eq!(total1, d1.den);
    assert_eq!(total2, d2.den);
    assert_eq!(d2.nums, vec![big(1), big(0), big(2), big(33)]);
    // absorption: the win bucket's fraction never decreases
    assert!(&d2.nums[3] * &d1.den >= &d1.nums[3] * &d2.den);
}

#[test]
fn small_end_to_end_scenario() {
    // win = 3, always one die, bound 1/2: after one round 4 of 6 outcomes
    // have won, and 4/6 >= 1/2, so the controller stops at round 1 with
    // the exact fraction 4/6.
    let ht = ones_table(3);
    let r = run(&ht, 1, 2, None);
    assert!(r.converged);
    assert_eq!(r.rounds, 1);
    assert_eq!(r.p_num, big(4));
    assert_eq!(r.p_den, big(6));
}

#[test]
fn ceiling_reports_not_converged() {
    // A bound of exactly 1 is never reached (some mass always stays live),
    // so a ceiling of 2 rounds stops the run and says so.
    let ht = ones_table(3);
    let r = run(&ht, 1, 1, Some(2));
    assert!(!r.converged);
    assert_eq!(r.rounds, 2);
    assert_eq!(r.p_num, big(33));
    assert_eq!(r.p_den, big(36));
}

#[test]
fn evaluate_strategy_end_to_end() {
    let r = evaluate_strategy(|_s: usize| 1, 3, 1, 2, None).unwrap();
    assert!(r.converged);
    assert_eq!(r.rounds, 1);
    assert_eq!(r.p_num, big(4));
    assert_eq!(r.p_den, big(6));
}

#[test]
fn evaluate_strategy_rejects_bad_oracle() {
    let e = evaluate_strategy(|s: usize| if s == 2 { 0 } else { 1 }, 3, 1, 2, None).err().unwrap();
    assert_eq!(e.score, 2);
}

#[test]
fn mixed_dice_counts_conserve_mass() {
    // Different dice counts per score share the common denominator 6^nmax.
    let t = build_table_from(vec![2, 1, 3, 1], 4).unwrap();
    let ht = build_hists(t);
    let d0 = init_dist(4);
    let d1 = advance(&d0, &ht);
    let d2 = advance(&d1, &ht);
    let total1: BigUint = d1.nums.iter().sum();
    let total2: BigUint = d2.nums.iter().sum();
    assert_eq!(total1, d1.den);
    assert_eq!(total2, d2.den);
    assert_eq!(d1.den, big(216));
}

#[test]
fn smallest_win_space_run() {
    // win bucket 1: 5 of 6 outcomes win in the first round.
    let ht = ones_table(1);
    let r = run(&ht, 1, 2, None);
    assert!(r.converged);
    assert_eq!(r.rounds, 1);
    assert_eq!(r.p_num, big(5));
    assert_eq!(r.p_den, big(6));
}
