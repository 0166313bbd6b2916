//! The outcome classifier: computes one round's exact transition histogram
//! by combinatorial counting, polynomial in the dice count.

use vstd::prelude::*;
use vstd::pervasive::VecAdditionalExecFns;
use num_bigint::BigUint;
use crate::bignat::{big_add, big_clone, big_from_u64, big_mul, big_nat};
use crate::counting::{
    hist_count, lemma_range_zero_below, lemma_ways_sum_zero, pow5, pow6, ways_ge1, ways_ge2,
    ways_one1, ways_sum, ways_sum_range,
};

verus! {

/// The part of the histogram that the assembly loop has accumulated after
/// folding in all no-1s face sums below `s`: both base cases (reset on two
/// or more 1s, forfeit on exactly one 1) plus the sum outcomes seen so far.
spec fn hist_partial(win: nat, score: nat, n: nat, d: int, s: int) -> nat {
    (if d == 0 {
        ways_ge2(n)
    } else {
        0
    }) + (if d == score {
        ways_one1(n)
    } else {
        0
    }) + (if d < win {
        if d - score < s {
            ways_sum(n, d - score)
        } else {
            0
        }
    } else {
        ways_sum_range(n, win - score, s)
    })
}

/// One convolution term: the number of ways `m` no-1s dice reach the face
/// sum `s - f`, read out of the table for `m` dice (or 0 out of range).
fn ways_term(w: &Vec<BigUint>, s: usize, f: usize, m: Ghost<nat>) -> (r: BigUint)
    requires
        w@.len() == 6 * m@ + 1,
        forall|t: int| 0 <= t <= 6 * m@ ==> big_nat(#[trigger] w@[t]) == ways_sum(m@, t),
        2 <= f <= 6,
    ensures
        big_nat(r) == ways_sum(m@, s - f),
{
    if s >= f && s - f < w.len() {
        big_clone(&w[s - f])
    } else {
        proof {
            lemma_ways_sum_zero(m@, s - f);
        }
        big_from_u64(0)
    }
}

/// Face-sum table for `n` dice that avoid the face 1: entry `s` counts the
/// ordered `n`-tuples over {2,...,6} with sum `s`, built by convolving one
/// die at a time.
fn ways_sum_table(n: usize) -> (w: Vec<BigUint>)
    requires
        6 * (n as int) < usize::MAX as int,
    ensures
        w@.len() == 6 * n + 1,
        forall|t: int| 0 <= t <= 6 * n ==> big_nat(#[trigger] w@[t]) == ways_sum(n as nat, t),
{
    let mut w: Vec<BigUint> = Vec::new();
    w.push(big_from_u64(1));
    let mut j: usize = 0;
    while j < n
        invariant
            j <= n,
            6 * (n as int) < usize::MAX as int,
            w@.len() == 6 * j + 1,
            forall|t: int| 0 <= t <= 6 * j ==> big_nat(#[trigger] w@[t]) == ways_sum(j as nat, t),
        decreases n - j,
    {
        let lim: usize = 6 * (j + 1);
        let mut w2: Vec<BigUint> = Vec::new();
        let mut s: usize = 0;
        while s <= lim
            invariant
                j < n,
                lim == 6 * (j + 1),
                6 * (n as int) < usize::MAX as int,
                s <= lim + 1,
                w@.len() == 6 * j + 1,
                forall|t: int| 0 <= t <= 6 * j ==> big_nat(#[trigger] w@[t]) == ways_sum(
                    j as nat,
                    t,
                ),
                w2@.len() == s,
                forall|t: int| 0 <= t < s ==> big_nat(#[trigger] w2@[t]) == ways_sum(
                    (j + 1) as nat,
                    t,
                ),
            decreases lim + 1 - s,
        {
            let t2 = ways_term(&w, s, 2, Ghost(j as nat));
            let t3 = ways_term(&w, s, 3, Ghost(j as nat));
            let t4 = ways_term(&w, s, 4, Ghost(j as nat));
            let t5 = ways_term(&w, s, 5, Ghost(j as nat));
            let t6 = ways_term(&w, s, 6, Ghost(j as nat));
            let acc = big_add(&big_add(&big_add(&big_add(&t2, &t3), &t4), &t5), &t6);
            w2.push(acc);
            s = s + 1;
        }
        w = w2;
        j = j + 1;
    }
    w
}

/// The three one-counting totals for `n` dice, as exact big integers:
/// no-1s tuples (`pow5`), exactly-one-1 tuples, and two-or-more-1s tuples,
/// built from their first-face recurrences.
fn ones_counts(n: usize) -> (r: (BigUint, BigUint))
    ensures
        big_nat(r.0) == ways_one1(n as nat),
        big_nat(r.1) == ways_ge2(n as nat),
{
    let five = big_from_u64(5);
    let six = big_from_u64(6);
    let mut p5 = big_from_u64(1);
    let mut p6 = big_from_u64(1);
    let mut w1 = big_from_u64(0);
    let mut g1 = big_from_u64(0);
    let mut g2 = big_from_u64(0);
    let mut j: usize = 0;
    while j < n
        invariant
            j <= n,
            big_nat(five) == 5,
            big_nat(six) == 6,
            big_nat(p5) == pow5(j as nat),
            big_nat(p6) == pow6(j as nat),
            big_nat(w1) == ways_one1(j as nat),
            big_nat(g1) == ways_ge1(j as nat),
            big_nat(g2) == ways_ge2(j as nat),
        decreases n - j,
    {
        let nw1 = big_add(&p5, &big_mul(&five, &w1));
        let ng1 = big_add(&p6, &big_mul(&five, &g1));
        let ng2 = big_add(&g1, &big_mul(&five, &g2));
        p5 = big_mul(&five, &p5);
        p6 = big_mul(&six, &p6);
        w1 = nw1;
        g1 = ng1;
        g2 = ng2;
        j = j + 1;
    }
    (w1, g2)
}

/// The outcome classifier: starting from the live score `score` with `win`
/// as the absorbing winning bucket, roll `dice_count` dice and count, for
/// each destination bucket `d`, exactly how many of the `pow6(dice_count)`
/// equally likely ordered outcomes move the score to `d`.
///
/// An outcome with two or more 1s goes to bucket 0, an outcome with exactly
/// one 1 stays at `score`, and any other outcome goes to `score` plus the
/// face sum, capped at `win`. The counts are computed combinatorially, so
/// the cost stays polynomial in `dice_count`.
pub fn classify(score: usize, dice_count: usize, win: usize) -> (h: Vec<BigUint>)
    requires
        dice_count >= 1,
        score < win,
        6 * (dice_count as int) + (win as int) < usize::MAX as int,
    ensures
        h@.len() == win + 1,
        forall|d: int| 0 <= d <= win ==> big_nat(#[trigger] h@[d]) == hist_count(
            win as nat,
            score as nat,
            dice_count as nat,
            d as nat,
        ),
{
    let ghost nn = dice_count as nat;
    let ghost sc = score as nat;
    let ghost wn = win as nat;
    let w = ways_sum_table(dice_count);
    let (w1, g2) = ones_counts(dice_count);
    let mut h: Vec<BigUint> = Vec::new();
    let mut d: usize = 0;
    while d < win + 1
        invariant
            d <= win + 1,
            win < usize::MAX,
            h@.len() == d,
            forall|t: int| 0 <= t < d ==> big_nat(#[trigger] h@[t]) == 0,
        decreases win + 1 - d,
    {
        h.push(big_from_u64(0));
        d = d + 1;
    }
    h.set(0, g2);
    let at_score = big_add(&h[score], &w1);
    h.set(score, at_score);
    proof {
        assert forall|t: int| 0 <= t <= wn implies big_nat(#[trigger] h@[t]) == hist_partial(
            wn,
            sc,
            nn,
            t,
            2,
        ) by {
            if t < wn && t - sc < 2 {
                lemma_ways_sum_zero(nn, t - sc);
            }
            if t == wn {
                lemma_range_zero_below(nn, wn - sc, 2);
            }
        }
    }
    let top: usize = 6 * dice_count;
    let mut s: usize = 2;
    while s <= top
        invariant
            2 <= s <= top + 1,
            top == 6 * dice_count,
            dice_count >= 1,
            score < win,
            nn == dice_count as nat,
            sc == score as nat,
            wn == win as nat,
            6 * (dice_count as int) + (win as int) < usize::MAX as int,
            w@.len() == 6 * dice_count + 1,
            forall|t: int| 0 <= t <= 6 * dice_count ==> big_nat(#[trigger] w@[t]) == ways_sum(
                nn,
                t,
            ),
            h@.len() == win + 1,
            forall|t: int| 0 <= t <= wn ==> big_nat(#[trigger] h@[t]) == hist_partial(
                wn,
                sc,
                nn,
                t,
                s as int,
            ),
        decreases top + 1 - s,
    {
        let dst: usize = if score + s >= win {
            win
        } else {
            score + s
        };
        let ghost h_old = h@;
        let upd = big_add(&h[dst], &w[s]);
        h.set(dst, upd);
        proof {
            assert forall|t: int| 0 <= t <= wn implies big_nat(#[trigger] h@[t]) == hist_partial(
                wn,
                sc,
                nn,
                t,
                s + 1,
            ) by {
                if t == dst {
                    assert(big_nat(h@[t]) == big_nat(h_old[t]) + ways_sum(nn, s as int));
                } else {
                    assert(big_nat(h@[t]) == big_nat(h_old[t]));
                }
            }
        }
        s = s + 1;
    }
    proof {
        assert forall|t: int| 0 <= t <= wn implies big_nat(#[trigger] h@[t]) == hist_count(
            wn,
            sc,
            nn,
            t as nat,
        ) by {
            if t < wn && !(t - sc < top + 1) {
                lemma_ways_sum_zero(nn, t - sc);
            }
        }
    }
    h
}

/// The classifier is pure: its contract pins the value held by every bucket,
/// so any two histograms that satisfy it for the same `(score, dice_count)`
/// agree bucket for bucket. Calling `classify` twice with the same arguments
/// therefore yields histograms of identical counts, and a caller may cache
/// the result without changing any outcome.
pub proof fn lemma_classify_pure(
    h1: Seq<BigUint>,
    h2: Seq<BigUint>,
    win: nat,
    score: nat,
    n: nat,
)
    requires
        h1.len() == win + 1,
        h2.len() == win + 1,
        forall|d: int| 0 <= d <= win ==> big_nat(#[trigger] h1[d]) == hist_count(
            win,
            score,
            n,
            d as nat,
        ),
        forall|d: int| 0 <= d <= win ==> big_nat(#[trigger] h2[d]) == hist_count(
            win,
            score,
            n,
            d as nat,
        ),
    ensures
        forall|d: int| 0 <= d <= win ==> big_nat(#[trigger] h1[d]) == big_nat(h2[d]),
{
}

} // verus!
