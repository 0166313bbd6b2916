//! The combinatorial model of one round: closed counting functions over the
//! ordered outcomes of `n` dice, and the completeness of the transition
//! histogram they define.

use vstd::prelude::*;

verus! {

/// Number of equally likely ordered outcomes of rolling `n` six-sided dice.
pub open spec fn pow6(n: nat) -> nat
    decreases n,
{
    if n == 0 {
        1
    } else {
        6 * pow6((n - 1) as nat)
    }
}

/// Number of ordered `n`-tuples of die faces that avoid the face 1,
/// i.e. with every face drawn from {2,...,6}.
pub open spec fn pow5(n: nat) -> nat
    decreases n,
{
    if n == 0 {
        1
    } else {
        5 * pow5((n - 1) as nat)
    }
}

/// Number of ordered `m`-tuples of die faces drawn from {2,...,6} whose faces
/// sum to `s`, defined by splitting on the value of the first face.
/// It is 0 outside the reachable band `2*m <= s <= 6*m`.
pub open spec fn ways_sum(m: nat, s: int) -> nat
    decreases m,
{
    if m == 0 {
        if s == 0 {
            1
        } else {
            0
        }
    } else {
        ways_sum((m - 1) as nat, s - 2) + ways_sum((m - 1) as nat, s - 3) + ways_sum(
            (m - 1) as nat,
            s - 4,
        ) + ways_sum((m - 1) as nat, s - 5) + ways_sum((m - 1) as nat, s - 6)
    }
}

/// Number of ordered `m`-tuples of die faces from {1,...,6} that contain
/// exactly one face equal to 1, split on whether the first face is the 1.
pub open spec fn ways_one1(m: nat) -> nat
    decreases m,
{
    if m == 0 {
        0
    } else {
        pow5((m - 1) as nat) + 5 * ways_one1((m - 1) as nat)
    }
}

/// Number of ordered `m`-tuples of die faces from {1,...,6} that contain
/// at least one face equal to 1, split on the first face.
pub open spec fn ways_ge1(m: nat) -> nat
    decreases m,
{
    if m == 0 {
        0
    } else {
        pow6((m - 1) as nat) + 5 * ways_ge1((m - 1) as nat)
    }
}

/// Number of ordered `m`-tuples of die faces from {1,...,6} that contain
/// at least two faces equal to 1, split on the first face.
pub open spec fn ways_ge2(m: nat) -> nat
    decreases m,
{
    if m == 0 {
        0
    } else {
        ways_ge1((m - 1) as nat) + 5 * ways_ge2((m - 1) as nat)
    }
}

/// Sum of `ways_sum(m, s)` over `lo <= s < hi`.
pub open spec fn ways_sum_range(m: nat, lo: int, hi: int) -> nat
    decreases hi - lo,
{
    if hi <= lo {
        0
    } else {
        ways_sum_range(m, lo, hi - 1) + ways_sum(m, hi - 1)
    }
}

/// The transition histogram of one round, in closed combinatorial form:
/// starting from a live score `score < win` and rolling `n` dice, the number
/// of the `pow6(n)` ordered outcomes whose destination bucket is `d`.
///
/// An outcome with two or more 1s resets the score to bucket 0; an outcome
/// with exactly one 1 forfeits the round and stays at `score`; an outcome
/// without 1s moves to `score` plus the face sum, capped at the absorbing
/// bucket `win`.
pub open spec fn hist_count(win: nat, score: nat, n: nat, d: nat) -> nat
    recommends
        score < win,
        d <= win,
{
    (if d == 0 {
        ways_ge2(n)
    } else {
        0
    }) + (if d == score {
        ways_one1(n)
    } else {
        0
    }) + (if d < win {
        ways_sum(n, d - score)
    } else {
        ways_sum_range(n, win - score, 6 * n + 1 as int)
    })
}

/// Sum of `hist_count(win, score, n, d)` over `d < k`.
pub open spec fn hist_total(win: nat, score: nat, n: nat, k: nat) -> nat
    decreases k,
{
    if k == 0 {
        0
    } else {
        hist_total(win, score, n, (k - 1) as nat) + hist_count(win, score, n, (k - 1) as nat)
    }
}

pub proof fn lemma_pow6_pos(n: nat)
    ensures
        pow6(n) >= 1,
    decreases n,
{
    if n > 0 {
        lemma_pow6_pos((n - 1) as nat);
    }
}

pub proof fn lemma_pow6_add(a: nat, b: nat)
    ensures
        pow6(a + b) == pow6(a) * pow6(b),
    decreases a,
{
    if a == 0 {
        assert(pow6(b) == 1 * pow6(b));
    } else {
        lemma_pow6_add((a - 1) as nat, b);
        assert((a + b - 1) as nat == (a - 1) as nat + b);
        assert(6 * (pow6((a - 1) as nat) * pow6(b)) == (6 * pow6((a - 1) as nat)) * pow6(b))
            by (nonlinear_arith);
    }
}

/// A tuple sum below twice or above six times the dice count is unreachable.
pub proof fn lemma_ways_sum_zero(m: nat, s: int)
    requires
        s < 2 * m || s > 6 * m,
    ensures
        ways_sum(m, s) == 0,
    decreases m,
{
    if m > 0 {
        lemma_ways_sum_zero((m - 1) as nat, s - 2);
        lemma_ways_sum_zero((m - 1) as nat, s - 3);
        lemma_ways_sum_zero((m - 1) as nat, s - 4);
        lemma_ways_sum_zero((m - 1) as nat, s - 5);
        lemma_ways_sum_zero((m - 1) as nat, s - 6);
    }
}

/// Every `m`-tuple either avoids 1s entirely or contains at least one.
pub proof fn lemma_split_on_ones(m: nat)
    ensures
        pow5(m) + ways_ge1(m) == pow6(m),
    decreases m,
{
    if m > 0 {
        lemma_split_on_ones((m - 1) as nat);
    }
}

/// A tuple with at least one 1 has either exactly one or at least two.
pub proof fn lemma_split_ge1(m: nat)
    ensures
        ways_ge1(m) == ways_one1(m) + ways_ge2(m),
    decreases m,
{
    if m > 0 {
        lemma_split_ge1((m - 1) as nat);
        lemma_split_on_ones((m - 1) as nat);
    }
}

pub proof fn lemma_range_concat(m: nat, a: int, b: int, c: int)
    requires
        a <= b,
        b <= c,
    ensures
        ways_sum_range(m, a, b) + ways_sum_range(m, b, c) == ways_sum_range(m, a, c),
    decreases c - b,
{
    if b < c {
        lemma_range_concat(m, a, b, c - 1);
    }
}

pub proof fn lemma_range_zero_below(m: nat, lo: int, hi: int)
    requires
        hi <= 2 * m,
    ensures
        ways_sum_range(m, lo, hi) == 0,
    decreases hi - lo,
{
    if lo < hi {
        lemma_range_zero_below(m, lo, hi - 1);
        lemma_ways_sum_zero(m, hi - 1);
    }
}

pub proof fn lemma_range_zero_above(m: nat, lo: int, hi: int)
    requires
        lo > 6 * m,
    ensures
        ways_sum_range(m, lo, hi) == 0,
    decreases hi - lo,
{
    if lo < hi {
        lemma_range_zero_above(m, lo, hi - 1);
        lemma_ways_sum_zero(m, hi - 1);
    }
}

/// Unfolding the first face under a range sum: a window of `m`-tuple sums is
/// the five shifted windows of `(m-1)`-tuple sums.
proof fn lemma_range_step(m: nat, lo: int, hi: int)
    requires
        m >= 1,
    ensures
        ways_sum_range(m, lo, hi) == ways_sum_range((m - 1) as nat, lo - 2, hi - 2)
            + ways_sum_range((m - 1) as nat, lo - 3, hi - 3) + ways_sum_range(
            (m - 1) as nat,
            lo - 4,
            hi - 4,
        ) + ways_sum_range((m - 1) as nat, lo - 5, hi - 5) + ways_sum_range(
            (m - 1) as nat,
            lo - 6,
            hi - 6,
        ),
    decreases hi - lo,
{
    if lo < hi {
        lemma_range_step(m, lo, hi - 1);
    }
}

proof fn lemma_range_total_zero_dice(lo: int, hi: int)
    requires
        lo <= 0,
        hi >= 1,
    ensures
        ways_sum_range(0, lo, hi) == 1,
    decreases hi - lo,
{
    if hi > 1 {
        lemma_range_total_zero_dice(lo, hi - 1);
    } else {
        assert(ways_sum_range(0, lo, 0) == 0) by {
            lemma_range_zero_below(0, lo, 0);
        }
    }
}

/// A range sum that covers the whole reachable band counts every tuple
/// without a 1.
pub proof fn lemma_range_total(m: nat, lo: int, hi: int)
    requires
        lo <= 0,
        hi >= 6 * m + 1,
    ensures
        ways_sum_range(m, lo, hi) == pow5(m),
    decreases m,
{
    if m == 0 {
        lemma_range_total_zero_dice(lo, hi);
    } else {
        lemma_range_step(m, lo, hi);
        lemma_range_total((m - 1) as nat, lo - 2, hi - 2);
        lemma_range_total((m - 1) as nat, lo - 3, hi - 3);
        lemma_range_total((m - 1) as nat, lo - 4, hi - 4);
        lemma_range_total((m - 1) as nat, lo - 5, hi - 5);
        lemma_range_total((m - 1) as nat, lo - 6, hi - 6);
    }
}

proof fn lemma_hist_prefix(win: nat, score: nat, n: nat, k: nat)
    requires
        score < win,
        k <= win,
    ensures
        hist_total(win, score, n, k) == (if k >= 1 {
            ways_ge2(n)
        } else {
            0
        }) + (if k >= score + 1 {
            ways_one1(n)
        } else {
            0
        }) + ways_sum_range(n, 0 - score, k - score),
    decreases k,
{
    if k > 0 {
        lemma_hist_prefix(win, score, n, (k - 1) as nat);
    }
}

/// Histogram completeness: over all destination buckets `0..=win`, the
/// transition histogram accounts for every one of the `pow6(n)` ordered
/// outcomes exactly once.
pub proof fn lemma_histogram_complete(win: nat, score: nat, n: nat)
    requires
        score < win,
    ensures
        hist_total(win, score, n, win + 1) == pow6(n),
{
    lemma_hist_prefix(win, score, n, win);
    assert(hist_total(win, score, n, win + 1) == hist_total(win, score, n, win) + hist_count(
        win,
        score,
        n,
        win,
    ));
    let lo: int = 0 - score;
    let mid: int = win - score;
    let hi: int = 6 * n + 1 as int;
    if mid <= hi {
        lemma_range_concat(n, lo, mid, hi);
    } else {
        lemma_range_concat(n, lo, hi, mid);
        lemma_range_zero_above(n, hi, mid);
        assert(ways_sum_range(n, mid, hi) == 0);
    }
    lemma_range_total(n, lo, if mid <= hi {
        hi
    } else {
        mid
    });
    lemma_split_on_ones(n);
    lemma_split_ge1(n);
}

} // verus!
