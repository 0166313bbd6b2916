//! The termination controller and engine entry point: iterates the
//! propagator until the cumulative win probability crosses the bound, with
//! every comparison exact; and the round-iteration laws.

use vstd::prelude::*;
use num_bigint::BigUint;
use crate::bignat::{big_clone, big_from_u64, big_le, big_mul, big_nat, big_vals};
use crate::counting::{hist_count, hist_total, lemma_histogram_complete, lemma_pow6_add, pow6};
use crate::propagate::{advance, build_hists, contrib_v, init_dist, step_v, HistTable};
use crate::table::{build_table, ConfigError};

verus! {

/// The numerators of the exact score distribution after `k` rounds, at the
/// common denominator `iter_den(nmax, k)`: all mass starts at score 0, and
/// every round applies one propagation step.
pub open spec fn iter_nums(win: nat, dice: Seq<usize>, nmax: nat, k: nat) -> Seq<nat>
    decreases k,
{
    if k == 0 {
        Seq::new(win + 1, |d: int| if d == 0 { 1nat } else { 0nat })
    } else {
        let prev = iter_nums(win, dice, nmax, (k - 1) as nat);
        Seq::new(win + 1, |d: int| step_v(win, dice, nmax, prev, d))
    }
}

/// The exact common denominator after `k` rounds: each round scales it by
/// `pow6(nmax)`.
pub open spec fn iter_den(nmax: nat, k: nat) -> nat
    decreases k,
{
    if k == 0 {
        1
    } else {
        iter_den(nmax, (k - 1) as nat) * pow6(nmax)
    }
}

/// Sum of the first `k` entries of a sequence of naturals.
pub open spec fn seq_total(v: Seq<nat>, k: int) -> nat
    decreases k,
{
    if k <= 0 {
        0
    } else {
        seq_total(v, k - 1) + v[k - 1]
    }
}

/// Sum of `contrib_v(win, dice, nmax, old, d, ks)` over `d < kd`.
spec fn contrib_total(win: nat, dice: Seq<usize>, nmax: nat, old: Seq<nat>, kd: int, ks: int) -> nat
    decreases kd,
{
    if kd <= 0 {
        0
    } else {
        contrib_total(win, dice, nmax, old, kd - 1, ks) + contrib_v(
            win,
            dice,
            nmax,
            old,
            kd - 1,
            ks,
        )
    }
}

proof fn lemma_contrib_total_zero(win: nat, dice: Seq<usize>, nmax: nat, old: Seq<nat>, kd: int)
    ensures
        contrib_total(win, dice, nmax, old, kd, 0) == 0,
    decreases kd,
{
    if kd > 0 {
        lemma_contrib_total_zero(win, dice, nmax, old, kd - 1);
    }
}

/// Peeling one live score out of the summed contributions: over all
/// destinations, score `s` contributes its mass, scaled, times its whole
/// histogram prefix.
proof fn lemma_contrib_row(
    win: nat,
    dice: Seq<usize>,
    nmax: nat,
    old: Seq<nat>,
    s: int,
    kd: int,
)
    requires
        0 <= s < win,
        kd >= 0,
    ensures
        contrib_total(win, dice, nmax, old, kd, s + 1) == contrib_total(
            win,
            dice,
            nmax,
            old,
            kd,
            s,
        ) + (old[s] * pow6((nmax - dice[s]) as nat)) * hist_total(
            win,
            s as nat,
            dice[s] as nat,
            kd as nat,
        ),
    decreases kd,
{
    let c = old[s] * pow6((nmax - dice[s]) as nat);
    if kd == 0 {
        assert(hist_total(win, s as nat, dice[s] as nat, 0) == 0);
        assert(c * 0 == 0) by (nonlinear_arith);
    } else {
        lemma_contrib_row(win, dice, nmax, old, s, kd - 1);
        let h = hist_total(win, s as nat, dice[s] as nat, (kd - 1) as nat);
        let hc = hist_count(win, s as nat, dice[s] as nat, (kd - 1) as nat);
        assert(contrib_v(win, dice, nmax, old, kd - 1, s + 1) == contrib_v(
            win,
            dice,
            nmax,
            old,
            kd - 1,
            s,
        ) + c * hc);
        assert(hist_total(win, s as nat, dice[s] as nat, kd as nat) == h + hc);
        assert(c * (h + hc) == c * h + c * hc) by (nonlinear_arith);
    }
}

/// Over the whole bucket range, the live scores below `ks` contribute
/// exactly their mass at the common scale `pow6(nmax)`.
proof fn lemma_contrib_grand(win: nat, dice: Seq<usize>, nmax: nat, old: Seq<nat>, ks: int)
    requires
        0 <= ks <= win,
        dice.len() == win,
        forall|s: int| 0 <= s < win ==> 1 <= #[trigger] dice[s] <= nmax,
    ensures
        contrib_total(win, dice, nmax, old, win + 1 as int, ks) == pow6(nmax) * seq_total(old, ks),
    decreases ks,
{
    if ks == 0 {
        lemma_contrib_total_zero(win, dice, nmax, old, win + 1 as int);
        assert(pow6(nmax) * 0 == 0) by (nonlinear_arith);
    } else {
        lemma_contrib_grand(win, dice, nmax, old, ks - 1);
        lemma_contrib_row(win, dice, nmax, old, ks - 1, win + 1 as int);
        lemma_histogram_complete(win, (ks - 1) as nat, dice[ks - 1] as nat);
        lemma_pow6_add(
            (nmax - dice[ks - 1]) as nat,
            dice[ks - 1] as nat,
        );
        assert((nmax - dice[ks - 1]) as nat + dice[ks - 1] as nat == nmax);
        let o = old[ks - 1];
        let a = pow6((nmax - dice[ks - 1]) as nat);
        let b = pow6(dice[ks - 1] as nat);
        assert((o * a) * b == o * (a * b)) by (nonlinear_arith);
        assert(pow6(nmax) * seq_total(old, ks - 1) + o * pow6(nmax) == pow6(nmax) * (seq_total(
            old,
            ks - 1,
        ) + o)) by (nonlinear_arith);
    }
}

proof fn lemma_step_prefix_total(
    win: nat,
    dice: Seq<usize>,
    nmax: nat,
    old: Seq<nat>,
    k: int,
)
    requires
        0 <= k <= win + 1,
    ensures
        seq_total(Seq::new(win + 1, |d: int| step_v(win, dice, nmax, old, d)), k) == (if k
            > win {
            old[win as int] * pow6(nmax)
        } else {
            0
        }) + contrib_total(win, dice, nmax, old, k, win as int),
    decreases k,
{
    if k > 0 {
        lemma_step_prefix_total(win, dice, nmax, old, k - 1);
    }
}

/// One spec-level propagation step conserves total mass exactly: the new
/// numerators sum to the old sum at the common scale `pow6(nmax)`.
proof fn lemma_step_total(win: nat, dice: Seq<usize>, nmax: nat, old: Seq<nat>)
    requires
        old.len() == win + 1,
        dice.len() == win,
        forall|s: int| 0 <= s < win ==> 1 <= #[trigger] dice[s] <= nmax,
    ensures
        seq_total(Seq::new(win + 1, |d: int| step_v(win, dice, nmax, old, d)), win + 1 as int) == pow6(
            nmax,
        ) * seq_total(old, win + 1 as int),
{
    lemma_step_prefix_total(win, dice, nmax, old, win + 1 as int);
    lemma_contrib_grand(win, dice, nmax, old, win as int);
    let ow = old[win as int];
    assert(ow * pow6(nmax) + pow6(nmax) * seq_total(old, win as int) == pow6(nmax) * (seq_total(
        old,
        win as int,
    ) + ow)) by (nonlinear_arith);
}

proof fn lemma_init_total(win: nat, k: int)
    requires
        1 <= k <= win + 1,
    ensures
        seq_total(Seq::new(win + 1, |d: int| if d == 0 { 1nat } else { 0nat }), k) == 1,
    decreases k,
{
    let v = Seq::new(win + 1, |d: int| if d == 0 { 1nat } else { 0nat });
    if k > 1 {
        lemma_init_total(win, k - 1);
        assert(v[k - 1] == 0nat);
    } else {
        assert(seq_total(v, 0) == 0);
        assert(v[0] == 1nat);
    }
}

/// Conservation, for every round: the total probability mass of the
/// distribution after `k` rounds is exactly 1 — the numerators sum to
/// exactly the round's denominator.
pub proof fn lemma_iter_conservation(win: nat, dice: Seq<usize>, nmax: nat, k: nat)
    requires
        dice.len() == win,
        forall|s: int| 0 <= s < win ==> 1 <= #[trigger] dice[s] <= nmax,
    ensures
        seq_total(iter_nums(win, dice, nmax, k), win + 1 as int) == iter_den(nmax, k),
    decreases k,
{
    if k == 0 {
        lemma_init_total(win, win + 1 as int);
    } else {
        lemma_iter_conservation(win, dice, nmax, (k - 1) as nat);
        let prev = iter_nums(win, dice, nmax, (k - 1) as nat);
        lemma_step_total(win, dice, nmax, prev);
        assert(pow6(nmax) * iter_den(nmax, (k - 1) as nat) == iter_den(nmax, (k - 1) as nat)
            * pow6(nmax)) by (nonlinear_arith);
    }
}

proof fn lemma_entry_le_total(v: Seq<nat>, d: int, k: int)
    requires
        0 <= d < k,
    ensures
        v[d] <= seq_total(v, k),
    decreases k,
{
    if d < k - 1 {
        lemma_entry_le_total(v, d, k - 1);
    }
}

/// The achieved win probability is a genuine probability: in every round
/// the win bucket's numerator is at most the denominator.
pub proof fn lemma_probability_at_most_one(win: nat, dice: Seq<usize>, nmax: nat, k: nat)
    requires
        dice.len() == win,
        forall|s: int| 0 <= s < win ==> 1 <= #[trigger] dice[s] <= nmax,
    ensures
        iter_nums(win, dice, nmax, k)[win as int] <= iter_den(nmax, k),
{
    lemma_iter_conservation(win, dice, nmax, k);
    assert(iter_nums(win, dice, nmax, k).len() == win + 1);
    lemma_entry_le_total(iter_nums(win, dice, nmax, k), win as int, win + 1 as int);
}

/// Monotonic absorption, for every round: the win bucket's probability
/// after round `k + 1` is at least its probability after round `k`, as
/// exact fractions compared by cross-multiplication.
pub proof fn lemma_iter_absorption(win: nat, dice: Seq<usize>, nmax: nat, k: nat)
    ensures
        iter_nums(win, dice, nmax, k + 1)[win as int] * iter_den(nmax, k) >= iter_nums(
            win,
            dice,
            nmax,
            k,
        )[win as int] * iter_den(nmax, k + 1),
{
    let prev = iter_nums(win, dice, nmax, k);
    let ow = prev[win as int];
    assert(iter_nums(win, dice, nmax, k + 1)[win as int] == step_v(
        win,
        dice,
        nmax,
        prev,
        win as int,
    ));
    assert(step_v(win, dice, nmax, prev, win as int) >= ow * pow6(nmax));
    assert(iter_den(nmax, k + 1) == iter_den(nmax, k) * pow6(nmax));
    let sv = step_v(win, dice, nmax, prev, win as int);
    let dk = iter_den(nmax, k);
    assert(sv * dk >= ow * (dk * pow6(nmax))) by (nonlinear_arith)
        requires
            sv >= ow * pow6(nmax),
    ;
}

/// After `k` rounds, the cumulative win probability — the exact fraction
/// `iter_nums(..)[win] / iter_den(..)` — has crossed the termination bound
/// `bnum / bden`, compared exactly by cross-multiplication.
pub open spec fn reached(
    win: nat,
    dice: Seq<usize>,
    nmax: nat,
    k: nat,
    bnum: nat,
    bden: nat,
) -> bool {
    bnum * iter_den(nmax, k) <= iter_nums(win, dice, nmax, k)[win as int] * bden
}

/// Outcome of a run: the number of rounds taken, the achieved win
/// probability as the exact fraction `p_num / p_den`, and whether the
/// termination bound was reached or the round ceiling cut the run short.
pub struct RunResult {
    pub rounds: usize,
    pub p_num: BigUint,
    pub p_den: BigUint,
    pub converged: bool,
}

/// What a finished run guarantees: the reported fraction is the exact win
/// probability after exactly `rounds` rounds of propagation from the
/// initial distribution; the run stopped at the first round that crossed
/// the bound, or at the ceiling without crossing it.
pub open spec fn run_spec(
    win: nat,
    dice: Seq<usize>,
    nmax: nat,
    bnum: nat,
    bden: nat,
    cap: Option<usize>,
    res: RunResult,
) -> bool {
    &&& big_nat(res.p_num) == iter_nums(win, dice, nmax, res.rounds as nat)[win as int]
    &&& big_nat(res.p_den) == iter_den(nmax, res.rounds as nat)
    &&& res.converged == reached(win, dice, nmax, res.rounds as nat, bnum, bden)
    &&& forall|k: nat| 1 <= k < res.rounds ==> !reached(win, dice, nmax, k, bnum, bden)
    &&& res.converged ==> res.rounds >= 1
    &&& !res.converged ==> res.rounds as int == (match cap {
        Some(c) => c as int,
        None => usize::MAX as int,
    })
}

/// The termination controller: starting from all probability mass at score
/// 0, advances the distribution one round at a time, and stops at the first
/// round whose cumulative win probability reaches `bound_num / bound_den`,
/// or once `cap` rounds have run without convergence (`usize::MAX` if no
/// ceiling was supplied). All comparisons are exact.
pub fn run(ht: &HistTable, bound_num: u64, bound_den: u64, cap: Option<usize>) -> (r: RunResult)
    requires
        ht.wf(),
        1 <= ht.win < usize::MAX,
        1 <= bound_num <= bound_den,
    ensures
        run_spec(
            ht.win as nat,
            ht.dice@,
            ht.nmax as nat,
            bound_num as nat,
            bound_den as nat,
            cap,
            r,
        ),
{
    let win = ht.win;
    let ghost wn = win as nat;
    let ghost dicev = ht.dice@;
    let ghost nm = ht.nmax as nat;
    let ghost bn_s = bound_num as nat;
    let ghost bd_s = bound_den as nat;
    let cap_n: usize = match cap {
        Some(c) => c,
        None => usize::MAX,
    };
    let bn = big_from_u64(bound_num);
    let bd = big_from_u64(bound_den);
    let mut dist = init_dist(win);
    proof {
        assert forall|d: int| 0 <= d <= win implies big_vals(dist.nums@)[d] == iter_nums(
            wn,
            dicev,
            nm,
            0,
        )[d] by {
            assert(big_vals(dist.nums@)[d] == big_nat(dist.nums@[d]));
        }
        assert(big_vals(dist.nums@) =~= iter_nums(wn, dicev, nm, 0));
    }
    let mut i: usize = 0;
    loop
        invariant
            i <= cap_n,
            win == ht.win,
            win >= 1,
            wn == win as nat,
            dicev == ht.dice@,
            nm == ht.nmax as nat,
            bn_s == bound_num as nat,
            bd_s == bound_den as nat,
            ht.wf(),
            dist.wf(),
            dist.win == win,
            cap_n == (match cap {
                Some(c) => c,
                None => usize::MAX,
            }),
            big_nat(bn) == bn_s,
            big_nat(bd) == bd_s,
            1 <= bound_num <= bound_den,
            big_vals(dist.nums@) == iter_nums(wn, dicev, nm, i as nat),
            big_nat(dist.den) == iter_den(nm, i as nat),
            forall|k: nat| 1 <= k <= i ==> !reached(wn, dicev, nm, k, bn_s, bd_s),
        decreases cap_n - i,
    {
        if i >= cap_n {
            proof {
                if i == 0 {
                    assert(iter_nums(wn, dicev, nm, 0)[win as int] == 0);
                    assert(iter_den(nm, 0) == 1);
                    assert(!reached(wn, dicev, nm, 0, bn_s, bd_s));
                }
                assert(big_vals(dist.nums@)[win as int] == big_nat(dist.nums@[win as int]));
            }
            return RunResult {
                rounds: i,
                p_num: big_clone(&dist.nums[win]),
                p_den: big_clone(&dist.den),
                converged: false,
            };
        }
        let ghost prev_vals = big_vals(dist.nums@);
        let next = advance(&dist, ht);
        dist = next;
        i = i + 1;
        proof {
            let k = i as nat;
            assert(prev_vals == iter_nums(wn, dicev, nm, (k - 1) as nat));
            assert forall|d: int| 0 <= d <= win implies big_vals(dist.nums@)[d] == iter_nums(
                wn,
                dicev,
                nm,
                k,
            )[d] by {
                assert(big_vals(dist.nums@)[d] == big_nat(dist.nums@[d]));
                assert(big_nat(dist.nums@[d]) == step_v(wn, dicev, nm, prev_vals, d));
                assert(iter_nums(wn, dicev, nm, k)[d] == step_v(
                    wn,
                    dicev,
                    nm,
                    iter_nums(wn, dicev, nm, (k - 1) as nat),
                    d,
                ));
            }
            assert(big_vals(dist.nums@) =~= iter_nums(wn, dicev, nm, k));
            assert(big_nat(dist.den) == iter_den(nm, k));
        }
        let lhs = big_mul(&bn, &dist.den);
        let rhs = big_mul(&dist.nums[win], &bd);
        proof {
            assert(big_vals(dist.nums@)[win as int] == big_nat(dist.nums@[win as int]));
        }
        if big_le(&lhs, &rhs) {
            proof {
                assert(reached(wn, dicev, nm, i as nat, bn_s, bd_s));
            }
            return RunResult {
                rounds: i,
                p_num: big_clone(&dist.nums[win]),
                p_den: big_clone(&dist.den),
                converged: true,
            };
        }
        proof {
            assert(!reached(wn, dicev, nm, i as nat, bn_s, bd_s));
            assert forall|k: nat| 1 <= k <= i implies !reached(wn, dicev, nm, k, bn_s, bd_s) by {
                if k < i as nat {
                    assert(!reached(wn, dicev, nm, k, bn_s, bd_s));
                }
            }
        }
    }
}

/// An evaluation run's full guarantee, for some strategy table `dice` that
/// the oracle answered: the run's contract holds of it, and every entry is
/// an answer the oracle could give for its score.
pub open spec fn eval_ok<F: Fn(usize) -> usize>(
    oracle: F,
    win: usize,
    bnum: nat,
    bden: nat,
    cap: Option<usize>,
    res: RunResult,
    dice: Seq<usize>,
    nmax: nat,
) -> bool {
    &&& run_spec(win as nat, dice, nmax, bnum, bden, cap, res)
    &&& dice.len() == win
    &&& forall|s: int| 0 <= s < win ==> call_ensures(oracle, ((s as usize),), #[trigger] dice[s])
}

/// The engine entry point: builds the strategy table by consulting the
/// oracle once per live score, validates it, caches the classifier's
/// histograms, and runs the termination controller. Fails with a
/// configuration error exactly when the oracle returns zero dice for some
/// live score.
pub fn evaluate_strategy<F: Fn(usize) -> usize>(
    oracle: F,
    win: usize,
    bound_num: u64,
    bound_den: u64,
    cap: Option<usize>,
) -> (r: Result<RunResult, ConfigError>)
    requires
        win >= 1,
        1 <= bound_num <= bound_den,
        forall|s: usize| s < win ==> call_requires(oracle, (s,)),
        forall|s: usize, n: usize|
            #[trigger] call_ensures(oracle, (s,), n) ==> 6 * (n as int) + (win as int)
                < usize::MAX as int,
    ensures
        match r {
            Ok(res) => exists|dice: Seq<usize>, nmax: nat|
                #[trigger] eval_ok(
                    oracle,
                    win,
                    bound_num as nat,
                    bound_den as nat,
                    cap,
                    res,
                    dice,
                    nmax,
                ),
            Err(e) => e.score < win && call_ensures(oracle, (e.score,), 0usize),
        },
{
    let t = match build_table(oracle, win) {
        Ok(t) => t,
        Err(e) => {
            return Err(e);
        },
    };
    proof {
        assert forall|s: int| 0 <= s < t.win implies 6 * (#[trigger] t.dice@[s] as int) + (
        t.win as int) < usize::MAX as int by {
            assert(call_ensures(oracle, ((s as usize),), t.dice@[s]));
        }
        assert(t.fits());
        assert(call_ensures(oracle, (0usize,), t.dice@[0]));
        assert(6 * (t.dice@[0] as int) + (win as int) < usize::MAX as int);
        assert(win < usize::MAX);
    }
    let ghost dice_g = t.dice@;
    let ht = build_hists(t);
    let res = run(&ht, bound_num, bound_den, cap);
    proof {
        assert(ht.dice@ == dice_g);
        assert(eval_ok(
            oracle,
            win,
            bound_num as nat,
            bound_den as nat,
            cap,
            res,
            dice_g,
            ht.nmax as nat,
        ));
    }
    let out: Result<RunResult, ConfigError> = Ok(res);
    proof {
        if let Ok(rr) = &out {
            assert(exists|dice: Seq<usize>, nmax: nat|
                #[trigger] eval_ok(
                    oracle,
                    win,
                    bound_num as nat,
                    bound_den as nat,
                    cap,
                    *rr,
                    dice,
                    nmax,
                ));
        }
    }
    out
}

} // verus!
