//! The distribution propagator: advances the exact score distribution by
//! one round through the cached histograms, conserving total mass.

use vstd::prelude::*;
use vstd::pervasive::VecAdditionalExecFns;
use num_bigint::BigUint;
use crate::bignat::{
    big_add, big_from_u64, big_mul, big_nat, big_sum, big_vals, lemma_big_sum_pointwise,
    lemma_big_sum_update,
};
use crate::classify::classify;
use crate::counting::{hist_count, hist_total, lemma_histogram_complete, lemma_pow6_add,
    lemma_pow6_pos, pow6};
use crate::table::StrategyTable;

verus! {

/// `pow6(e)` as an exact big integer.
pub fn big_pow6(e: usize) -> (r: BigUint)
    ensures
        big_nat(r) == pow6(e as nat),
{
    let six = big_from_u64(6);
    let mut r = big_from_u64(1);
    let mut i: usize = 0;
    while i < e
        invariant
            i <= e,
            big_nat(six) == 6,
            big_nat(r) == pow6(i as nat),
        decreases e - i,
    {
        r = big_mul(&six, &r);
        i = i + 1;
    }
    r
}

/// The per-run cache of the outcome classifier: for every live score `s`,
/// the exact transition histogram for the dice count the strategy picks
/// there, together with the scale factors that bring every live score's
/// outcome space to the common denominator `pow6(nmax)` of one round.
pub struct HistTable {
    pub win: usize,
    pub dice: Vec<usize>,
    pub nmax: usize,
    pub hists: Vec<Vec<BigUint>>,
    pub scales: Vec<BigUint>,
    pub m: BigUint,
}

impl HistTable {
    pub open spec fn wf(self) -> bool {
        &&& self.dice@.len() == self.win
        &&& self.hists@.len() == self.win
        &&& self.scales@.len() == self.win
        &&& forall|s: int| 0 <= s < self.win ==> 1 <= #[trigger] self.dice@[s] <= self.nmax
        &&& forall|s: int|
            0 <= s < self.win ==> (#[trigger] self.hists@[s])@.len() == self.win + 1
        &&& forall|s: int, d: int|
            0 <= s < self.win && 0 <= d <= self.win ==> big_nat(#[trigger] self.hists@[s]@[d])
                == hist_count(self.win as nat, s as nat, self.dice@[s] as nat, d as nat)
        &&& forall|s: int|
            0 <= s < self.win ==> big_sum((#[trigger] self.hists@[s])@, self.win + 1) == pow6(
                self.dice@[s] as nat,
            )
        &&& forall|s: int|
            0 <= s < self.win ==> big_nat(#[trigger] self.scales@[s]) == pow6(
                (self.nmax - self.dice@[s]) as nat,
            )
        &&& big_nat(self.m) == pow6(self.nmax as nat)
    }
}

/// A histogram whose buckets hold the per-destination counts sums to the
/// running total of those counts.
proof fn lemma_big_sum_hist(h: Seq<BigUint>, win: nat, score: nat, n: nat, k: int)
    requires
        0 <= k <= win + 1,
        forall|d: int| 0 <= d < k ==> big_nat(#[trigger] h[d]) == hist_count(
            win,
            score,
            n,
            d as nat,
        ),
    ensures
        big_sum(h, k) == hist_total(win, score, n, k as nat),
    decreases k,
{
    if k > 0 {
        lemma_big_sum_hist(h, win, score, n, k - 1);
    }
}

/// Builds the classifier cache for a validated strategy table: classifies
/// every live score once, and fixes the common round denominator as
/// `pow6(nmax)` for the largest dice count `nmax` in the table.
pub fn build_hists(t: StrategyTable) -> (ht: HistTable)
    requires
        t.wf(),
        t.fits(),
    ensures
        ht.wf(),
        ht.win == t.win,
        ht.dice@ == t.dice@,
        t.win > 0 ==> exists|j: int| 0 <= j < t.win && ht.dice@[j] == ht.nmax,
{
    let win = t.win;
    let mut nmax: usize = 0;
    let mut s: usize = 0;
    while s < win
        invariant
            s <= win,
            t.wf(),
            win == t.win,
            forall|j: int| 0 <= j < s ==> #[trigger] t.dice@[j] <= nmax,
            s == 0 ==> nmax == 0,
            s > 0 ==> exists|j: int| 0 <= j < s && #[trigger] t.dice@[j] == nmax,
        decreases win - s,
    {
        if t.dice[s] > nmax {
            nmax = t.dice[s];
        }
        proof {
            if t.dice@[s as int] == nmax {
                assert(0 <= (s as int) && (s as int) < s + 1 && t.dice@[s as int] == nmax);
            } else {
                assert(s > 0);
                let j = choose|j: int| 0 <= j < s && #[trigger] t.dice@[j] == nmax;
                assert(0 <= j < s + 1 && t.dice@[j] == nmax);
            }
        }
        s = s + 1;
    }
    let mut hists: Vec<Vec<BigUint>> = Vec::new();
    let mut scales: Vec<BigUint> = Vec::new();
    let mut s: usize = 0;
    while s < win
        invariant
            s <= win,
            t.wf(),
            t.fits(),
            win == t.win,
            forall|j: int| 0 <= j < win ==> #[trigger] t.dice@[j] <= nmax,
            hists@.len() == s,
            scales@.len() == s,
            forall|j: int| 0 <= j < s ==> (#[trigger] hists@[j])@.len() == win + 1,
            forall|j: int, d: int|
                0 <= j < s && 0 <= d <= win ==> big_nat(#[trigger] hists@[j]@[d]) == hist_count(
                    win as nat,
                    j as nat,
                    t.dice@[j] as nat,
                    d as nat,
                ),
            forall|j: int|
                0 <= j < s ==> big_sum((#[trigger] hists@[j])@, win + 1) == pow6(
                    t.dice@[j] as nat,
                ),
            forall|j: int|
                0 <= j < s ==> big_nat(#[trigger] scales@[j]) == pow6(
                    (nmax - t.dice@[j]) as nat,
                ),
        decreases win - s,
    {
        let h = classify(s, t.dice[s], win);
        proof {
            lemma_histogram_complete(win as nat, s as nat, t.dice@[s as int] as nat);
            lemma_big_sum_hist(h@, win as nat, s as nat, t.dice@[s as int] as nat, win + 1);
        }
        hists.push(h);
        scales.push(big_pow6(nmax - t.dice[s]));
        s = s + 1;
    }
    let m = big_pow6(nmax);
    HistTable { win, dice: t.dice, nmax, hists, scales, m }
}

/// Contribution of the live scores below `k` to the next round's bucket `d`:
/// each live score's mass, scaled to the common denominator, times the count
/// of outcomes that send it to `d`.
pub open spec fn contrib_v(
    win: nat,
    dice: Seq<usize>,
    nmax: nat,
    old: Seq<nat>,
    d: int,
    k: int,
) -> nat
    decreases k,
{
    if k <= 0 {
        0
    } else {
        contrib_v(win, dice, nmax, old, d, k - 1) + (old[k - 1] * pow6(
            (nmax - dice[k - 1]) as nat,
        )) * hist_count(win, (k - 1) as nat, dice[k - 1] as nat, d as nat)
    }
}

/// The value of bucket `d` after one propagation round, at the common
/// denominator `pow6(nmax)` times the old denominator: the win bucket keeps
/// its own (absorbing) mass, and every bucket gains the live contributions.
pub open spec fn step_v(win: nat, dice: Seq<usize>, nmax: nat, old: Seq<nat>, d: int) -> nat {
    (if d == win {
        old[d] * pow6(nmax)
    } else {
        0
    }) + contrib_v(win, dice, nmax, old, d, win as int)
}

/// An exact probability distribution over the score buckets `0..=win`:
/// bucket `d` carries the probability `nums[d] / den`.
pub struct Dist {
    pub win: usize,
    pub nums: Vec<BigUint>,
    pub den: BigUint,
}

impl Dist {
    pub open spec fn wf(self) -> bool {
        &&& self.nums@.len() == self.win + 1
        &&& big_nat(self.den) >= 1
    }

    /// Total numerator mass over all buckets.
    pub open spec fn total(self) -> nat {
        big_sum(self.nums@, self.win + 1)
    }
}

/// The starting distribution: all probability mass on score 0.
pub fn init_dist(win: usize) -> (r: Dist)
    requires
        win < usize::MAX,
    ensures
        r.wf(),
        r.win == win,
        big_nat(r.den) == 1,
        big_nat(r.nums@[0]) == 1,
        forall|d: int| 1 <= d <= win ==> big_nat(#[trigger] r.nums@[d]) == 0,
        r.total() == 1,
{
    let mut nums: Vec<BigUint> = Vec::new();
    nums.push(big_from_u64(1));
    proof {
        assert(big_sum(nums@, 0) == 0);
    }
    let mut d: usize = 1;
    while d < win + 1
        invariant
            1 <= d <= win + 1,
            win < usize::MAX,
            nums@.len() == d,
            big_nat(nums@[0]) == 1,
            forall|j: int| 1 <= j < d ==> big_nat(#[trigger] nums@[j]) == 0,
            big_sum(nums@, d as int) == 1,
        decreases win + 1 - d,
    {
        let ghost pre = nums@;
        nums.push(big_from_u64(0));
        proof {
            lemma_big_sum_pointwise(pre, nums@, d as int);
        }
        d = d + 1;
    }
    Dist { win, nums, den: big_from_u64(1) }
}

/// What one propagation round leaves behind, relative to what it was given:
/// the new denominator is the old one at the common round scale, every
/// bucket holds exactly its absorbed plus contributed mass, the total mass
/// scales by exactly the same factor as the denominator (conservation), and
/// the win bucket never loses (absorption).
pub open spec fn advance_rel(old: Dist, new: Dist, ht: HistTable) -> bool {
    &&& new.win == old.win
    &&& new.nums@.len() == old.win + 1
    &&& big_nat(new.den) == big_nat(old.den) * pow6(ht.nmax as nat)
    &&& forall|d: int|
        0 <= d <= old.win ==> big_nat(#[trigger] new.nums@[d]) == step_v(
            old.win as nat,
            ht.dice@,
            ht.nmax as nat,
            big_vals(old.nums@),
            d,
        )
    &&& new.total() == old.total() * pow6(ht.nmax as nat)
    &&& big_nat(new.nums@[old.win as int]) >= big_nat(old.nums@[old.win as int]) * pow6(
        ht.nmax as nat,
    )
}

/// One round of the distribution propagator: redistributes every live
/// bucket's mass through its cached transition histogram, treats the win
/// bucket as absorbing, and returns a new distribution at the common
/// denominator, conserving total probability exactly.
pub fn advance(dist: &Dist, ht: &HistTable) -> (r: Dist)
    requires
        dist.wf(),
        ht.wf(),
        dist.win == ht.win,
    ensures
        r.wf(),
        advance_rel(*dist, r, *ht),
{
    let win = dist.win;
    let len = dist.nums.len();
    let ghost wn = win as nat;
    let ghost dicev = ht.dice@;
    let ghost nm = ht.nmax as nat;
    let ghost oldv = big_vals(dist.nums@);
    let ghost mval = pow6(nm);
    let mut nums: Vec<BigUint> = Vec::new();
    let mut d: usize = 0;
    while d < len
        invariant
            d <= len,
            len == win + 1,
            nums@.len() == d,
            forall|j: int| 0 <= j < d ==> big_nat(#[trigger] nums@[j]) == 0,
            big_sum(nums@, d as int) == 0,
        decreases len - d,
    {
        let ghost pre = nums@;
        nums.push(big_from_u64(0));
        proof {
            lemma_big_sum_pointwise(pre, nums@, d as int);
        }
        d = d + 1;
    }
    let aw = big_mul(&dist.nums[win], &ht.m);
    let ghost pre = nums@;
    nums.set(win, aw);
    proof {
        lemma_big_sum_update(pre, nums@, win as int, win + 1);
        assert(oldv[win as int] == big_nat(dist.nums@[win as int]));
        assert(big_sum(nums@, win + 1) == oldv[win as int] * mval);
        assert(forall|j: int| 0 <= j <= win ==> contrib_v(wn, dicev, nm, oldv, j, 0) == 0);
        assert(big_sum(dist.nums@, 0) == 0);
        assert(forall|j: int|
            0 <= j <= win ==> big_nat(#[trigger] nums@[j]) == (if j == win as int {
                oldv[j] * mval
            } else {
                0
            }) + contrib_v(wn, dicev, nm, oldv, j, 0));
    }
    let mut s: usize = 0;
    while s < win
        invariant
            s <= win,
            win == dist.win,
            win == ht.win,
            dist.wf(),
            ht.wf(),
            wn == win as nat,
            dicev == ht.dice@,
            nm == ht.nmax as nat,
            oldv == big_vals(dist.nums@),
            mval == pow6(nm),
            len == win + 1,
            nums@.len() == win + 1,
            forall|j: int|
                0 <= j <= win ==> big_nat(#[trigger] nums@[j]) == (if j == win as int {
                    oldv[j] * mval
                } else {
                    0
                }) + contrib_v(wn, dicev, nm, oldv, j, s as int),
            big_sum(nums@, win + 1) == oldv[win as int] * mval + big_sum(dist.nums@, s as int)
                * mval,
        decreases win - s,
    {
        let c = big_mul(&dist.nums[s], &ht.scales[s]);
        let ghost cval = oldv[s as int] * pow6((nm - dicev[s as int]) as nat);
        let ghost sum_start = big_sum(nums@, win + 1);
        let ghost hs = ht.hists@[s as int]@;
        proof {
            assert(oldv[s as int] == big_nat(dist.nums@[s as int]));
            assert(big_sum(hs, 0) == 0);
        }
        let mut d: usize = 0;
        while d < len
            invariant
                d <= len,
                len == win + 1,
                s < win,
                win == dist.win,
                win == ht.win,
                dist.wf(),
                ht.wf(),
                wn == win as nat,
                dicev == ht.dice@,
                nm == ht.nmax as nat,
                oldv == big_vals(dist.nums@),
                mval == pow6(nm),
                big_nat(c) == cval,
                cval == oldv[s as int] * pow6((nm - dicev[s as int]) as nat),
                hs == ht.hists@[s as int]@,
                sum_start == oldv[win as int] * mval + big_sum(dist.nums@, s as int) * mval,
                nums@.len() == win + 1,
                forall|j: int|
                    0 <= j < d ==> big_nat(#[trigger] nums@[j]) == (if j == win as int {
                        oldv[j] * mval
                    } else {
                        0
                    }) + contrib_v(wn, dicev, nm, oldv, j, s + 1),
                forall|j: int|
                    d <= j <= win ==> big_nat(#[trigger] nums@[j]) == (if j == win as int {
                        oldv[j] * mval
                    } else {
                        0
                    }) + contrib_v(wn, dicev, nm, oldv, j, s as int),
                big_sum(nums@, win + 1) == sum_start + cval * big_sum(hs, d as int),
            decreases win + 1 - d,
        {
            let add = big_mul(&c, &ht.hists[s][d]);
            let upd = big_add(&nums[d], &add);
            let ghost pre = nums@;
            nums.set(d, upd);
            proof {
                assert(big_nat(ht.hists@[s as int]@[d as int]) == hist_count(
                    wn,
                    s as nat,
                    dicev[s as int] as nat,
                    d as nat,
                ));
                assert(contrib_v(wn, dicev, nm, oldv, d as int, s + 1) == contrib_v(
                    wn,
                    dicev,
                    nm,
                    oldv,
                    d as int,
                    s as int,
                ) + (oldv[s as int] * pow6((nm - dicev[s as int]) as nat)) * hist_count(
                    wn,
                    s as nat,
                    dicev[s as int] as nat,
                    d as nat,
                ));
                assert(big_nat(nums@[d as int]) == big_nat(pre[d as int]) + cval * big_nat(
                    hs[d as int],
                ));
                assert forall|j: int| 0 <= j < d + 1 implies big_nat(#[trigger] nums@[j]) == (
                if j == win as int {
                    oldv[j] * mval
                } else {
                    0
                }) + contrib_v(wn, dicev, nm, oldv, j, s + 1) by {
                    if j < d as int {
                        assert(nums@[j] == pre[j]);
                    } else {
                        assert(big_nat(pre[j]) == (if j == win as int {
                            oldv[j] * mval
                        } else {
                            0
                        }) + contrib_v(wn, dicev, nm, oldv, j, s as int));
                    }
                }
                lemma_big_sum_update(pre, nums@, d as int, win + 1);
                assert(big_sum(nums@, win + 1) == sum_start + cval * big_sum(hs, d as int) + cval
                    * big_nat(hs[d as int]));
                assert(cval * big_sum(hs, d as int) + cval * big_nat(hs[d as int]) == cval * (
                big_sum(hs, d as int) + big_nat(hs[d as int]))) by (nonlinear_arith);
                assert(big_sum(hs, d + 1) == big_sum(hs, d as int) + big_nat(hs[d as int]));
            }
            d = d + 1;
        }
        proof {
            assert(big_sum(nums@, win + 1) == sum_start + cval * big_sum(hs, win + 1));
            assert(big_sum(hs, win + 1) == pow6(dicev[s as int] as nat));
            lemma_pow6_add((nm - dicev[s as int]) as nat, dicev[s as int] as nat);
            assert((nm - dicev[s as int]) as nat + dicev[s as int] as nat == nm);
            assert(cval * pow6(dicev[s as int] as nat) == oldv[s as int] * mval)
                by (nonlinear_arith)
                requires
                    cval == oldv[s as int] * pow6((nm - dicev[s as int]) as nat),
                    pow6((nm - dicev[s as int]) as nat) * pow6(dicev[s as int] as nat) == pow6(nm),
                    mval == pow6(nm),
            ;
            assert(big_sum(dist.nums@, s + 1) == big_sum(dist.nums@, s as int) + oldv[s as int]);
            assert(oldv[win as int] * mval + big_sum(dist.nums@, s as int) * mval + oldv[s as int]
                * mval == oldv[win as int] * mval + (big_sum(dist.nums@, s as int) + oldv[
                s as int]) * mval) by (nonlinear_arith);
        }
        s = s + 1;
    }
    let den = big_mul(&dist.den, &ht.m);
    proof {
        lemma_pow6_pos(nm);
        assert(big_nat(den) >= 1) by (nonlinear_arith)
            requires
                big_nat(den) == big_nat(dist.den) * pow6(nm),
                big_nat(dist.den) >= 1,
                pow6(nm) >= 1,
        ;
        assert(big_sum(dist.nums@, win + 1) == big_sum(dist.nums@, win as int) + oldv[win as int]);
        assert(oldv[win as int] * mval + big_sum(dist.nums@, win as int) * mval == (big_sum(
            dist.nums@,
            win as int,
        ) + oldv[win as int]) * mval) by (nonlinear_arith);
    }
    Dist { win, nums, den }
}

/// Conservation law: one propagation round redistributes probability but
/// never creates or destroys it — the total mass of the new distribution,
/// as an exact fraction, equals the total mass of the old one.
pub proof fn lemma_round_conservation(old: Dist, new: Dist, ht: HistTable)
    requires
        old.wf(),
        ht.wf(),
        advance_rel(old, new, ht),
    ensures
        new.total() * big_nat(old.den) == old.total() * big_nat(new.den),
{
    assert((old.total() * pow6(ht.nmax as nat)) * big_nat(old.den) == old.total() * (big_nat(
        old.den,
    ) * pow6(ht.nmax as nat))) by (nonlinear_arith);
}

/// Monotonic absorption: the win bucket only accumulates — after one
/// propagation round its probability, as an exact fraction, is at least
/// what it was before.
pub proof fn lemma_round_absorption(old: Dist, new: Dist, ht: HistTable)
    requires
        old.wf(),
        ht.wf(),
        advance_rel(old, new, ht),
    ensures
        big_nat(new.nums@[new.win as int]) * big_nat(old.den) >= big_nat(
            old.nums@[old.win as int],
        ) * big_nat(new.den),
{
    let ow = big_nat(old.nums@[old.win as int]);
    let nw = big_nat(new.nums@[new.win as int]);
    let m = pow6(ht.nmax as nat);
    assert(nw * big_nat(old.den) >= ow * (big_nat(old.den) * m)) by (nonlinear_arith)
        requires
            nw >= ow * m,
    ;
}

} // verus!
