//! The two models agree: counting destinations over the exhaustive
//! enumeration gives exactly the classifier's combinatorial histogram.

use vstd::prelude::*;
use crate::counting::{hist_count, lemma_range_concat, lemma_split_on_ones, pow5, pow6, ways_ge1, ways_ge2, ways_one1, ways_sum,
    ways_sum_range};
use crate::enumerate::{all_tuples, count_ones, dest_of, face_total, lemma_all_tuples_count,
    lemma_tuples_valid, tuples_below, valid_tuple};

verus! {

/// Number of outcomes among `ts` that satisfy `p`.
pub open spec fn count_by(ts: Seq<Seq<int>>, p: spec_fn(Seq<int>) -> bool) -> nat
    decreases ts.len(),
{
    if ts.len() == 0 {
        0
    } else {
        count_by(ts.drop_last(), p) + (if p(ts.last()) {
            1nat
        } else {
            0nat
        })
    }
}

/// Outcomes without a 1-face.
pub open spec fn p_zero() -> spec_fn(Seq<int>) -> bool {
    |t: Seq<int>| count_ones(t) == 0
}

/// Outcomes without a 1-face whose faces sum to `s`.
pub open spec fn p_zero_sum(s: int) -> spec_fn(Seq<int>) -> bool {
    |t: Seq<int>| count_ones(t) == 0 && face_total(t) == s
}

/// Outcomes without a 1-face whose faces sum to at least `b`.
pub open spec fn p_zero_ge(b: int) -> spec_fn(Seq<int>) -> bool {
    |t: Seq<int>| count_ones(t) == 0 && face_total(t) >= b
}

/// Outcomes with exactly one 1-face.
pub open spec fn p_one() -> spec_fn(Seq<int>) -> bool {
    |t: Seq<int>| count_ones(t) == 1
}

/// Outcomes with at least one 1-face.
pub open spec fn p_ge1() -> spec_fn(Seq<int>) -> bool {
    |t: Seq<int>| count_ones(t) >= 1
}

/// Outcomes with at least two 1-faces.
pub open spec fn p_ge2() -> spec_fn(Seq<int>) -> bool {
    |t: Seq<int>| count_ones(t) >= 2
}

/// Outcomes that one round moves to the destination bucket `d`.
pub open spec fn p_dest(win: nat, score: nat, d: nat) -> spec_fn(Seq<int>) -> bool {
    |t: Seq<int>| dest_of(win, score, t) == d
}

/// No outcome satisfies the predicate.
spec fn p_never() -> spec_fn(Seq<int>) -> bool {
    |t: Seq<int>| false
}

/// Every outcome satisfies the predicate.
spec fn p_always() -> spec_fn(Seq<int>) -> bool {
    |t: Seq<int>| true
}

proof fn lemma_count_concat(a: Seq<Seq<int>>, b: Seq<Seq<int>>, p: spec_fn(Seq<int>) -> bool)
    ensures
        count_by(a + b, p) == count_by(a, p) + count_by(b, p),
    decreases b.len(),
{
    if b.len() == 0 {
        assert(a + b =~= a);
    } else {
        assert((a + b).drop_last() =~= a + b.drop_last());
        assert((a + b).last() == b.last());
        lemma_count_concat(a, b.drop_last(), p);
    }
}

/// Counting the pushed outcomes under `p` is counting the bare outcomes
/// under the pulled-back predicate `q`.
proof fn lemma_count_map_push(
    ts: Seq<Seq<int>>,
    g: int,
    p: spec_fn(Seq<int>) -> bool,
    q: spec_fn(Seq<int>) -> bool,
)
    requires
        forall|t: Seq<int>| #[trigger] q(t) == p(t.push(g)),
    ensures
        count_by(ts.map_values(|t: Seq<int>| t.push(g)), p) == count_by(ts, q),
    decreases ts.len(),
{
    let m = ts.map_values(|t: Seq<int>| t.push(g));
    if ts.len() > 0 {
        assert(m.drop_last() =~= ts.drop_last().map_values(|t: Seq<int>| t.push(g)));
        assert(m.last() == ts.last().push(g));
        lemma_count_map_push(ts.drop_last(), g, p, q);
    }
}

proof fn lemma_count_never(ts: Seq<Seq<int>>)
    ensures
        count_by(ts, p_never()) == 0,
    decreases ts.len(),
{
    if ts.len() > 0 {
        lemma_count_never(ts.drop_last());
    }
}

proof fn lemma_count_always(ts: Seq<Seq<int>>)
    ensures
        count_by(ts, p_always()) == ts.len(),
    decreases ts.len(),
{
    if ts.len() > 0 {
        lemma_count_always(ts.drop_last());
    }
}

/// A predicate that, on the outcomes at hand, splits into two disjoint
/// parts is counted part by part.
proof fn lemma_count_split(
    ts: Seq<Seq<int>>,
    p: spec_fn(Seq<int>) -> bool,
    q: spec_fn(Seq<int>) -> bool,
    r: spec_fn(Seq<int>) -> bool,
)
    requires
        forall|k: int| 0 <= k < ts.len() ==> (#[trigger] r(ts[k])) == (p(ts[k]) || q(ts[k])),
        forall|k: int| 0 <= k < ts.len() ==> !(p(#[trigger] ts[k]) && q(ts[k])),
    ensures
        count_by(ts, r) == count_by(ts, p) + count_by(ts, q),
    decreases ts.len(),
{
    if ts.len() > 0 {
        assert(ts.last() == ts[ts.len() - 1]);
        assert(forall|k: int| 0 <= k < ts.len() - 1 ==> #[trigger] ts.drop_last()[k] == ts[k]);
        lemma_count_split(ts.drop_last(), p, q, r);
    }
}

/// No element of `ts` satisfies `p`, so the count is zero.
proof fn lemma_count_none(ts: Seq<Seq<int>>, p: spec_fn(Seq<int>) -> bool)
    requires
        forall|k: int| 0 <= k < ts.len() ==> !p(#[trigger] ts[k]),
    ensures
        count_by(ts, p) == 0,
    decreases ts.len(),
{
    if ts.len() > 0 {
        assert(!p(ts.last()));
        lemma_count_none(ts.drop_last(), p);
    }
}

/// The face sums of {2,...,6}-faced `m`-tuples appended with last faces
/// below `f`: the partial convolution that the face-grouped enumeration
/// accumulates block by block.
spec fn conv_below(m: nat, s: int, f: int) -> nat
    decreases f,
{
    if f <= 2 {
        0
    } else {
        conv_below(m, s, f - 1) + ways_sum(m, s - (f - 1))
    }
}


proof fn lemma_push_counts(t: Seq<int>, g: int)
    ensures
        count_ones(t.push(g)) == count_ones(t) + (if g == 1 {
            1nat
        } else {
            0nat
        }),
        face_total(t.push(g)) == face_total(t) + g,
{
    assert(t.push(g).drop_last() =~= t);
    assert(t.push(g).last() == g);
}

#[verifier::rlimit(100)]
proof fn lemma_counts_below(n: nat, f: int)
    requires
        n >= 1,
        1 <= f <= 7,
    ensures
        count_by(tuples_below(n, f), p_zero()) == (if f >= 2 {
            ((f - 2) as nat) * pow5((n - 1) as nat)
        } else {
            0
        }),
        count_by(tuples_below(n, f), p_one()) == (if f >= 2 {
            pow5((n - 1) as nat) + ((f - 2) as nat) * ways_one1((n - 1) as nat)
        } else {
            0
        }),
        count_by(tuples_below(n, f), p_ge1()) == (if f >= 2 {
            pow6((n - 1) as nat) + ((f - 2) as nat) * ways_ge1((n - 1) as nat)
        } else {
            0
        }),
        count_by(tuples_below(n, f), p_ge2()) == (if f >= 2 {
            ways_ge1((n - 1) as nat) + ((f - 2) as nat) * ways_ge2((n - 1) as nat)
        } else {
            0
        }),
        forall|s: int| #[trigger] count_by(tuples_below(n, f), p_zero_sum(s)) == conv_below(
            (n - 1) as nat,
            s,
            f,
        ),
    decreases n, f,
{
    let mm = (n - 1) as nat;
    if f == 1 {
        assert(tuples_below(n, 1) =~= Seq::<Seq<int>>::empty());
        assert forall|s: int| #[trigger] count_by(tuples_below(n, 1), p_zero_sum(s))
            == conv_below(mm, s, 1) by {
            assert(count_by(Seq::<Seq<int>>::empty(), p_zero_sum(s)) == 0);
        }
    } else {
        lemma_counts_below(n, f - 1);
        lemma_counts_all(mm);
        let g = f - 1;
        let at = all_tuples(mm);
        let prev = tuples_below(n, f - 1);
        let blk = at.map_values(|t: Seq<int>| t.push(f - 1));
        assert(tuples_below(n, f) == prev + blk);
        if g == 1 {
            assert forall|t: Seq<int>| #[trigger] (p_never())(t) == (p_zero())(t.push(g)) by {
                lemma_push_counts(t, g);
            }
            assert forall|t: Seq<int>| #[trigger] (p_zero())(t) == (p_one())(t.push(g)) by {
                lemma_push_counts(t, g);
            }
            assert forall|t: Seq<int>| #[trigger] (p_always())(t) == (p_ge1())(t.push(g)) by {
                lemma_push_counts(t, g);
            }
            assert forall|t: Seq<int>| #[trigger] (p_ge1())(t) == (p_ge2())(t.push(g)) by {
                lemma_push_counts(t, g);
            }
            lemma_count_concat(prev, blk, p_zero());
            lemma_count_map_push(at, g, p_zero(), p_never());
            lemma_count_never(at);
            lemma_count_concat(prev, blk, p_one());
            lemma_count_map_push(at, g, p_one(), p_zero());
            lemma_count_concat(prev, blk, p_ge1());
            lemma_count_map_push(at, g, p_ge1(), p_always());
            lemma_count_always(at);
            lemma_all_tuples_count(mm);
            lemma_count_concat(prev, blk, p_ge2());
            lemma_count_map_push(at, g, p_ge2(), p_ge1());
            assert(((f - 2) as nat) * pow5(mm) == 0) by (nonlinear_arith)
                requires
                    f == 2,
            ;
            assert(((f - 2) as nat) * ways_one1(mm) == 0) by (nonlinear_arith)
                requires
                    f == 2,
            ;
            assert(((f - 2) as nat) * ways_ge1(mm) == 0) by (nonlinear_arith)
                requires
                    f == 2,
            ;
            assert(((f - 2) as nat) * ways_ge2(mm) == 0) by (nonlinear_arith)
                requires
                    f == 2,
            ;
            assert forall|s: int| #[trigger] count_by(tuples_below(n, f), p_zero_sum(s))
                == conv_below(mm, s, f) by {
                assert forall|t: Seq<int>| #[trigger] (p_never())(t) == (p_zero_sum(s))(
                    t.push(g),
                ) by {
                    lemma_push_counts(t, g);
                }
                lemma_count_concat(prev, blk, p_zero_sum(s));
                lemma_count_map_push(at, g, p_zero_sum(s), p_never());
                lemma_count_never(at);
            }
        } else {
            assert forall|t: Seq<int>| #[trigger] (p_zero())(t) == (p_zero())(t.push(g)) by {
                lemma_push_counts(t, g);
            }
            assert forall|t: Seq<int>| #[trigger] (p_one())(t) == (p_one())(t.push(g)) by {
                lemma_push_counts(t, g);
            }
            assert forall|t: Seq<int>| #[trigger] (p_ge1())(t) == (p_ge1())(t.push(g)) by {
                lemma_push_counts(t, g);
            }
            assert forall|t: Seq<int>| #[trigger] (p_ge2())(t) == (p_ge2())(t.push(g)) by {
                lemma_push_counts(t, g);
            }
            lemma_count_concat(prev, blk, p_zero());
            lemma_count_map_push(at, g, p_zero(), p_zero());
            lemma_count_concat(prev, blk, p_one());
            lemma_count_map_push(at, g, p_one(), p_one());
            lemma_count_concat(prev, blk, p_ge1());
            lemma_count_map_push(at, g, p_ge1(), p_ge1());
            lemma_count_concat(prev, blk, p_ge2());
            lemma_count_map_push(at, g, p_ge2(), p_ge2());
            assert(((f - 3) as nat) * pow5(mm) + pow5(mm) == ((f - 2) as nat) * pow5(mm))
                by (nonlinear_arith)
                requires
                    3 <= f <= 7,
            ;
            assert(((f - 3) as nat) * ways_one1(mm) + ways_one1(mm) == ((f - 2) as nat)
                * ways_one1(mm)) by (nonlinear_arith)
                requires
                    3 <= f <= 7,
            ;
            assert(((f - 3) as nat) * ways_ge1(mm) + ways_ge1(mm) == ((f - 2) as nat) * ways_ge1(
                mm,
            )) by (nonlinear_arith)
                requires
                    3 <= f <= 7,
            ;
            assert(((f - 3) as nat) * ways_ge2(mm) + ways_ge2(mm) == ((f - 2) as nat) * ways_ge2(
                mm,
            )) by (nonlinear_arith)
                requires
                    3 <= f <= 7,
            ;
            assert forall|s: int| #[trigger] count_by(tuples_below(n, f), p_zero_sum(s))
                == conv_below(mm, s, f) by {
                assert forall|t: Seq<int>| #[trigger] (p_zero_sum(s - g))(t) == (p_zero_sum(s))(
                    t.push(g),
                ) by {
                    lemma_push_counts(t, g);
                }
                lemma_count_concat(prev, blk, p_zero_sum(s));
                lemma_count_map_push(at, g, p_zero_sum(s), p_zero_sum(s - g));
            }
        }
    }
}

/// The face-grouped enumeration, counted class by class: over all ordered
/// `m`-tuples, the no-1s, exactly-one-1, at-least-one-1 and two-or-more-1s
/// outcomes number exactly what the combinatorial recurrences say, and the
/// no-1s outcomes of each face sum number exactly `ways_sum`.
pub proof fn lemma_counts_all(m: nat)
    ensures
        count_by(all_tuples(m), p_zero()) == pow5(m),
        count_by(all_tuples(m), p_one()) == ways_one1(m),
        count_by(all_tuples(m), p_ge1()) == ways_ge1(m),
        count_by(all_tuples(m), p_ge2()) == ways_ge2(m),
        forall|s: int| #[trigger] count_by(all_tuples(m), p_zero_sum(s)) == ways_sum(m, s),
    decreases m, 8int,
{
    if m == 0 {
        let e = Seq::<int>::empty();
        assert(all_tuples(0) =~= seq![e]);
        assert(count_ones(e) == 0);
        assert(face_total(e) == 0);
        assert(seq![e].drop_last() =~= Seq::<Seq<int>>::empty());
        assert(seq![e].last() == e);
        assert(count_by(Seq::<Seq<int>>::empty(), p_zero()) == 0);
        assert(count_by(Seq::<Seq<int>>::empty(), p_one()) == 0);
        assert(count_by(Seq::<Seq<int>>::empty(), p_ge1()) == 0);
        assert(count_by(Seq::<Seq<int>>::empty(), p_ge2()) == 0);
        assert((p_zero())(e));
        assert(!(p_one())(e));
        assert(!(p_ge1())(e));
        assert(!(p_ge2())(e));
        assert(count_by(all_tuples(0), p_zero()) == 1);
        assert(count_by(all_tuples(0), p_one()) == 0);
        assert(count_by(all_tuples(0), p_ge1()) == 0);
        assert(count_by(all_tuples(0), p_ge2()) == 0);
        assert forall|s: int| #[trigger] count_by(all_tuples(0), p_zero_sum(s)) == ways_sum(
            0,
            s,
        ) by {
            assert(count_by(Seq::<Seq<int>>::empty(), p_zero_sum(s)) == 0);
            assert((p_zero_sum(s))(e) == (s == 0));
        }
    } else {
        lemma_counts_below(m, 7);
        let mm = (m - 1) as nat;
        assert(all_tuples(m) == tuples_below(m, 7));
        assert(((7 - 2) as nat) * pow5(mm) == 5 * pow5(mm)) by (nonlinear_arith);
        assert(((7 - 2) as nat) * ways_one1(mm) == 5 * ways_one1(mm)) by (nonlinear_arith);
        assert(((7 - 2) as nat) * ways_ge1(mm) == 5 * ways_ge1(mm)) by (nonlinear_arith);
        assert(((7 - 2) as nat) * ways_ge2(mm) == 5 * ways_ge2(mm)) by (nonlinear_arith);
        lemma_split_on_ones(mm);
        assert forall|s: int| #[trigger] count_by(all_tuples(m), p_zero_sum(s)) == ways_sum(
            m,
            s,
        ) by {
            assert(conv_below(mm, s, 2) == 0);
            assert(conv_below(mm, s, 3) == ways_sum(mm, s - 2));
            assert(conv_below(mm, s, 4) == ways_sum(mm, s - 2) + ways_sum(mm, s - 3));
            assert(conv_below(mm, s, 5) == ways_sum(mm, s - 2) + ways_sum(mm, s - 3) + ways_sum(
                mm,
                s - 4,
            ));
            assert(conv_below(mm, s, 6) == ways_sum(mm, s - 2) + ways_sum(mm, s - 3) + ways_sum(
                mm,
                s - 4,
            ) + ways_sum(mm, s - 5));
            assert(conv_below(mm, s, 7) == ways_sum(mm, s - 2) + ways_sum(mm, s - 3) + ways_sum(
                mm,
                s - 4,
            ) + ways_sum(mm, s - 5) + ways_sum(mm, s - 6));
        }
    }
}


proof fn lemma_face_total_lower(t: Seq<int>)
    requires
        forall|i: int| 0 <= i < t.len() ==> 1 <= #[trigger] t[i],
    ensures
        face_total(t) >= t.len(),
    decreases t.len(),
{
    if t.len() > 0 {
        lemma_face_total_lower(t.drop_last());
    }
}

proof fn lemma_face_total_bound(t: Seq<int>)
    requires
        forall|i: int| 0 <= i < t.len() ==> #[trigger] t[i] <= 6,
    ensures
        face_total(t) <= 6 * t.len(),
    decreases t.len(),
{
    if t.len() > 0 {
        lemma_face_total_bound(t.drop_last());
    }
}

/// Among all ordered `n`-tuples, the no-1s outcomes whose faces sum to at
/// least `b` number exactly the tail of the face-sum distribution.
proof fn lemma_count_zero_ge(n: nat, b: int)
    ensures
        count_by(all_tuples(n), p_zero_ge(b)) == ways_sum_range(n, b, 6 * n + 1 as int),
    decreases 6 * n + 1 - b,
{
    let ts = all_tuples(n);
    let hi = 6 * n + 1 as int;
    lemma_tuples_valid(n);
    if b > 6 * n {
        assert forall|k: int| 0 <= k < ts.len() implies !(p_zero_ge(b))(#[trigger] ts[k]) by {
            lemma_face_total_bound(ts[k]);
        }
        lemma_count_none(ts, p_zero_ge(b));
        assert(ways_sum_range(n, b, hi) == 0);
    } else {
        lemma_count_zero_ge(n, b + 1);
        lemma_counts_all(n);
        assert forall|k: int| 0 <= k < ts.len() implies (#[trigger] (p_zero_ge(b))(ts[k])) == ((
        p_zero_sum(b))(ts[k]) || (p_zero_ge(b + 1))(ts[k])) by {}
        assert forall|k: int| 0 <= k < ts.len() implies !((p_zero_sum(b))(#[trigger] ts[k]) && (
        p_zero_ge(b + 1))(ts[k])) by {}
        lemma_count_split(ts, p_zero_sum(b), p_zero_ge(b + 1), p_zero_ge(b));
        lemma_range_concat(n, b, b + 1, hi);
        assert(ways_sum_range(n, b, b) == 0);
        assert(ways_sum_range(n, b, b + 1) == ways_sum(n, b));
    }
}

/// The two models agree: for every destination bucket, the classifier's
/// combinatorial count `hist_count` equals the number of ordered outcomes
/// in the exhaustive enumeration that one round sends to that bucket.
pub proof fn lemma_classify_matches_enumeration(win: nat, score: nat, n: nat, d: nat)
    requires
        score < win,
        d <= win,
    ensures
        count_by(all_tuples(n), p_dest(win, score, d)) == hist_count(win, score, n, d),
{
    let ts = all_tuples(n);
    lemma_counts_all(n);
    lemma_count_zero_ge(n, win - score);
    let pa = if d == 0 {
        p_ge2()
    } else {
        p_never()
    };
    let pb = if d == score {
        p_one()
    } else {
        p_never()
    };
    let pc = if d < win {
        p_zero_sum(d - score)
    } else {
        p_zero_ge(win - score)
    };
    let pbc = |t: Seq<int>| pb(t) || pc(t);
    lemma_tuples_valid(n);
    assert forall|k: int| 0 <= k < ts.len() implies (#[trigger] (pbc)(ts[k])) == ((pb)(ts[k])
        || (pc)(ts[k])) by {}
    assert forall|k: int| 0 <= k < ts.len() implies !((pb)(#[trigger] ts[k]) && (pc)(
    ts[k])) by {}
    lemma_count_split(ts, pb, pc, pbc);
    assert forall|k: int| 0 <= k < ts.len() implies (#[trigger] (p_dest(win, score, d))(ts[k]))
        == ((pa)(ts[k]) || (pbc)(ts[k])) by {
        let t = ts[k];
        assert(valid_tuple(t, n));
        lemma_face_total_lower(t);
        let tot = face_total(t);
        if count_ones(t) == 0 && d < win {
            if score + tot >= win {
                assert(dest_of(win, score, t) == win);
            } else {
                assert(dest_of(win, score, t) == score + tot);
            }
        }
    }
    assert forall|k: int| 0 <= k < ts.len() implies !((pa)(#[trigger] ts[k]) && (pbc)(
    ts[k])) by {}
    lemma_count_split(ts, pa, pbc, p_dest(win, score, d));
    lemma_count_never(ts);
}

} // verus!
