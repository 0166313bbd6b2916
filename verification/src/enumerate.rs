//! The exhaustive model of one round: every ordered dice outcome,
//! materialized, with its destination bucket.

use vstd::prelude::*;
use crate::counting::pow6;

verus! {

/// The faces of an executable roll tuple, as spec integers.
pub open spec fn face_view(t: Seq<usize>) -> Seq<int> {
    t.map_values(|x: usize| x as int)
}

/// The roll tuples held by an executable enumeration, as spec sequences.
pub open spec fn rolls_view(r: Seq<Vec<usize>>) -> Seq<Seq<int>> {
    r.map_values(|v: Vec<usize>| face_view(v@))
}

/// Every ordered tuple of `n` die faces from {1,...,6}, in enumeration
/// order: grouped by the last face, recursively. A single empty tuple for
/// `n == 0`.
pub open spec fn all_tuples(n: nat) -> Seq<Seq<int>>
    decreases n, 8int,
{
    if n == 0 {
        seq![Seq::<int>::empty()]
    } else {
        tuples_below(n, 7)
    }
}

/// The ordered `n`-tuples of die faces whose last face is below `f`, in
/// enumeration order.
pub open spec fn tuples_below(n: nat, f: int) -> Seq<Seq<int>>
    recommends
        n >= 1,
    decreases n, f,
{
    if n == 0 || f <= 1 {
        Seq::empty()
    } else {
        tuples_below(n, f - 1) + all_tuples((n - 1) as nat).map_values(
            |t: Seq<int>| t.push(f - 1),
        )
    }
}

/// A tuple of exactly `n` faces, each a die face.
pub open spec fn valid_tuple(t: Seq<int>, n: nat) -> bool {
    &&& t.len() == n
    &&& forall|i: int| 0 <= i < t.len() ==> 1 <= #[trigger] t[i] <= 6
}

proof fn lemma_below_valid(n: nat, f: int)
    requires
        n >= 1,
        f <= 7,
    ensures
        forall|k: int|
            0 <= k < tuples_below(n, f).len() ==> valid_tuple(#[trigger] tuples_below(n, f)[k], n),
    decreases n, f,
{
    if f > 1 {
        lemma_below_valid(n, f - 1);
        lemma_tuples_valid((n - 1) as nat);
        let prev = tuples_below(n, f - 1);
        let blk = all_tuples((n - 1) as nat).map_values(|t: Seq<int>| t.push(f - 1));
        assert(tuples_below(n, f) == prev + blk);
        assert forall|k: int|
            0 <= k < tuples_below(n, f).len() implies valid_tuple(
            #[trigger] tuples_below(n, f)[k],
            n,
        ) by {
            if k >= prev.len() {
                let u = all_tuples((n - 1) as nat)[k - prev.len()];
                assert(valid_tuple(u, (n - 1) as nat));
                assert(blk[k - prev.len()] == u.push(f - 1));
                assert(tuples_below(n, f)[k] == u.push(f - 1));
                assert forall|i: int| 0 <= i < u.push(f - 1).len() implies 1 <= #[trigger] u.push(
                    f - 1,
                )[i] <= 6 by {
                    if i < u.len() {
                        assert(u.push(f - 1)[i] == u[i]);
                    } else {
                        assert(u.push(f - 1)[i] == f - 1);
                    }
                }
            }
        }
    }
}

/// Every enumerated tuple has exactly `n` faces, each in {1,...,6}.
pub proof fn lemma_tuples_valid(n: nat)
    ensures
        forall|k: int|
            0 <= k < all_tuples(n).len() ==> valid_tuple(#[trigger] all_tuples(n)[k], n),
    decreases n, 9int,
{
    if n > 0 {
        lemma_below_valid(n, 7);
        assert(all_tuples(n) == tuples_below(n, 7));
    } else {
        assert(all_tuples(0)[0] =~= Seq::<int>::empty());
        assert(valid_tuple(all_tuples(0)[0], 0));
    }
}

proof fn lemma_below_count(n: nat, f: int)
    requires
        n >= 1,
        1 <= f <= 7,
    ensures
        tuples_below(n, f).len() == (f - 1) * pow6((n - 1) as nat),
    decreases n, f,
{
    if f == 1 {
    } else {
        lemma_below_count(n, f - 1);
        lemma_all_tuples_count((n - 1) as nat);
        let blk = all_tuples((n - 1) as nat).map_values(|t: Seq<int>| t.push(f - 1));
        assert(tuples_below(n, f) == tuples_below(n, f - 1) + blk);
        assert(blk.len() == pow6((n - 1) as nat));
        assert((f - 2) * pow6((n - 1) as nat) + pow6((n - 1) as nat) == (f - 1) * pow6(
            (n - 1) as nat,
        )) by (nonlinear_arith);
    }
}

/// The enumeration is complete in number: there are exactly `pow6(n)`
/// ordered tuples of `n` die faces.
pub proof fn lemma_all_tuples_count(n: nat)
    ensures
        all_tuples(n).len() == pow6(n),
    decreases n, 9int,
{
    if n > 0 {
        lemma_below_count(n, 7);
        assert(6 * pow6((n - 1) as nat) == pow6(n));
    }
}

/// The number of 1-faces in an outcome.
pub open spec fn count_ones(t: Seq<int>) -> nat
    decreases t.len(),
{
    if t.len() == 0 {
        0
    } else {
        count_ones(t.drop_last()) + (if t.last() == 1 {
            1nat
        } else {
            0nat
        })
    }
}

/// The sum of all faces in an outcome.
pub open spec fn face_total(t: Seq<int>) -> int
    decreases t.len(),
{
    if t.len() == 0 {
        0
    } else {
        face_total(t.drop_last()) + t.last()
    }
}

/// The destination bucket of one ordered outcome rolled from the live score
/// `score`: two or more 1s reset to 0, exactly one 1 forfeits the round and
/// keeps `score`, and otherwise the face sum is added and capped at `win`.
/// (With no 1s rolled, the sum of all faces is the sum of the non-1 faces.)
pub open spec fn dest_of(win: nat, score: nat, t: Seq<int>) -> nat {
    if count_ones(t) >= 2 {
        0
    } else if count_ones(t) == 1 {
        score
    } else if score + face_total(t) >= win {
        win
    } else {
        (score + face_total(t)) as nat
    }
}

/// Materializes every ordered outcome of rolling `to_roll` dice, in
/// enumeration order. Exponential in `to_roll`; the classifier counts the
/// same outcomes combinatorially without building them.
pub fn gen_rolls(to_roll: usize) -> (r: Vec<Vec<usize>>)
    requires
        1 <= to_roll,
    ensures
        rolls_view(r@) == all_tuples(to_roll as nat),
    decreases to_roll,
{
    let ghost nn = to_roll as nat;
    let mut r: Vec<Vec<usize>> = Vec::new();
    let mut f: usize = 1;
    while f <= 6
        invariant
            1 <= f <= 7,
            1 <= to_roll,
            nn == to_roll as nat,
            rolls_view(r@) == tuples_below(nn, f as int),
        decreases 7 - f,
    {
        if to_roll == 1 {
            let mut t: Vec<usize> = Vec::new();
            t.push(f);
            let ghost pre = r@;
            r.push(t);
            proof {
                let blk = all_tuples(0).map_values(|u: Seq<int>| u.push(f as int));
                assert(face_view(t@) =~= Seq::<int>::empty().push(f as int));
                assert(blk[0] == Seq::<int>::empty().push(f as int));
                assert(rolls_view(r@) =~~= tuples_below(nn, f as int) + blk);
                assert(tuples_below(nn, f + 1) == tuples_below(nn, f as int) + blk);
            }
        } else {
            let smaller = gen_rolls(to_roll - 1);
            let ghost blk = all_tuples((nn - 1) as nat).map_values(
                |u: Seq<int>| u.push(f as int),
            );
            let mut k: usize = 0;
            while k < smaller.len()
                invariant
                    k <= smaller@.len(),
                    1 <= f <= 6,
                    2 <= to_roll,
                    nn == to_roll as nat,
                    rolls_view(smaller@) == all_tuples((nn - 1) as nat),
                    blk == all_tuples((nn - 1) as nat).map_values(|u: Seq<int>| u.push(f as int)),
                    rolls_view(r@) == tuples_below(nn, f as int) + blk.subrange(0, k as int),
                decreases smaller@.len() - k,
            {
                let mut t: Vec<usize> = Vec::new();
                let mut p: usize = 0;
                while p < smaller[k].len()
                    invariant
                        k < smaller@.len(),
                        p <= smaller@[k as int]@.len(),
                        t@ == smaller@[k as int]@.subrange(0, p as int),
                    decreases smaller@[k as int]@.len() - p,
                {
                    let x = smaller[k][p];
                    t.push(x);
                    proof {
                        assert(smaller@[k as int]@.subrange(0, p + 1) =~= smaller@[
                            k as int]@.subrange(0, p as int).push(x));
                    }
                    p = p + 1;
                }
                proof {
                    assert(smaller@[k as int]@.subrange(0, smaller@[k as int]@.len() as int) =~=
                    smaller@[k as int]@);
                }
                t.push(f);
                let ghost pre = r@;
                r.push(t);
                proof {
                    let tup = all_tuples((nn - 1) as nat)[k as int];
                    assert(rolls_view(smaller@)[k as int] == face_view(smaller@[k as int]@));
                    assert(face_view(t@) =~= face_view(smaller@[k as int]@).push(f as int));
                    assert(blk[k as int] == tup.push(f as int));
                    assert(face_view(t@) == blk[k as int]);
                    assert(blk.subrange(0, k + 1) =~= blk.subrange(0, k as int).push(
                        blk[k as int],
                    ));
                    assert(rolls_view(r@) =~~= rolls_view(pre).push(face_view(t@)));
                    assert((tuples_below(nn, f as int) + blk.subrange(0, k as int)).push(
                        blk[k as int],
                    ) =~~= tuples_below(nn, f as int) + blk.subrange(0, k + 1));
                    assert(rolls_view(r@) == tuples_below(nn, f as int) + blk.subrange(0, k + 1));
                }
                k = k + 1;
            }
            proof {
                assert(blk.subrange(0, blk.len() as int) =~= blk);
                assert(tuples_below(nn, f + 1) == tuples_below(nn, f as int) + blk);
            }
        }
        f = f + 1;
    }
    proof {
        assert(all_tuples(nn) == tuples_below(nn, 7));
    }
    r
}

/// The destination bucket of every ordered outcome of rolling `to_roll`
/// dice from the live score `curr_score`, in enumeration order: the
/// exhaustive counterpart of the classifier's combinatorial counting.
pub fn all_worlds(curr_score: usize, to_roll: usize, win: usize) -> (r: Vec<usize>)
    requires
        1 <= to_roll,
        curr_score < win,
        (win as int) + 6 * (to_roll as int) <= usize::MAX as int,
    ensures
        r@.len() == all_tuples(to_roll as nat).len(),
        forall|k: int|
            0 <= k < r@.len() ==> r@[k] == dest_of(
                win as nat,
                curr_score as nat,
                all_tuples(to_roll as nat)[k],
            ),
{
    let ghost nn = to_roll as nat;
    let rolls = gen_rolls(to_roll);
    proof {
        lemma_tuples_valid(nn);
    }
    let mut r: Vec<usize> = Vec::new();
    let mut k: usize = 0;
    while k < rolls.len()
        invariant
            k <= rolls@.len(),
            nn == to_roll as nat,
            curr_score < win,
            (win as int) + 6 * (to_roll as int) <= usize::MAX as int,
            rolls_view(rolls@) == all_tuples(nn),
            forall|j: int|
                0 <= j < all_tuples(nn).len() ==> valid_tuple(#[trigger] all_tuples(nn)[j], nn),
            r@.len() == k,
            forall|j: int|
                0 <= j < k ==> r@[j] == dest_of(win as nat, curr_score as nat, all_tuples(nn)[j]),
        decreases rolls@.len() - k,
    {
        let ghost tup = all_tuples(nn)[k as int];
        proof {
            assert(rolls_view(rolls@)[k as int] == face_view(rolls@[k as int]@));
            assert(valid_tuple(tup, nn));
        }
        let mut ones: usize = 0;
        let mut sum: usize = 0;
        let mut p: usize = 0;
        while p < rolls[k].len()
            invariant
                k < rolls@.len(),
                nn == to_roll as nat,
                (win as int) + 6 * (to_roll as int) <= usize::MAX as int,
                tup == face_view(rolls@[k as int]@),
                valid_tuple(tup, nn),
                p <= tup.len(),
                ones == count_ones(tup.subrange(0, p as int)),
                sum == face_total(tup.subrange(0, p as int)),
                ones <= p,
                sum <= 6 * p,
            decreases rolls@[k as int]@.len() - p,
        {
            let x = rolls[k][p];
            proof {
                assert(tup[p as int] == x as int);
                assert(1 <= x <= 6);
                let pre = tup.subrange(0, p as int);
                let ext = tup.subrange(0, p + 1);
                assert(ext.drop_last() =~= pre);
                assert(ext.last() == tup[p as int]);
            }
            if x == 1 {
                ones = ones + 1;
            }
            sum = sum + x;
            p = p + 1;
        }
        proof {
            assert(tup.subrange(0, tup.len() as int) =~= tup);
        }
        let dest: usize = if ones >= 2 {
            0
        } else if ones == 1 {
            curr_score
        } else if curr_score + sum >= win {
            win
        } else {
            curr_score + sum
        };
        r.push(dest);
        k = k + 1;
    }
    r
}

} // verus!
