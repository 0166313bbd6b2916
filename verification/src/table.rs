//! The strategy table: per-score dice counts collected from the strategy
//! and validated before the round loop starts.

use vstd::prelude::*;

verus! {

/// Configuration fault raised before the round loop starts: the strategy
/// returned no dice to roll for the live score `score`.
#[derive(Clone, Copy, Debug, PartialEq, Eq, Structural)]
pub struct ConfigError {
    pub score: usize,
}

/// Immutable strategy table: for every live score below `win`, the positive
/// number of dice the strategy rolls from that score.
pub struct StrategyTable {
    pub win: usize,
    pub dice: Vec<usize>,
}

impl StrategyTable {
    /// One entry per live score, and every entry rolls at least one die.
    pub open spec fn wf(self) -> bool {
        &&& self.dice@.len() == self.win
        &&& forall|s: int| 0 <= s < self.win ==> #[trigger] self.dice@[s] >= 1
    }

    /// Every entry is small enough that the outcome classifier's index
    /// arithmetic fits in a machine word.
    pub open spec fn fits(self) -> bool {
        forall|s: int|
            0 <= s < self.win ==> 6 * (#[trigger] self.dice@[s] as int) + (self.win as int)
                < usize::MAX as int
    }
}

/// Validates a full list of per-score dice counts into a strategy table.
/// Succeeds exactly when every entry is positive; otherwise reports the
/// first live score whose entry is zero.
pub fn build_table_from(answers: Vec<usize>, win: usize) -> (r: Result<StrategyTable, ConfigError>)
    requires
        answers@.len() == win,
    ensures
        match r {
            Ok(t) => {
                &&& t.wf()
                &&& t.win == win
                &&& t.dice@ == answers@
                &&& forall|s: int| 0 <= s < win ==> #[trigger] answers@[s] >= 1
            },
            Err(e) => {
                &&& e.score < win
                &&& answers@[e.score as int] == 0
                &&& forall|s: int| 0 <= s < e.score ==> #[trigger] answers@[s] >= 1
            },
        },
{
    let mut i: usize = 0;
    while i < win
        invariant
            i <= win,
            answers@.len() == win,
            forall|s: int| 0 <= s < i ==> #[trigger] answers@[s] >= 1,
        decreases win - i,
    {
        if answers[i] == 0 {
            return Err(ConfigError { score: i });
        }
        i = i + 1;
    }
    Ok(StrategyTable { win, dice: answers })
}

/// Builds the strategy table by asking the strategy oracle exactly once for
/// every live score `0..win`, in order. Fails with the first score for which
/// the oracle answers zero dice.
pub fn build_table<F: Fn(usize) -> usize>(oracle: F, win: usize) -> (r: Result<
    StrategyTable,
    ConfigError,
>)
    requires
        forall|s: usize| s < win ==> call_requires(oracle, (s,)),
    ensures
        match r {
            Ok(t) => {
                &&& t.wf()
                &&& t.win == win
                &&& forall|s: int|
                    0 <= s < win ==> call_ensures(oracle, ((s as usize),), #[trigger] t.dice@[s])
            },
            Err(e) => e.score < win && call_ensures(oracle, (e.score,), 0usize),
        },
{
    let mut answers: Vec<usize> = Vec::new();
    let mut i: usize = 0;
    while i < win
        invariant
            i <= win,
            answers@.len() == i,
            forall|s: usize| s < win ==> call_requires(oracle, (s,)),
            forall|s: int|
                0 <= s < i ==> call_ensures(oracle, ((s as usize),), #[trigger] answers@[s]),
            forall|s: int| 0 <= s < i ==> #[trigger] answers@[s] >= 1,
        decreases win - i,
    {
        let n = oracle(i);
        if n == 0 {
            return Err(ConfigError { score: i });
        }
        answers.push(n);
        i = i + 1;
    }
    Ok(StrategyTable { win, dice: answers })
}

/// A sample strategy of the kind the engine evaluates: always roll three
/// dice, whatever the current score.
pub fn student(score: usize) -> (n: usize)
    ensures
        n == 3,
{
    3
}

/// The `student` strategy asked for every live score below `win`, in order:
/// the raw answer list that `build_table_from` validates.
pub fn student_list(win: usize) -> (r: Vec<usize>)
    ensures
        r@.len() == win,
        forall|s: int| 0 <= s < win ==> #[trigger] r@[s] == 3,
{
    let mut r: Vec<usize> = Vec::new();
    let mut i: usize = 0;
    while i < win
        invariant
            i <= win,
            r@.len() == i,
            forall|s: int| 0 <= s < i ==> #[trigger] r@[s] == 3,
        decreases win - i,
    {
        r.push(student(i));
        i = i + 1;
    }
    r
}

} // verus!
