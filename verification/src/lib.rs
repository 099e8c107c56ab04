//! Core engine of a batch model-evaluation service: job lifecycle and
//! bounded-concurrency scheduling decisions, per-prompt partial-failure
//! accounting, score aggregation and ranking, a tamper-evident result
//! digest, and an append-only structured event log.
//!
//! Scores and costs are fixed-point integers in micro-units (one unit is
//! `SCORE_SCALE` micro-units), so that every aggregate is deterministic.

use vstd::prelude::*;

pub mod config;
pub mod eventlog;
pub mod metrics;
pub mod models;
pub mod runner;
pub mod storage;
pub mod text;
pub mod types;

verus! {

/// Number of micro-units in one whole unit of a score.
pub const SCORE_SCALE: u64 = 1_000_000;

/// A metric score in micro-units (`SCORE_SCALE` micro-units = 1.0).
pub type Score = u64;

/// Arithmetic mean of a sequence of scores, rounded down; zero for an
/// empty sequence.
pub open spec fn mean_spec(scores: Seq<Score>) -> Score {
    if scores.len() == 0 {
        0
    } else {
        (sum_spec(scores) / scores.len() as int) as Score
    }
}

/// Sum of a sequence of scores, as a mathematical integer.
pub open spec fn sum_spec(scores: Seq<Score>) -> int
    decreases scores.len(),
{
    if scores.len() == 0 {
        0
    } else {
        sum_spec(scores.drop_last()) + scores.last()
    }
}

proof fn lemma_sum_bounds(scores: Seq<Score>)
    ensures
        0 <= sum_spec(scores) <= scores.len() * u64::MAX,
    decreases scores.len(),
{
    if scores.len() > 0 {
        lemma_sum_bounds(scores.drop_last());
        assert((scores.len() - 1) * u64::MAX + u64::MAX == scores.len() * u64::MAX)
            by (nonlinear_arith);
    }
}

/// Mean of a slice of scores: zero when empty, otherwise the floor of
/// sum / count. The sum is accumulated in 128 bits, so it cannot overflow.
pub fn mean_score(scores: &Vec<Score>) -> (r: Score)
    ensures
        r == mean_spec(scores@),
{
    if scores.len() == 0 {
        return 0;
    }
    let mut total: u128 = 0;
    let mut i: usize = 0;
    while i < scores.len()
        invariant
            i <= scores@.len(),
            total == sum_spec(scores@.subrange(0, i as int)),
            total <= i * (u64::MAX as int),
        decreases scores@.len() - i,
    {
        proof {
            assert(scores@.subrange(0, i + 1).drop_last() =~= scores@.subrange(0, i as int));
            lemma_sum_bounds(scores@.subrange(0, i as int));
            assert(i * (u64::MAX as int) + u64::MAX == (i + 1) * (u64::MAX as int))
                by (nonlinear_arith);
        }
        total = total + scores[i] as u128;
        i = i + 1;
    }
    proof {
        assert(scores@.subrange(0, scores@.len() as int) =~= scores@);
        lemma_sum_bounds(scores@);
        assert(sum_spec(scores@) / scores@.len() as int <= u64::MAX) by {
            lemma_mean_le_max(scores@);
        };
    }
    let n = scores.len() as u128;
    (total / n) as u64
}

/// Sum of a sequence of scores, saturating at `u64::MAX`.
pub open spec fn sum_sat_spec(scores: Seq<Score>) -> int {
    if sum_spec(scores) > u64::MAX {
        u64::MAX as int
    } else {
        sum_spec(scores)
    }
}

/// Saturating sum of a slice of scores. The sum is accumulated in 128
/// bits and capped at `u64::MAX`.
pub fn sum_saturating(scores: &Vec<Score>) -> (r: Score)
    ensures
        r == sum_sat_spec(scores@),
{
    let mut total: u128 = 0;
    let mut i: usize = 0;
    while i < scores.len()
        invariant
            i <= scores@.len(),
            total == sum_spec(scores@.subrange(0, i as int)),
            total <= i * (u64::MAX as int),
        decreases scores@.len() - i,
    {
        proof {
            assert(scores@.subrange(0, i + 1).drop_last() =~= scores@.subrange(0, i as int));
            lemma_sum_bounds(scores@.subrange(0, i as int));
            assert(i * (u64::MAX as int) + u64::MAX == (i + 1) * (u64::MAX as int))
                by (nonlinear_arith);
        }
        total = total + scores[i] as u128;
        i = i + 1;
    }
    proof {
        assert(scores@.subrange(0, scores@.len() as int) =~= scores@);
    }
    if total > u64::MAX as u128 {
        u64::MAX
    } else {
        total as u64
    }
}

proof fn lemma_mean_le_max(scores: Seq<Score>)
    requires
        scores.len() > 0,
    ensures
        sum_spec(scores) / scores.len() as int <= u64::MAX,
{
    lemma_sum_bounds(scores);
    assert(sum_spec(scores) / scores.len() as int <= u64::MAX) by (nonlinear_arith)
        requires
            scores.len() > 0,
            0 <= sum_spec(scores) <= scores.len() * u64::MAX,
    ;
}

} // verus!
