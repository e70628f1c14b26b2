//! The leaf heuristic: a scalar desirability score for a board.
//!
//! The search engine only relies on the score being a pure, bounded
//! function of the board, so any monotonic-in-"better" scoring rule can
//! replace this one without touching the search logic.

use crate::board::Board;
use vstd::prelude::*;

verus! {

/// Greatest score a single cell can contribute.
pub const CELL_SCORE_MAX: u64 = 65025;

/// Greatest score the heuristic can give a board: 16 cells at the
/// largest single-cell score.
pub const EVAL_MAX: u64 = 1040400;

/// Desirability of one cell: an empty cell earns a fixed bonus for the
/// room it leaves, and a tile earns the square of its exponent.
pub open spec fn cell_score(c: u8) -> int {
    if c == 0u8 {
        4096int
    } else {
        c * c
    }
}

/// Heuristic score of the cells from index `i` on.
pub open spec fn eval_from(m: Seq<u8>, i: int) -> int
    decreases 16 - i,
{
    if i < 0 || i >= 16 {
        0
    } else {
        cell_score(m[i]) + eval_from(m, i + 1)
    }
}

/// Heuristic score of a board: the sum of its cell scores. Higher is
/// better; it rewards open space and large tiles.
pub open spec fn spec_eval(m: Seq<u8>) -> int {
    eval_from(m, 0)
}

proof fn lemma_cell_score_bounds(c: u8)
    ensures
        0 <= cell_score(c) <= CELL_SCORE_MAX,
{
    if c != 0u8 {
        assert(c * c <= 65025) by (nonlinear_arith)
            requires
                0 <= c <= 255,
        ;
    }
}

proof fn lemma_eval_from_bounds(m: Seq<u8>, i: int)
    requires
        0 <= i <= 16,
    ensures
        0 <= eval_from(m, i) <= (16 - i) * CELL_SCORE_MAX,
    decreases 16 - i,
{
    if i < 16 {
        lemma_eval_from_bounds(m, i + 1);
        lemma_cell_score_bounds(m[i]);
    }
}

/// The heuristic is finite on every board: it always lies between 0 and
/// `EVAL_MAX`.
pub proof fn lemma_eval_bounds(m: Seq<u8>)
    ensures
        0 <= spec_eval(m) <= EVAL_MAX,
{
    lemma_eval_from_bounds(m, 0);
}

/// Scores a board with the heuristic.
pub fn eval(board: &Board) -> (s: u64)
    ensures
        s == spec_eval(board@),
        s <= EVAL_MAX,
{
    let mut s: u64 = 0;
    for i in 0..16
        invariant
            s + eval_from(board@, i as int) == spec_eval(board@),
            s <= CELL_SCORE_MAX * i,
    {
        proof {
            vstd::arithmetic::div_mod::lemma_fundamental_div_mod(i as int, 4);
            lemma_cell_score_bounds(board@[i as int]);
            assert(eval_from(board@, i as int) == cell_score(board@[i as int]) + eval_from(
                board@,
                i + 1,
            ));
        }
        let c = board.get(i / 4, i % 4);
        let sc: u64 = if c == 0 {
            4096
        } else {
            proof {
                assert((c as u64) * (c as u64) == c * c) by (nonlinear_arith);
                assert(c * c <= 65025) by (nonlinear_arith)
                    requires
                        0 <= c <= 255,
                ;
            }
            (c as u64) * (c as u64)
        };
        s += sc;
    }
    proof {
        assert(eval_from(board@, 16) == 0);
    }
    s
}

} // verus!
