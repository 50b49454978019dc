//! Error metric: the sum of squared per-cell intensity differences between
//! two equal-shaped blocks.  Lower is better; the magnitude is meaningful
//! only relative to other candidates for the same block.

use vstd::prelude::*;
use crate::block::{Block, BLOCK_CELLS};

verus! {

/// Squared difference of two intensities, as a mathematical integer.
pub open spec fn sq_diff(a: u8, b: u8) -> int {
    (a - b) * (a - b)
}

/// Sum of squared differences over the first `a.len()` cells of two
/// equal-length sequences.
pub open spec fn sum_sq_err(a: Seq<u8>, b: Seq<u8>) -> int
    decreases a.len(),
{
    if a.len() == 0 {
        0
    } else {
        sum_sq_err(a.drop_last(), b.take(a.len() - 1)) + sq_diff(a.last(), b[a.len() - 1])
    }
}

/// One squared cell difference is at most `255 * 255`.
pub proof fn lemma_sq_diff_bounds(a: u8, b: u8)
    ensures
        0 <= sq_diff(a, b) <= 255 * 255,
{
    let d = a - b;
    assert(-255 <= d <= 255);
    assert(d * d <= 255 * 255 && d * d >= 0) by (nonlinear_arith)
        requires
            -255 <= d <= 255,
    ;
}

/// The sum over `a.len()` cells is bounded by `a.len() * 255 * 255`.
pub proof fn lemma_sum_sq_err_bounds(a: Seq<u8>, b: Seq<u8>)
    ensures
        0 <= sum_sq_err(a, b) <= a.len() * 255 * 255,
    decreases a.len(),
{
    if a.len() == 0 {
    } else {
        lemma_sum_sq_err_bounds(a.drop_last(), b.take(a.len() - 1));
        lemma_sq_diff_bounds(a.last(), b[a.len() - 1]);
    }
}

/// The metric of a block against itself is zero.
pub proof fn lemma_sum_sq_err_identity(a: Seq<u8>)
    ensures
        sum_sq_err(a, a) == 0,
    decreases a.len(),
{
    if a.len() == 0 {
    } else {
        assert(a.take(a.len() - 1) =~= a.drop_last());
        lemma_sum_sq_err_identity(a.drop_last());
    }
}

/// Computes the sum over every cell of the squared difference between the
/// two blocks' intensities.  The result is exact: intermediate differences
/// are taken in a signed 32-bit type and the sum cannot overflow, since it is
/// at most `BLOCK_CELLS * 255 * 255`.
pub fn squared_error(a: &Block, b: &Block) -> (r: u64)
    requires
        a.wf(),
        b.wf(),
    ensures
        r == sum_sq_err(a@, b@),
        r <= BLOCK_CELLS * 255 * 255,
{
    let mut total: u64 = 0;
    let mut i: usize = 0;
    while i < BLOCK_CELLS
        invariant
            a.wf(),
            b.wf(),
            i <= BLOCK_CELLS,
            total == sum_sq_err(a@.take(i as int), b@.take(i as int)),
            total <= i * 255 * 255,
        decreases BLOCK_CELLS - i,
    {
        let d: i32 = a.cells[i] as i32 - b.cells[i] as i32;
        proof {
            lemma_sq_diff_bounds(a@[i as int], b@[i as int]);
            assert(d * d == sq_diff(a@[i as int], b@[i as int]));
        }
        let sq: u64 = (d * d) as u64;
        proof {
            assert(a@.take(i + 1).drop_last() =~= a@.take(i as int));
            assert(b@.take(i + 1).take(i as int) =~= b@.take(i as int));
            assert(a@.take(i + 1).last() == a@[i as int]);
        }
        total = total + sq;
        i = i + 1;
    }
    proof {
        assert(a@.take(BLOCK_CELLS as int) =~= a@);
        assert(b@.take(BLOCK_CELLS as int) =~= b@);
    }
    total
}

} // verus!
