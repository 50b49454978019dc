//! Sequential Search Approximator: a Monte-Carlo loop that, over a fixed
//! iteration budget, looks for the perturbed-source/digest pair whose digest
//! block comes closest to the target block, together with the approximator
//! capability that the tiling driver is generic over.

use vstd::prelude::*;
use sha2::Digest;
use ndarray_rand::RandomExt;
use crate::block::{Block, BLOCK_CELLS, DISTORTION, map_bytes_to_block, perturb, perturbed_seq, zero_block, zero_block_seq};
use crate::metric::{sum_sq_err, squared_error};

verus! {

/// Byte length of the digest: SHA-512 yields exactly 64 bytes, one per block
/// cell, so a digest reshapes into exactly one block.
pub const DIGEST_LEN: usize = 64;

/// The SHA-512 digest of a byte sequence, as an abstract function: the digest
/// is fully determined by the input bytes alone.
pub uninterp spec fn sha512_of(bytes: Seq<u8>) -> Seq<u8>;

/// Relies on sha2's `Sha512` (through `Digest::digest`): the result is the
/// 64-byte SHA-512 digest of the input, a pure function of the input bytes.
#[verifier::external_body]
fn sha512_digest(bytes: &Vec<u8>) -> (r: Vec<u8>)
    ensures
        r@ == sha512_of(bytes@),
        r@.len() == DIGEST_LEN,
{
    sha2::Sha512::digest(bytes.as_slice()).to_vec()
}

/// Relies on ndarray-rand's `RandomExt::random` with `Uniform::new(0,
/// DISTORTION)`: every cell of the result is drawn independently and
/// uniformly from `[0, DISTORTION)`.  Which values come back is left
/// entirely open.
#[verifier::external_body]
fn sample_delta() -> (r: Vec<u8>)
    ensures
        r@.len() == BLOCK_CELLS,
        forall|i: int| 0 <= i < r@.len() ==> r@[i] < DISTORTION,
{
    let between = ndarray_rand::rand_distr::Uniform::new(0u8, DISTORTION).unwrap();
    ndarray::Array::random(BLOCK_CELLS, between).to_vec()
}

/// Digest block produced by one trial: the digest of the perturbed source.
pub open spec fn trial_digest(input: Seq<u8>, delta: Seq<u8>) -> Seq<u8> {
    sha512_of(perturbed_seq(input, delta))
}

/// Error of one trial against the target block.
pub open spec fn trial_error(input: Seq<u8>, target: Seq<u8>, delta: Seq<u8>) -> int {
    sum_sq_err(target, trial_digest(input, delta))
}

/// A delta grid is valid when it has one value per cell, each drawn below
/// `DISTORTION`.
pub open spec fn valid_delta(d: Seq<u8>) -> bool {
    d.len() == BLOCK_CELLS && (forall|i: int| 0 <= i < d.len() ==> d[i] < DISTORTION)
}

/// Every delta of the sequence is valid.
pub open spec fn valid_deltas(ds: Seq<Seq<u8>>) -> bool {
    forall|k: int| 0 <= k < ds.len() ==> valid_delta(ds[k])
}

/// The best-so-far triple tracked by the search: error, reconstructed source
/// block, digest block.  Before any trial the error is the maximum
/// representable value and both blocks are all zero.
pub open spec fn search_start() -> (int, Seq<u8>, Seq<u8>) {
    (u64::MAX as int, zero_block_seq(), zero_block_seq())
}

/// State of the search after the given trials were made in order: a trial
/// replaces the best triple exactly when its error is strictly lower than
/// the best seen, so ties keep the earlier candidate.
pub open spec fn search_result(input: Seq<u8>, target: Seq<u8>, deltas: Seq<Seq<u8>>) -> (int, Seq<u8>, Seq<u8>)
    decreases deltas.len(),
{
    if deltas.len() == 0 {
        search_start()
    } else {
        let prev = search_result(input, target, deltas.drop_last());
        let d = deltas.last();
        if trial_error(input, target, d) < prev.0 {
            (trial_error(input, target, d), perturbed_seq(input, d), trial_digest(input, d))
        } else {
            prev
        }
    }
}

/// Running more trials never worsens the search: the best error after the
/// trials `ds` followed by `more` is at most the best error after `ds`
/// alone.
pub proof fn lemma_search_error_non_increasing(input: Seq<u8>, target: Seq<u8>, ds: Seq<Seq<u8>>, more: Seq<Seq<u8>>)
    ensures
        search_result(input, target, ds + more).0 <= search_result(input, target, ds).0,
    decreases more.len(),
{
    if more.len() == 0 {
        assert(ds + more =~= ds);
    } else {
        lemma_search_error_non_increasing(input, target, ds, more.drop_last());
        assert((ds + more).drop_last() =~= ds + more.drop_last());
        assert((ds + more).len() > 0);
    }
}

/// After at least one trial the best triple is consistent: the reported
/// error is exactly the metric between the target and the returned digest
/// block, and it never exceeds the largest error a block can score.
pub proof fn lemma_search_result_consistent(input: Seq<u8>, target: Seq<u8>, ds: Seq<Seq<u8>>)
    requires
        target.len() == BLOCK_CELLS,
        ds.len() > 0,
    ensures
        search_result(input, target, ds).0 == sum_sq_err(
            target,
            search_result(input, target, ds).2,
        ),
        search_result(input, target, ds).0 <= (BLOCK_CELLS as int) * 255 * 255,
    decreases ds.len(),
{
    let prev = search_result(input, target, ds.drop_last());
    crate::metric::lemma_sum_sq_err_bounds(target, trial_digest(input, ds.last()));
    if ds.len() == 1 {
        assert(prev == search_start());
    } else {
        lemma_search_result_consistent(input, target, ds.drop_last());
    }
}

/// The pluggable block approximation capability: from a source block and a
/// target block of the fixed shape, produce an error value, a reconstructed
/// source block and a digest block of that same shape.
pub trait BlockApproximator {
    fn approximate(&self, input: &Block, target: &Block) -> (r: (u64, Block, Block))
        requires
            input.wf(),
            target.wf(),
        ensures
            r.1.wf(),
            r.2.wf(),
    ;
}

/// Sequential Search Approximator: a fixed budget of Monte-Carlo trials per
/// block on the host CPU, hashing perturbed blocks with SHA-512.
pub struct Sha512CpuApproximator {
    pub iterations: u64,
}

impl Sha512CpuApproximator {
    /// An approximator that will make `iterations` trials per block.
    pub fn new(iterations: u64) -> (r: Self)
        ensures
            r.iterations == iterations,
    {
        Sha512CpuApproximator { iterations }
    }

    /// Runs one search with a caller-supplied sequence of perturbations, one
    /// trial per delta, and returns the state of the search after the last
    /// trial: best error, best perturbed source block, best digest block.
    pub fn approximate_with_trials(&self, input: &Block, target: &Block, deltas: &Vec<Vec<u8>>) -> (r: (u64, Block, Block))
        requires
            input.wf(),
            target.wf(),
            forall|t: int| 0 <= t < deltas@.len() ==> (#[trigger] deltas@[t])@.len() == BLOCK_CELLS,
        ensures
            r.1.wf(),
            r.2.wf(),
            (r.0 as int, r.1@, r.2@) == search_result(input@, target@, deltas.deep_view()),
    {
        let ghost dsv: Seq<Seq<u8>> = deltas.deep_view();
        let mut best_err: u64 = u64::MAX;
        let mut best_src: Block = zero_block();
        let mut best_dig: Block = zero_block();
        let mut k: usize = 0;
        while k < deltas.len()
            invariant
                input.wf(),
                target.wf(),
                forall|t: int| 0 <= t < deltas@.len() ==> (#[trigger] deltas@[t])@.len() == BLOCK_CELLS,
                dsv == deltas.deep_view(),
                k <= deltas@.len(),
                best_src.wf(),
                best_dig.wf(),
                (best_err as int, best_src@, best_dig@) == search_result(input@, target@, dsv.take(k as int)),
            decreases deltas@.len() - k,
        {
            proof {
                assert(dsv[k as int] =~= deltas@[k as int]@);
            }
            let candidate = perturb(input, &deltas[k]);
            let digest_bytes = sha512_digest(&candidate.cells);
            let digest = map_bytes_to_block(digest_bytes).unwrap();
            let err = squared_error(target, &digest);
            proof {
                assert(dsv.take(k + 1).drop_last() =~= dsv.take(k as int));
                assert(dsv.take(k + 1).last() == dsv[k as int]);
            }
            if err < best_err {
                best_err = err;
                best_src = candidate;
                best_dig = digest;
            }
            k = k + 1;
        }
        proof {
            assert(dsv.take(deltas@.len() as int) =~= dsv);
        }
        (best_err, best_src, best_dig)
    }
}

impl BlockApproximator for Sha512CpuApproximator {
    /// Monte-Carlo search: `iterations` trials with fresh random deltas,
    /// keeping the triple with the strictly lowest error seen.  The result
    /// is exactly the search outcome for some sequence of `iterations` valid
    /// deltas; which sequence is drawn is left open.
    fn approximate(&self, input: &Block, target: &Block) -> (r: (u64, Block, Block))
        ensures
            exists|ds: Seq<Seq<u8>>|
                #[trigger] valid_deltas(ds)
                && ds.len() == self.iterations
                && (r.0 as int, r.1@, r.2@) == search_result(input@, target@, ds),
    {
        let ghost mut ds: Seq<Seq<u8>> = Seq::empty();
        let mut best_err: u64 = u64::MAX;
        let mut best_src: Block = zero_block();
        let mut best_dig: Block = zero_block();
        let mut k: u64 = 0;
        while k < self.iterations
            invariant
                input.wf(),
                target.wf(),
                k <= self.iterations,
                ds.len() == k,
                valid_deltas(ds),
                best_src.wf(),
                best_dig.wf(),
                (best_err as int, best_src@, best_dig@) == search_result(input@, target@, ds),
            decreases self.iterations - k,
        {
            let delta = sample_delta();
            let candidate = perturb(input, &delta);
            let digest_bytes = sha512_digest(&candidate.cells);
            let digest = map_bytes_to_block(digest_bytes).unwrap();
            let err = squared_error(target, &digest);
            proof {
                let prev = ds;
                ds = ds.push(delta@);
                assert(ds.drop_last() =~= prev);
                assert(ds.last() == delta@);
            }
            if err < best_err {
                best_err = err;
                best_src = candidate;
                best_dig = digest;
            }
            k = k + 1;
        }
        proof {
            assert(valid_deltas(ds)
                && ds.len() == self.iterations
                && (best_err as int, best_src@, best_dig@) == search_result(input@, target@, ds));
        }
        (best_err, best_src, best_dig)
    }
}

} // verus!
