//! Parallel Kernel Approximator: a backend that offloads the per-element
//! transform of a source block to a compute-kernel device.  The device work
//! itself (acquiring an adapter and queue, dispatching the kernel, mapping
//! the result buffer back) happens outside the engine; this module holds the
//! decisions around one kernel invocation: validating the kernel's reply,
//! remapping the overflow sentinel, reshaping into a block, and assembling
//! the single-shot result triple.

use vstd::prelude::*;
use crate::block::{Block, BLOCK_CELLS, duplicate_block, map_bytes_to_block};

verus! {

/// Sentinel a kernel writes into a cell whose intermediate value overflowed.
/// The value is reserved: on return it is remapped to zero, never kept as a
/// real intensity.
pub const OVERFLOW: u8 = 0xff;

/// Why one kernel-backed approximation attempt failed.
#[derive(PartialEq, Eq, Structural, Clone, Copy, Debug)]
pub enum KernelError {
    /// No compute device or queue could be acquired, or the dispatch never
    /// completed; fatal for this backend, never substituted silently.
    BackendUnavailable,
    /// The kernel replied with a byte count other than one per block cell.
    OutputShapeMismatch,
}

/// One remapped cell: the overflow sentinel becomes zero, every other value
/// passes through unchanged.
pub open spec fn remap_cell(v: u8) -> u8 {
    if v == OVERFLOW {
        0u8
    } else {
        v
    }
}

/// A kernel reply after sentinel remapping.
pub open spec fn remapped_seq(s: Seq<u8>) -> Seq<u8> {
    Seq::new(s.len(), |i: int| remap_cell(s[i]))
}

/// The backend that hands blocks to a parallel compute kernel.  It holds no
/// state of its own: device and queue live with the caller that runs the
/// kernel.
pub struct WgpuApproximator {}

impl WgpuApproximator {
    pub fn new() -> (r: Self) {
        WgpuApproximator {}
    }

    /// Post-processes one raw kernel reply: every overflow sentinel is
    /// remapped to zero, all other bytes pass through unchanged.
    pub fn run(&self, raw: &Vec<u8>) -> (r: Vec<u8>)
        ensures
            r@ == remapped_seq(raw@),
    {
        let mut out: Vec<u8> = Vec::new();
        let mut i: usize = 0;
        while i < raw.len()
            invariant
                i <= raw@.len(),
                out@.len() == i,
                forall|k: int| 0 <= k < i ==> out@[k] == remap_cell(raw@[k]),
            decreases raw@.len() - i,
        {
            let v = raw[i];
            if v == OVERFLOW {
                out.push(0u8);
            } else {
                out.push(v);
            }
            i = i + 1;
        }
        proof {
            assert(out@ =~= remapped_seq(raw@));
        }
        out
    }

    /// Assembles the single-shot result of one kernel invocation.  `reply`
    /// is the kernel's raw output if a device was acquired and the dispatch
    /// completed, `None` otherwise.  There is no iterative search and no
    /// ranking against the target: on success the declared error is zero by
    /// convention, the reconstructed source is the unmodified input block,
    /// and the approximated block is the remapped kernel reply.
    pub fn approximate_from_kernel(&self, input: &Block, target: &Block, reply: Option<Vec<u8>>) -> (r: Result<(u64, Block, Block), KernelError>)
        requires
            input.wf(),
            target.wf(),
        ensures
            reply is None
                ==> r == Err::<(u64, Block, Block), KernelError>(KernelError::BackendUnavailable),
            reply is Some && reply->Some_0@.len() != BLOCK_CELLS
                ==> r == Err::<(u64, Block, Block), KernelError>(KernelError::OutputShapeMismatch),
            reply is Some && reply->Some_0@.len() == BLOCK_CELLS ==> {
                &&& r is Ok
                &&& r->Ok_0.0 == 0
                &&& r->Ok_0.1@ == input@
                &&& r->Ok_0.2@ == remapped_seq(reply->Some_0@)
                &&& r->Ok_0.1.wf()
                &&& r->Ok_0.2.wf()
            },
    {
        match reply {
            None => Err(KernelError::BackendUnavailable),
            Some(raw) => {
                if raw.len() != BLOCK_CELLS {
                    Err(KernelError::OutputShapeMismatch)
                } else {
                    let vals = self.run(&raw);
                    let digest = map_bytes_to_block(vals).unwrap();
                    Ok((0u64, duplicate_block(input), digest))
                }
            },
        }
    }
}

} // verus!
