//! Blocks: fixed-size square grids of 8-bit intensities, the unit of search
//! and reconstruction, together with the digest pixel-mapper and the
//! element-wise perturbation step.

use vstd::prelude::*;

verus! {

/// Side length of a square block, in pixels.
pub const BLOCK_SIZE: usize = 8;

/// Number of cells in a block: `BLOCK_SIZE` rows of `BLOCK_SIZE` columns.
/// This equals the byte length of the digest used by the search, so a digest
/// reshapes into exactly one block.
pub const BLOCK_CELLS: usize = 64;

/// Exclusive upper bound for one sampled perturbation value: each delta cell
/// is drawn uniformly from `[0, DISTORTION)`.
pub const DISTORTION: u8 = 2;

/// A `BLOCK_SIZE` x `BLOCK_SIZE` grid of 8-bit intensities, stored row-major:
/// the cell in row `r`, column `c` sits at index `r * BLOCK_SIZE + c`.
#[derive(Debug)]
pub struct Block {
    pub cells: Vec<u8>,
}

impl View for Block {
    type V = Seq<u8>;

    open spec fn view(&self) -> Seq<u8> {
        self.cells@
    }
}

impl Block {
    /// A block is well formed when it holds exactly one intensity per cell.
    pub open spec fn wf(&self) -> bool {
        self@.len() == BLOCK_CELLS
    }

    /// Intensity of the cell in row `r`, column `c`.
    pub open spec fn cell(&self, r: int, c: int) -> u8 {
        self@[r * (BLOCK_SIZE as int) + c]
    }

    /// Reads the cell in row `r`, column `c`.
    pub fn get(&self, r: usize, c: usize) -> (v: u8)
        requires
            self.wf(),
            r < BLOCK_SIZE,
            c < BLOCK_SIZE,
        ensures
            v == self.cell(r as int, c as int),
    {
        self.cells[r * BLOCK_SIZE + c]
    }
}

/// Digest pixel-mapper: reinterprets a byte sequence as a `BLOCK_SIZE` x
/// `BLOCK_SIZE` grid of intensities in row-major order.  Every length other
/// than `BLOCK_CELLS` is rejected outright, never truncated or padded.
pub fn map_bytes_to_block(bytes: Vec<u8>) -> (r: Option<Block>)
    ensures
        bytes@.len() == BLOCK_CELLS ==> (r is Some && r->Some_0@ == bytes@ && r->Some_0.wf()),
        bytes@.len() != BLOCK_CELLS ==> r is None,
{
    if bytes.len() == BLOCK_CELLS {
        Some(Block { cells: bytes })
    } else {
        None
    }
}

/// The all-zero block contents.
pub open spec fn zero_block_seq() -> Seq<u8> {
    Seq::new(BLOCK_CELLS as nat, |i: int| 0u8)
}

/// Builds a block whose every cell is zero.
pub fn zero_block() -> (r: Block)
    ensures
        r.wf(),
        r@ == zero_block_seq(),
{
    let mut cells: Vec<u8> = Vec::new();
    let mut i: usize = 0;
    while i < BLOCK_CELLS
        invariant
            i <= BLOCK_CELLS,
            cells@.len() == i,
            forall|k: int| 0 <= k < i ==> cells@[k] == 0u8,
        decreases BLOCK_CELLS - i,
    {
        cells.push(0u8);
        i = i + 1;
    }
    proof {
        assert(cells@ =~= zero_block_seq());
    }
    Block { cells }
}

/// Wrapping 8-bit addition of an intensity and a perturbation value: the sum
/// wraps around modulo 256, so applying a delta never panics.
pub open spec fn wrap_add(a: u8, b: u8) -> u8 {
    if a + b > u8::MAX {
        (a + b - 256) as u8
    } else {
        (a + b) as u8
    }
}

/// Contents of a source block after a perturbation is applied cell by cell.
pub open spec fn perturbed_seq(input: Seq<u8>, delta: Seq<u8>) -> Seq<u8> {
    Seq::new(input.len(), |i: int| wrap_add(input[i], delta[i]))
}

/// Applies a perturbation to a source block, cell by cell, with wrapping
/// 8-bit addition.
pub fn perturb(input: &Block, delta: &Vec<u8>) -> (r: Block)
    requires
        input.wf(),
        delta@.len() == BLOCK_CELLS,
    ensures
        r.wf(),
        r@ == perturbed_seq(input@, delta@),
{
    let mut cells: Vec<u8> = Vec::new();
    let mut i: usize = 0;
    while i < BLOCK_CELLS
        invariant
            input.wf(),
            delta@.len() == BLOCK_CELLS,
            i <= BLOCK_CELLS,
            cells@.len() == i,
            forall|k: int| 0 <= k < i ==> cells@[k] == wrap_add(input@[k], delta@[k]),
        decreases BLOCK_CELLS - i,
    {
        let v = cell_add(input.cells[i], delta[i]);
        cells.push(v);
        i = i + 1;
    }
    proof {
        assert(cells@ =~= perturbed_seq(input@, delta@));
    }
    Block { cells }
}

/// Copies a block, cell for cell.
pub fn duplicate_block(b: &Block) -> (r: Block)
    ensures
        r@ == b@,
{
    let cells = b.cells.clone();
    proof {
        assert(cells@ =~= b.cells@);
    }
    Block { cells }
}

/// Wrapping addition of two intensities.
fn cell_add(a: u8, b: u8) -> (r: u8)
    ensures
        r == wrap_add(a, b),
{
    a.wrapping_add(b)
}

} // verus!
