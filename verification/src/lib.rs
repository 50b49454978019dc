//! Block approximation engine.
//!
//! Searches, block by block, for a small perturbation of a source grayscale
//! image such that the cryptographic digest of each perturbed block, reshaped
//! into a square pixel grid, visually approximates the corresponding target
//! block.  The engine is split into the digest pixel-mapper and error metric
//! (`block`, `metric`), the sequential Monte-Carlo search (`search`), the
//! parallel compute-kernel backend (`kernel`) and the tiling driver that
//! stitches per-block results back into whole images (`tiling`).

pub mod block;
pub mod metric;
pub mod search;
pub mod kernel;
pub mod tiling;
