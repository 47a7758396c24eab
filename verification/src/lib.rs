//! A fixed-arena buddy memory allocator.
//!
//! The allocator manages one caller-supplied byte region at a fixed
//! 4096-byte page granularity.  Blocks are powers of two of that unit,
//! organised in nine size classes ("orders"); order 0 is the largest
//! block (1 MiB), order 8 a single page.  Allocation splits larger free
//! blocks down to the requested order; release merges idle buddy blocks
//! back up.  All bookkeeping lives in an explicitly owned page table with
//! integer-index links, so every list operation is bounds checked.

pub mod geometry;
pub mod page;
pub mod buddy;
pub mod laws;
