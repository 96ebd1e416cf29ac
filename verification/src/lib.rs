//! Execution driver for a 32-bit little-endian RISC-V (RV32IM) zkVM guest.
//!
//! The driver emulates the guest while deciding how to partition the
//! execution trace into segments whose cycle budgets are powers of two.
//! Each segment is later proven independently; the driver produces the
//! sequence of segments together with their boundary state (pre/post
//! memory-image digests) and the cycle accounting the prover needs.

use vstd::prelude::*;

pub mod digests;
pub mod page_table;
pub mod image;
pub mod segment;
pub mod rv32im;
pub mod ecall;
pub mod env;
pub mod exec;
pub mod laws;

verus! {

/// Bytes per guest word.
pub const WORD_SIZE: usize = 4;

/// Bytes per page.
pub const PAGE_SIZE: usize = 1024;

/// Size of the flat guest address space in bytes.
pub const MEM_SIZE: usize = 0x0040_0000;

/// Number of data (content-carrying) pages: MEM_SIZE / PAGE_SIZE.
pub const NUM_DATA_PAGES: usize = 4096;

/// Bytes in a SHA-256 digest.
pub const DIGEST_BYTES: usize = 32;

/// First page index of the first Merkle overlay layer (digests of data pages).
pub const L1_BASE: usize = 4096;

/// First page index of the second Merkle overlay layer.
pub const L2_BASE: usize = 4224;

/// Page index of the Merkle root page.
pub const ROOT_PAGE: usize = 4228;

/// Total number of pages tracked by the paging layer (data + overlay + root).
pub const NUM_PAGES: usize = 4229;

/// Start of the SYSTEM region: the last data page, holding the register file
/// image when crossing segment boundaries.
pub const SYSTEM_START: usize = MEM_SIZE - PAGE_SIZE;

/// Smallest allowed segment budget exponent.
pub const MIN_CYCLES_PO2: usize = 13;

/// Largest allowed segment budget exponent.
pub const MAX_CYCLES_PO2: usize = 24;

/// Cycles to compress one SHA-256 block.
pub const SHA_CYCLES: usize = 72;

/// Cycles reserved at segment end for the zero-knowledge queries.
pub const ZK_CYCLES: usize = 50;

/// Cycles to page a full page in or out: one SHA-256 block compression per
/// 64-byte block of the page.
pub const CYCLES_PER_FULL_PAGE: usize = 1152;

/// Fixed cycle cost of the loader's segment setup.
pub const INIT_CYCLES: usize = 1000;

/// Fixed cycle cost of the loader's segment teardown, before the journal
/// digest and ZK reservations are added.
pub const FINI_BASE_CYCLES: usize = 100;

/// Errors surfaced by the driver.
#[derive(Debug, Clone)]
pub enum ExecError {
    /// Cumulative committed cycles exceeded the session limit.
    SessionLimitExceeded,
    /// The syscall layer does not know the named call.
    UnknownSyscall(Vec<u8>),
    /// The stepper rejected the word at the program counter.
    IllegalInstruction,
}

} // verus!
