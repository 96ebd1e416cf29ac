//! Boundary artifacts: segments and the session that collects them.

use vstd::prelude::*;
use crate::image::MemoryImage;
use crate::page_table::PageFaults;

verus! {

/// How a segment (or the whole session) ended.
#[derive(Clone, Copy, Debug, PartialEq, Eq, Structural)]
pub enum ExitCode {
    /// The guest terminated with the given user exit code.
    Halted(u32),
    /// The guest paused with the given user exit code; the session can be
    /// resumed from the persisted post image.
    Paused(u32),
    /// The driver split the segment because its cycle budget ran out.
    SystemSplit,
    /// The session cycle limit was breached.
    SessionLimit,
}

/// The host-facing log entry describing what a syscall returned to the
/// guest; consumed by the prover to replay non-deterministic inputs.
#[derive(Debug)]
pub struct SyscallRecord {
    /// Words copied into the guest buffer.
    pub to_guest: Vec<u32>,
    /// The pair of register result words.
    pub regs: (u32, u32),
}

/// An event traced from the running VM, emitted in commit order.
#[derive(Clone, Debug, PartialEq, Eq, Structural)]
pub enum TraceEvent {
    /// An instruction has started at the given program counter.
    InstructionStart { cycle: u32, pc: u32 },
    /// A register has been set.
    RegisterSet { reg: usize, value: u32 },
    /// A memory word has been written.
    MemorySet { addr: u32, value: u32 },
}

/// A bounded-cycle slice of execution, to be proven independently.
pub struct Segment {
    /// Position of this segment in the session, from zero.
    pub index: u32,
    /// The memory image at segment entry.
    pub pre_image: MemoryImage,
    /// The image id after this segment's dirty pages fold back: equal to
    /// the next segment's pre-image id.
    pub post_image_id: Vec<u8>,
    /// How the segment ended.
    pub exit_code: ExitCode,
    /// Syscall records taken verbatim from the committed ecalls.
    pub syscalls: Vec<SyscallRecord>,
    /// The data pages loaded and flushed during the segment.
    pub faults: PageFaults,
    /// Log2 of this segment's cycle budget.
    pub po2: usize,
    /// Instruction cycles used before the split.
    pub split_insn: Option<u32>,
    /// Instruction cycles committed in this segment.
    pub insn_cycles: usize,
}

/// The ordered list of segments produced by one run, the captured journal
/// bytes, and the final exit code.
pub struct Session {
    /// The segments, in execution order.
    pub segments: Vec<Segment>,
    /// The captured journal bytes.
    pub journal: Vec<u8>,
    /// The terminal exit code.
    pub exit_code: ExitCode,
    /// Total committed cycles over all segments, paging and finalization
    /// included.
    pub total_cycles: u64,
    /// The input digest carried through from the environment.
    pub input_digest: Vec<u8>,
    /// The assumptions carried through from the environment.
    pub assumptions: Vec<Vec<u8>>,
}

} // verus!
