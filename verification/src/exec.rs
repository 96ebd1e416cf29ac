//! The executor: owns RAM, registers and the program counter, drives the
//! two-phase pending-operation protocol, maintains the cycle counters, and
//! decides between growing a segment and splitting.

use vstd::prelude::*;
use crate::digests::sha256_of;
use crate::ecall::{exec_ecall, vec_contains_u32, PendingECall, SyscallHandler};
use crate::env::{ExecutorEnv, SESSION_LIMIT_MAX};
use crate::image::{copy_page, image_id_of, le_bytes, overwrite, word_at, MemoryImage};
use crate::page_table::{
    charged, dirty, fold_cost, fold_mark, lemma_fold_mark_push, lemma_needed_monotone, loaded, mark_spec, needed_path,
    needed_spec, Dir, PageFaults, PageTable,
};
use crate::rv32im::{decode_spec, exec_rv32im, PendingInst};
use crate::segment::{ExitCode, Segment, Session, SyscallRecord, TraceEvent};
use crate::{
    ExecError, CYCLES_PER_FULL_PAGE, FINI_BASE_CYCLES, INIT_CYCLES, MEM_SIZE, MIN_CYCLES_PO2,
    NUM_DATA_PAGES, NUM_PAGES, PAGE_SIZE, SHA_CYCLES, SYSTEM_START, WORD_SIZE, ZK_CYCLES,
};

verus! {

/// Total fixed tail of a segment: loader teardown, the journal digest, and
/// the reserved zero-knowledge cycles.
pub const FINI_CYCLES: usize = FINI_BASE_CYCLES + SHA_CYCLES + ZK_CYCLES;

/// Bytes of the register file image inside the SYSTEM region.
pub const REG_BYTES: usize = 32 * 4;

/// An operation that has been computed but not applied.
pub enum PendingOp {
    /// A decoded instruction effect.
    PendingInst(PendingInst),
    /// A resolved ecall effect.
    PendingECall(PendingECall),
}

/// Powers of two.
pub open spec fn pow2(n: nat) -> nat
    decreases n,
{
    if n == 0 {
        1
    } else {
        2 * pow2((n - 1) as nat)
    }
}

proof fn lemma_pow2_13()
    ensures
        pow2(13) == 8192,
{
    reveal_with_fuel(pow2, 14);
}

proof fn lemma_pow2_le(n: nat)
    requires
        n <= 23,
    ensures
        pow2(n) <= 0x80_0000,
    decreases 23 - n,
{
    if n < 23 {
        lemma_pow2_le(n + 1);
    } else {
        reveal_with_fuel(pow2, 24);
    }
}

/// Sum of a sequence of cycle totals.
pub open spec fn seq_sum(s: Seq<int>) -> int
    decreases s.len(),
{
    if s.len() == 0 {
        0
    } else {
        s[0] + seq_sum(s.subrange(1, s.len() as int))
    }
}

pub proof fn lemma_seq_sum_push(s: Seq<int>, x: int)
    ensures
        seq_sum(s.push(x)) == seq_sum(s) + x,
    decreases s.len(),
{
    let l2 = s.push(x);
    assert(l2[0] == if s.len() == 0 { x } else { s[0] });
    if s.len() == 0 {
        let e = l2.subrange(1, l2.len() as int);
        assert(e =~= Seq::<int>::empty());
        assert(seq_sum(l2) == x + seq_sum(e));
        assert(seq_sum(e) == 0);
        assert(seq_sum(s) == 0);
    } else {
        let sub = s.subrange(1, s.len() as int);
        assert(l2.subrange(1, l2.len() as int) =~= sub.push(x));
        lemma_seq_sum_push(sub, x);
        assert(seq_sum(l2) == s[0] + seq_sum(sub.push(x)));
        assert(seq_sum(s) == s[0] + seq_sum(sub));
    }
}

/// The page holding the given byte address.
pub open spec fn page_of_addr(a: u32) -> int {
    a as int / PAGE_SIZE as int
}

/// The data pages the ecall writes into.
pub open spec fn store_pages(e: PendingECall) -> Seq<u32> {
    e.ram_writes@.map_values(|w: (u32, u32)| w.0 / PAGE_SIZE as u32)
}

/// The pages the ecall pages in: the requested loads plus the write
/// targets.
pub open spec fn load_pages(e: PendingECall) -> Seq<u32> {
    e.page_loads@ + store_pages(e)
}

/// The pages that would transition on marking each leaf: the union of
/// the uncharged parts of their paths, all against the same state.
pub open spec fn union_needed(s: Seq<crate::page_table::PageState>, leaves: Seq<u32>, dir: Dir) -> Set<u32>
    decreases leaves.len(),
{
    if leaves.len() == 0 {
        Set::empty()
    } else {
        needed_path(s, leaves[0] as int, dir).union(
            union_needed(s, leaves.subrange(1, leaves.len() as int), dir),
        )
    }
}

pub proof fn lemma_union_needed_push(
    s: Seq<crate::page_table::PageState>,
    leaves: Seq<u32>,
    x: u32,
    dir: Dir,
)
    ensures
        union_needed(s, leaves.push(x), dir) == union_needed(s, leaves, dir).union(
            needed_path(s, x as int, dir),
        ),
    decreases leaves.len(),
{
    let l2 = leaves.push(x);
    assert(l2[0] == if leaves.len() == 0 { x } else { leaves[0] });
    if leaves.len() == 0 {
        let e = l2.subrange(1, l2.len() as int);
        assert(e =~= Seq::<u32>::empty());
        assert(union_needed(s, l2, dir) == needed_path(s, x as int, dir).union(
            union_needed(s, e, dir),
        ));
        assert(union_needed(s, l2, dir) =~= union_needed(s, leaves, dir).union(
            needed_path(s, x as int, dir),
        ));
    } else {
        let sub = leaves.subrange(1, leaves.len() as int);
        assert(l2.subrange(1, l2.len() as int) =~= sub.push(x));
        lemma_union_needed_push(s, sub, x, dir);
        assert(union_needed(s, l2, dir) == needed_path(s, leaves[0] as int, dir).union(
            union_needed(s, sub.push(x), dir),
        ));
        assert(union_needed(s, leaves, dir) == needed_path(s, leaves[0] as int, dir).union(
            union_needed(s, sub, dir),
        ));
        assert(union_needed(s, l2, dir) =~= union_needed(s, leaves, dir).union(
            needed_path(s, x as int, dir),
        ));
    }
}

/// RAM after the ordered word writes, later writes winning.
pub open spec fn apply_ram_writes(ram: Seq<u8>, writes: Seq<(u32, u32)>) -> Seq<u8>
    decreases writes.len(),
{
    if writes.len() == 0 {
        ram
    } else {
        apply_ram_writes(
            overwrite(ram, writes[0].0 as int, le_bytes(writes[0].1)),
            writes.subrange(1, writes.len() as int),
        )
    }
}

/// Registers after the ordered register writes.
pub open spec fn apply_reg_writes(regs: Seq<u32>, writes: Seq<(usize, u32)>) -> Seq<u32>
    decreases writes.len(),
{
    if writes.len() == 0 {
        regs
    } else {
        apply_reg_writes(
            regs.update(writes[0].0 as int, writes[0].1),
            writes.subrange(1, writes.len() as int),
        )
    }
}

pub proof fn lemma_apply_ram_writes_push(ram: Seq<u8>, writes: Seq<(u32, u32)>, x: (u32, u32))
    ensures
        apply_ram_writes(ram, writes.push(x)) == overwrite(
            apply_ram_writes(ram, writes),
            x.0 as int,
            le_bytes(x.1),
        ),
    decreases writes.len(),
{
    let l2 = writes.push(x);
    assert(l2[0] == if writes.len() == 0 { x } else { writes[0] });
    if writes.len() == 0 {
        let e = l2.subrange(1, l2.len() as int);
        assert(e =~= Seq::<(u32, u32)>::empty());
        assert(apply_ram_writes(ram, l2) == apply_ram_writes(
            overwrite(ram, x.0 as int, le_bytes(x.1)),
            e,
        ));
    } else {
        let sub = writes.subrange(1, writes.len() as int);
        assert(l2.subrange(1, l2.len() as int) =~= sub.push(x));
        lemma_apply_ram_writes_push(overwrite(ram, writes[0].0 as int, le_bytes(writes[0].1)), sub, x);
    }
}

pub proof fn lemma_apply_reg_writes_push(regs: Seq<u32>, writes: Seq<(usize, u32)>, x: (usize, u32))
    ensures
        apply_reg_writes(regs, writes.push(x)) == apply_reg_writes(regs, writes).update(
            x.0 as int,
            x.1,
        ),
    decreases writes.len(),
{
    let l2 = writes.push(x);
    assert(l2[0] == if writes.len() == 0 { x } else { writes[0] });
    if writes.len() == 0 {
        let e = l2.subrange(1, l2.len() as int);
        assert(e =~= Seq::<(usize, u32)>::empty());
        assert(apply_reg_writes(regs, l2) == apply_reg_writes(regs.update(x.0 as int, x.1), e));
    } else {
        let sub = writes.subrange(1, writes.len() as int);
        assert(l2.subrange(1, l2.len() as int) =~= sub.push(x));
        lemma_apply_reg_writes_push(regs.update(writes[0].0 as int, writes[0].1), sub, x);
    }
}

/// The trace events a committed ecall emits after its instruction-start
/// event: the register writes, then the memory writes, in order.
pub open spec fn ecall_events(e: PendingECall) -> Seq<TraceEvent> {
    e.reg_writes@.map_values(|w: (usize, u32)| TraceEvent::RegisterSet { reg: w.0, value: w.1 })
        + e.ram_writes@.map_values(|w: (u32, u32)| TraceEvent::MemorySet { addr: w.0, value: w.1 })
}

/// The cycles the operation itself consumes, pages aside.
pub open spec fn op_work(op: PendingOp) -> int {
    match op {
        PendingOp::PendingInst(PendingInst::MemoryLoad { .. }) => 1,
        PendingOp::PendingInst(PendingInst::MemoryStore { .. }) => 1,
        PendingOp::PendingInst(PendingInst::RegisterStore { cycles, .. }) => cycles as int,
        PendingOp::PendingInst(PendingInst::ECall) => 0,
        PendingOp::PendingECall(e) => e.cycles as int,
    }
}

/// The paging state after committing `op` at `pc`.
pub open spec fn commit_table(
    s: Seq<crate::page_table::PageState>,
    pc: u32,
    op: PendingOp,
) -> Seq<crate::page_table::PageState> {
    let s1 = mark_spec(s, page_of_addr(pc), Dir::Load);
    match op {
        PendingOp::PendingInst(PendingInst::MemoryLoad { addr, .. }) => mark_spec(
            s1,
            page_of_addr(addr),
            Dir::Load,
        ),
        PendingOp::PendingInst(PendingInst::MemoryStore { addr, .. }) => {
            let s2 = mark_spec(s1, page_of_addr(addr), Dir::Store);
            if needed_spec(s1, page_of_addr(addr), Dir::Store) > 0 {
                mark_spec(s2, page_of_addr(addr), Dir::Load)
            } else {
                s2
            }
        },
        PendingOp::PendingInst(PendingInst::RegisterStore { .. }) => s1,
        PendingOp::PendingInst(PendingInst::ECall) => s,
        PendingOp::PendingECall(e) => fold_mark(
            fold_mark(s1, load_pages(e), Dir::Load),
            store_pages(e),
            Dir::Store,
        ),
    }
}

/// The page-in cycles committing `op` charges, the fetch page included.
pub open spec fn commit_read_cycles(
    s: Seq<crate::page_table::PageState>,
    pc: u32,
    op: PendingOp,
) -> int {
    let c0 = needed_spec(s, page_of_addr(pc), Dir::Load) as int;
    let s1 = mark_spec(s, page_of_addr(pc), Dir::Load);
    match op {
        PendingOp::PendingInst(PendingInst::MemoryLoad { addr, .. }) => c0 + needed_spec(
            s1,
            page_of_addr(addr),
            Dir::Load,
        ),
        PendingOp::PendingInst(PendingInst::MemoryStore { addr, .. }) => {
            let wc = needed_spec(s1, page_of_addr(addr), Dir::Store) as int;
            let s2 = mark_spec(s1, page_of_addr(addr), Dir::Store);
            c0 + (if wc > 0 {
                needed_spec(s2, page_of_addr(addr), Dir::Load) as int
            } else {
                0
            })
        },
        PendingOp::PendingInst(PendingInst::RegisterStore { .. }) => c0,
        PendingOp::PendingInst(PendingInst::ECall) => 0,
        PendingOp::PendingECall(e) => c0 + fold_cost(s1, load_pages(e), Dir::Load) as int,
    }
}

/// The flush cycles committing `op` charges.
pub open spec fn commit_write_cycles(
    s: Seq<crate::page_table::PageState>,
    pc: u32,
    op: PendingOp,
) -> int {
    let s1 = mark_spec(s, page_of_addr(pc), Dir::Load);
    match op {
        PendingOp::PendingInst(PendingInst::MemoryStore { addr, .. }) => needed_spec(
            s1,
            page_of_addr(addr),
            Dir::Store,
        ) as int,
        PendingOp::PendingECall(e) => fold_cost(
            fold_mark(s1, load_pages(e), Dir::Load),
            store_pages(e),
            Dir::Store,
        ) as int,
        _ => 0,
    }
}

/// The decision value: the cycles reserved for `op` before committing it,
/// the instruction-fetch page included.  Memory operations price the load
/// and store transitions against the same pre state; the committed charge
/// never exceeds it.
pub open spec fn op_cost(s: Seq<crate::page_table::PageState>, pc: u32, op: PendingOp) -> int {
    let c0 = needed_spec(s, page_of_addr(pc), Dir::Load) as int;
    match op {
        PendingOp::PendingInst(PendingInst::MemoryLoad { addr, .. }) => c0 + needed_spec(
            s,
            page_of_addr(addr),
            Dir::Load,
        ) + 1,
        PendingOp::PendingInst(PendingInst::MemoryStore { addr, .. }) => c0 + needed_spec(
            s,
            page_of_addr(addr),
            Dir::Load,
        ) + needed_spec(s, page_of_addr(addr), Dir::Store) + 1,
        _ => commit_read_cycles(s, pc, op) + commit_write_cycles(s, pc, op) + op_work(op),
    }
}

/// The exact effect of applying a non-marker operation `op` at state
/// `pre`: if the operation's reserved cycles do not fit the remaining
/// budget, it is retained and the segment grows or a split is requested;
/// otherwise it commits, with the paging charges, cycle counters, state
/// writes and trace events all pinned per operation kind.  Promised by
/// `apply`, and by `step` for the held or freshly decoded operation.
#[verifier::opaque]
pub open spec fn apply_result<S: SyscallHandler>(
    pre: Executor<S>,
    post: Executor<S>,
    op: PendingOp,
    r: Result<Option<ExitCode>, ExecError>,
) -> bool {
    &&& (op_cost(
                pre.page_table@,
                pre.pc,
                op,
            ) >= pre.segment_limit - pre.segment_cycle - pre.read_cycles - pre.write_cycles - pre.fini_cycles - 1 ==> (r is Ok && post.pending_op
                == Some(op) && post.ram == pre.ram && post.regs == pre.regs && post.pc == pre.pc && post.page_table == pre.page_table && post.segments == pre.segments && post.journal
                == pre.journal && post.trace_events == pre.trace_events && post.segment_cycle == pre.segment_cycle && post.read_cycles == pre.read_cycles && post.write_cycles == pre.write_cycles && (if pre.cur_segment.po2 < pre.env.segment_limit_po2 {
                r->Ok_0 is None && post.cur_segment.po2 == pre.cur_segment.po2 + 1
                    && post.segment_limit == 2 * pre.segment_limit
            } else {
                r->Ok_0 == Some(ExitCode::SystemSplit) && post.cur_segment == pre.cur_segment && post.segment_limit == pre.segment_limit
            })))
    &&& (op_cost(
                pre.page_table@,
                pre.pc,
                op,
            ) < pre.segment_limit - pre.segment_cycle - pre.read_cycles - pre.write_cycles - pre.fini_cycles - 1 ==> (r is Ok && post.pending_op
                is None && post.page_table@ == commit_table(
                pre.page_table@,
                pre.pc,
                op,
            ) && post.read_cycles == pre.read_cycles + commit_read_cycles(
                pre.page_table@,
                pre.pc,
                op,
            ) && post.write_cycles == pre.write_cycles + commit_write_cycles(
                pre.page_table@,
                pre.pc,
                op,
            ) && post.segment_cycle == pre.segment_cycle + op_work(op) && post.cur_segment.insn_cycles == pre.cur_segment.insn_cycles + 1 && post.segments == pre.segments && post.journal == pre.journal && post.prev_segment_cycles == pre.prev_segment_cycles && post.segment_limit
                == pre.segment_limit && post.cur_segment.po2 == pre.cur_segment.po2 && (match op {
                PendingOp::PendingInst(PendingInst::MemoryLoad { addr, val, reg }) => r->Ok_0
                    is None && post.regs@ == (if reg != 0 {
                    pre.regs@.update(reg as int, val)
                } else {
                    pre.regs@
                }) && post.ram == pre.ram && post.pc == pre.pc + 4
                    && post.trace_events@ == (if pre.env.trace_enabled {
                    pre.trace_events@ + seq![
                        TraceEvent::InstructionStart {
                            cycle: pre.segment_cycle as u32,
                            pc: pre.pc,
                        },
                        TraceEvent::RegisterSet { reg, value: val },
                    ]
                } else {
                    pre.trace_events@
                }),
                PendingOp::PendingInst(PendingInst::MemoryStore { addr, val }) => r->Ok_0 is None
                    && post.ram@ == overwrite(pre.ram@, addr as int, le_bytes(val))
                    && post.regs == pre.regs && post.pc == pre.pc + 4
                    && post.trace_events@ == (if pre.env.trace_enabled {
                    pre.trace_events@ + seq![
                        TraceEvent::InstructionStart {
                            cycle: pre.segment_cycle as u32,
                            pc: pre.pc,
                        },
                        TraceEvent::MemorySet { addr, value: val },
                    ]
                } else {
                    pre.trace_events@
                }),
                PendingOp::PendingInst(PendingInst::RegisterStore { reg, val, new_pc, cycles }) => r->Ok_0 is None
                    && post.regs@ == (if reg != 0 {
                    pre.regs@.update(reg as int, val)
                } else {
                    pre.regs@
                }) && post.ram == pre.ram && post.pc == new_pc && post.trace_events@ == (if pre.env.trace_enabled {
                    pre.trace_events@ + seq![
                        TraceEvent::InstructionStart {
                            cycle: pre.segment_cycle as u32,
                            pc: pre.pc,
                        },
                        TraceEvent::RegisterSet { reg, value: val },
                    ]
                } else {
                    pre.trace_events@
                }),
                PendingOp::PendingInst(PendingInst::ECall) => false,
                PendingOp::PendingECall(e) => r->Ok_0 == e.exit_code && post.regs@
                    == apply_reg_writes(pre.regs@, e.reg_writes@) && post.ram@
                    == apply_ram_writes(pre.ram@, e.ram_writes@) && post.pc == pre.pc + 4 && post.cur_segment.syscalls@ == (match e.syscall {
                    Some(rec) => pre.cur_segment.syscalls@.push(rec),
                    None => pre.cur_segment.syscalls@,
                }) && post.trace_events@ == (if pre.env.trace_enabled {
                    pre.trace_events@ + seq![
                        TraceEvent::InstructionStart {
                            cycle: pre.segment_cycle as u32,
                            pc: pre.pc,
                        },
                    ] + ecall_events(e)
                } else {
                    pre.trace_events@
                }),
            })))
}

/// Whether one segment hands over to the next: the recorded post image id
/// is the id of the successor's pre image.
pub open spec fn hands_over(prev: Segment, buf: Seq<u8>, pc: u32) -> bool {
    prev.post_image_id@ == image_id_of(buf, pc)
}

/// The per-segment conditions every emitted segment satisfies.
pub open spec fn seg_wf(env_po2: usize, s: Segment) -> bool {
    &&& MIN_CYCLES_PO2 <= s.po2 <= env_po2
    &&& forall|i: int|
        0 <= i < s.faults.writes@.len() ==> s.faults.reads@.contains(#[trigger] s.faults.writes@[i])
    &&& s.split_insn is Some
}

/// Field-by-field equality of two executors, leaving out the recorded
/// trace events: the frame of `trace`.
pub open spec fn frame_except_trace<S: SyscallHandler>(a: Executor<S>, b: Executor<S>) -> bool {
    &&& a.env == b.env
    &&& a.cur_segment == b.cur_segment
    &&& a.segment_limit == b.segment_limit
    &&& a.segment_cycle == b.segment_cycle
    &&& a.read_cycles == b.read_cycles
    &&& a.write_cycles == b.write_cycles
    &&& a.init_cycles == b.init_cycles
    &&& a.fini_cycles == b.fini_cycles
    &&& a.prev_segment_cycles == b.prev_segment_cycles
    &&& a.pc == b.pc
    &&& a.regs == b.regs
    &&& a.ram == b.ram
    &&& a.page_table == b.page_table
    &&& a.pending_op == b.pending_op
    &&& a.segments == b.segments
    &&& a.journal == b.journal
    &&& a.seg_totals == b.seg_totals
}

/// Field-by-field equality leaving out the budget (the current segment,
/// its limit and the cycle counters) and the paging state: the frame of
/// resizing and of starting a segment.
pub open spec fn frame_except_budget<S: SyscallHandler>(a: Executor<S>, b: Executor<S>) -> bool {
    &&& a.env == b.env
    &&& a.init_cycles == b.init_cycles
    &&& a.fini_cycles == b.fini_cycles
    &&& a.prev_segment_cycles == b.prev_segment_cycles
    &&& a.pc == b.pc
    &&& a.regs == b.regs
    &&& a.ram == b.ram
    &&& a.pending_op == b.pending_op
    &&& a.segments == b.segments
    &&& a.journal == b.journal
    &&& a.trace_events == b.trace_events
    &&& a.seg_totals == b.seg_totals
}

/// The Executor provides an implementation for the execution phase: it
/// emulates the guest and decides where the trace is split into segments.
pub struct Executor<S: SyscallHandler> {
    /// The environment the run was configured with.
    pub env: ExecutorEnv<S>,
    /// The segment being executed.
    pub cur_segment: Segment,
    /// Cycles allowed for this segment: pow2(cur_segment.po2).
    pub segment_limit: usize,
    /// Cycles attributed to executed work, init cycles included.
    pub segment_cycle: usize,
    /// Cycles reserved for the page-ins known to be required.
    pub read_cycles: usize,
    /// Cycles reserved for flushing dirty pages at segment exit.
    pub write_cycles: usize,
    /// Fixed head from the loader.
    pub init_cycles: usize,
    /// Fixed tail: loader teardown, journal digest, ZK reservation.
    pub fini_cycles: usize,
    /// Cycles committed in previous segments.
    pub prev_segment_cycles: u64,
    /// Current program counter.
    pub pc: u32,
    /// The register file; register zero stays zero.
    pub regs: Vec<u32>,
    /// Flat guest memory.
    pub ram: Vec<u8>,
    /// Per-segment paging scratch state.
    pub page_table: PageTable,
    /// The operation computed but not yet applied, if any.
    pub pending_op: Option<PendingOp>,
    /// The segments emitted so far.
    pub segments: Vec<Segment>,
    /// The captured journal bytes.
    pub journal: Vec<u8>,
    /// Trace events, recorded when the environment enables tracing.
    pub trace_events: Vec<TraceEvent>,
    /// The cycle total of each emitted segment.
    pub seg_totals: Ghost<Seq<int>>,
}

impl<S: SyscallHandler> Executor<S> {
    /// The cycle-budget safety margin: everything reserved so far plus the
    /// safety slot fits the segment limit.
    pub open spec fn budget_ok(self) -> bool {
        self.segment_cycle + self.read_cycles + self.write_cycles + self.fini_cycles + 1
            <= self.segment_limit
    }

    /// Clean data pages (outside the register-file image) agree between
    /// RAM and the segment's pre image.
    pub open spec fn ram_tracks_image(self) -> bool {
        forall|a: int|
            0 <= a < MEM_SIZE && !(SYSTEM_START <= a < SYSTEM_START + REG_BYTES) && !dirty(
                self.page_table@,
                a / PAGE_SIZE as int,
            ) ==> #[trigger] self.ram@[a] == self.cur_segment.pre_image.buf@[a]
    }

    /// The executor's invariant; every public operation preserves it.
    pub open spec fn wf(self) -> bool {
        &&& self.env.wf()
        &&& self.ram@.len() == MEM_SIZE
        &&& self.regs@.len() == 32
        &&& self.regs@[0] == 0
        &&& self.page_table.wf()
        &&& self.page_table@.len() == NUM_PAGES
        &&& self.init_cycles == INIT_CYCLES
        &&& self.fini_cycles == FINI_CYCLES
        &&& MIN_CYCLES_PO2 <= self.cur_segment.po2 <= self.env.segment_limit_po2
        &&& self.segment_limit == pow2(self.cur_segment.po2 as nat)
        &&& self.budget_ok()
        &&& self.segment_cycle >= INIT_CYCLES
        &&& self.segments@.len() * 1000 <= self.prev_segment_cycles
        &&& self.cur_segment.insn_cycles <= self.segment_cycle
        &&& self.prev_segment_cycles <= SESSION_LIMIT_MAX + 0x0200_0000
        &&& match self.pending_op {
            None => true,
            Some(PendingOp::PendingInst(i)) => i.wf() && !(i is ECall) && self.pc % 4 == 0
                && self.pc + 4 <= MEM_SIZE,
            Some(PendingOp::PendingECall(e)) => e.wf() && self.pc % 4 == 0 && self.pc + 4
                <= MEM_SIZE,
        }
        &&& self.cur_segment.pre_image.wf()
        &&& self.cur_segment.pre_image.clean()
        &&& self.cur_segment.index == self.segments@.len()
        &&& forall|i: int|
            0 <= i < self.segments@.len() ==> (#[trigger] self.segments@[i]).index == i
        &&& forall|i: int|
            0 <= i < self.segments@.len() ==> seg_wf(
                self.env.segment_limit_po2,
                #[trigger] self.segments@[i],
            )
        &&& forall|i: int|
            0 <= i < self.segments@.len() - 1 ==> hands_over(
                #[trigger] self.segments@[i],
                self.segments@[i + 1].pre_image.buf@,
                self.segments@[i + 1].pre_image.pc,
            )
        &&& self.segments@.len() > 0 ==> hands_over(
            self.segments@[self.segments@.len() - 1],
            self.cur_segment.pre_image.buf@,
            self.cur_segment.pre_image.pc,
        )
        &&& self.seg_totals@.len() == self.segments@.len()
        &&& forall|i: int| 0 <= i < self.seg_totals@.len() ==> 0 <= #[trigger] self.seg_totals@[i]
        &&& self.prev_segment_cycles == seq_sum(self.seg_totals@)
        &&& self.ram_tracks_image()
    }

    /// Cycles still available before the budget margin is hit.
    pub fn segment_cycles_remaining(&self) -> (r: usize)
        requires
            self.wf(),
        ensures
            r == self.segment_limit - self.segment_cycle - self.read_cycles - self.write_cycles
                - self.fini_cycles - 1,
    {
        self.segment_limit - self.segment_cycle - self.read_cycles - self.write_cycles
            - self.fini_cycles - 1
    }

    /// The global cycle count, as syscall handlers observe it.
    pub fn get_cycle(&self) -> (r: u64)
        requires
            self.wf(),
        ensures
            r == self.prev_segment_cycles + self.segment_cycle,
    {
        proof {
            lemma_pow2_le(self.cur_segment.po2 as nat);
        }
        self.prev_segment_cycles + self.segment_cycle as u64
    }

    /// A register value.
    pub fn load_reg(&self, idx: usize) -> (r: u32)
        requires
            self.regs@.len() == 32,
            idx < 32,
        ensures
            r == self.regs@[idx as int],
    {
        self.regs[idx]
    }

    /// One byte of guest RAM.
    pub fn load_u8(&self, addr: u32) -> (r: u8)
        requires
            self.ram@.len() == MEM_SIZE,
            addr < MEM_SIZE,
        ensures
            r == self.ram@[addr as int],
    {
        self.ram[addr as usize]
    }

    /// One aligned word of guest RAM.
    pub fn load_u32(&self, addr: u32) -> (r: u32)
        requires
            self.ram@.len() == MEM_SIZE,
            addr + 4 <= MEM_SIZE,
        ensures
            r == word_at(self.ram@, addr as int),
    {
        let b0 = self.ram[addr as usize] as u32;
        let b1 = self.ram[addr as usize + 1] as u32;
        let b2 = self.ram[addr as usize + 2] as u32;
        let b3 = self.ram[addr as usize + 3] as u32;
        b0 + b1 * 0x100 + b2 * 0x10000 + b3 * 0x1000000
    }

    /// Record a trace event, if the environment asked for tracing.
    pub fn trace(&mut self, event: TraceEvent)
        requires
            old(self).wf(),
        ensures
            final(self).wf(),
            final(self).trace_events@ == (if old(self).env.trace_enabled {
                old(self).trace_events@.push(event)
            } else {
                old(self).trace_events@
            }),
            frame_except_trace(*final(self), *old(self)),
    {
        if self.env.trace_enabled {
            self.trace_events.push(event);
        }
    }

    /// Grow the current segment if the environment allows it, else ask for
    /// a split.  The pending operation is retained either way.
    fn handle_out_of_cycles(&mut self) -> (r: Result<Option<ExitCode>, ExecError>)
        requires
            old(self).wf(),
        ensures
            final(self).wf(),
            r is Ok,
            old(self).cur_segment.po2 < old(self).env.segment_limit_po2 ==> (r->Ok_0 is None
                && final(self).cur_segment.po2 == old(self).cur_segment.po2 + 1
                && final(self).segment_limit == 2 * old(self).segment_limit
                && frame_except_budget(*final(self), *old(self))
                && final(self).segment_cycle == old(self).segment_cycle
                && final(self).read_cycles == old(self).read_cycles
                && final(self).write_cycles == old(self).write_cycles
                && final(self).page_table == old(self).page_table
                && final(self).cur_segment == (Segment {
                    po2: final(self).cur_segment.po2,
                    ..old(self).cur_segment
                })),
            old(self).cur_segment.po2 >= old(self).env.segment_limit_po2 ==> r->Ok_0 == Some(
                ExitCode::SystemSplit,
            ) && *final(self) == *old(self),
    {
        if self.cur_segment.po2 < self.env.segment_limit_po2 {
            proof {
                lemma_pow2_le((self.cur_segment.po2 + 1) as nat);
            }
            self.cur_segment.po2 = self.cur_segment.po2 + 1;
            self.segment_limit = self.segment_limit * 2;
            Ok(None)
        } else {
            Ok(Some(ExitCode::SystemSplit))
        }
    }

    /// Begin a fresh segment: charge the loader head and the root page,
    /// and reset the budget to the smallest power of two that holds them.
    fn start_segment(&mut self)
        requires
            old(self).env.wf(),
            old(self).ram@.len() == MEM_SIZE,
            old(self).regs@.len() == 32,
            old(self).regs@[0] == 0,
            old(self).page_table.fresh(),
            old(self).init_cycles == INIT_CYCLES,
            old(self).fini_cycles == FINI_CYCLES,
            old(self).segment_cycle == 0,
            old(self).read_cycles == 0,
            old(self).segments@.len() * 1000 <= old(self).prev_segment_cycles,
            old(self).prev_segment_cycles <= SESSION_LIMIT_MAX + 0x0200_0000,
            (match old(self).pending_op {
                None => true,
                Some(PendingOp::PendingInst(i)) => i.wf() && !(i is ECall) && old(self).pc % 4 == 0
                    && old(self).pc + 4 <= MEM_SIZE,
                Some(PendingOp::PendingECall(e)) => e.wf() && old(self).pc % 4 == 0 && old(self).pc
                    + 4 <= MEM_SIZE,
            }),
            old(self).cur_segment.pre_image.wf(),
            old(self).cur_segment.pre_image.clean(),
            old(self).cur_segment.index == old(self).segments@.len(),
            forall|i: int|
                0 <= i < old(self).segments@.len() ==> (#[trigger] old(self).segments@[i]).index
                    == i,
            forall|i: int|
                0 <= i < old(self).segments@.len() ==> seg_wf(
                    old(self).env.segment_limit_po2,
                    #[trigger] old(self).segments@[i],
                ),
            forall|i: int|
                0 <= i < old(self).segments@.len() - 1 ==> hands_over(
                    #[trigger] old(self).segments@[i],
                    old(self).segments@[i + 1].pre_image.buf@,
                    old(self).segments@[i + 1].pre_image.pc,
                ),
            old(self).segments@.len() > 0 ==> hands_over(
                old(self).segments@[old(self).segments@.len() - 1],
                old(self).cur_segment.pre_image.buf@,
                old(self).cur_segment.pre_image.pc,
            ),
            old(self).seg_totals@.len() == old(self).segments@.len(),
            forall|i: int|
                0 <= i < old(self).seg_totals@.len() ==> 0 <= #[trigger] old(self).seg_totals@[i],
            old(self).prev_segment_cycles == seq_sum(old(self).seg_totals@),
            forall|a: int|
                0 <= a < MEM_SIZE && !(SYSTEM_START <= a < SYSTEM_START + REG_BYTES)
                    ==> #[trigger] old(self).ram@[a] == old(self).cur_segment.pre_image.buf@[a],
        ensures
            final(self).wf(),
            final(self).segment_cycle == INIT_CYCLES,
            final(self).read_cycles == CYCLES_PER_FULL_PAGE,
            final(self).write_cycles == CYCLES_PER_FULL_PAGE,
            final(self).cur_segment.po2 == MIN_CYCLES_PO2,
            final(self).segment_limit == 8192,
            forall|p: int| 0 <= p < NUM_DATA_PAGES ==> !loaded(final(self).page_table@, p),
            forall|p: int| 0 <= p < NUM_DATA_PAGES ==> !dirty(final(self).page_table@, p),
            final(self).cur_segment == (Segment {
                po2: MIN_CYCLES_PO2,
                insn_cycles: 0,
                ..old(self).cur_segment
            }),
            frame_except_budget(*final(self), *old(self)),
    {
        self.segment_cycle = self.init_cycles;
        let rw = self.page_table.mark_root();
        self.read_cycles = self.read_cycles + rw.0;
        self.write_cycles = rw.1;
        // init + root read + root write + fini is a fixed 3526 cycles, so
        // the clamped initial exponent is always the minimum
        self.cur_segment.po2 = MIN_CYCLES_PO2;
        self.segment_limit = 8192;
        self.cur_segment.insn_cycles = 0;
        proof {
            lemma_pow2_13();
        }
    }
}

/// Copy a byte vector.
pub fn copy_bytes(src: &Vec<u8>) -> (r: Vec<u8>)
    ensures
        r@ == src@,
{
    let r = src.clone();
    proof {
        assert forall|j: int| 0 <= j < r@.len() implies #[trigger] r@[j] == src@[j] by {
            assert(vstd::pervasive::cloned::<u8>(src@[j], r@[j]));
        }
        assert(r@ =~= src@);
    }
    r
}

/// Write one word into RAM, little-endian.
pub fn store_word(ram: &mut Vec<u8>, addr: u32, val: u32)
    requires
        old(ram)@.len() == MEM_SIZE,
        addr + 4 <= MEM_SIZE,
    ensures
        final(ram)@ == overwrite(old(ram)@, addr as int, le_bytes(val)),
        final(ram)@.len() == MEM_SIZE,
{
    ram.set(addr as usize, (val % 0x100) as u8);
    ram.set(addr as usize + 1, ((val / 0x100) % 0x100) as u8);
    ram.set(addr as usize + 2, ((val / 0x10000) % 0x100) as u8);
    ram.set(addr as usize + 3, ((val / 0x1000000) % 0x100) as u8);
    proof {
        assert(ram@ =~= overwrite(old(ram)@, addr as int, le_bytes(val)));
    }
}

/// Read the register file out of the SYSTEM region of a memory buffer,
/// suppressing register zero.
pub fn load_regs(buf: &Vec<u8>) -> (r: Vec<u32>)
    requires
        buf@.len() == MEM_SIZE,
    ensures
        r@.len() == 32,
        r@[0] == 0,
        forall|i: int|
            1 <= i < 32 ==> #[trigger] r@[i] == word_at(buf@, SYSTEM_START + 4 * i),
{
    let mut r: Vec<u32> = Vec::new();
    r.push(0);
    let mut i: usize = 1;
    while i < 32
        invariant
            1 <= i <= 32,
            buf@.len() == MEM_SIZE,
            r@.len() == i,
            r@[0] == 0,
            forall|j: int| 1 <= j < i ==> #[trigger] r@[j] == word_at(buf@, SYSTEM_START + 4 * j),
        decreases 32 - i,
    {
        let a: usize = SYSTEM_START + 4 * i;
        let b0 = buf[a] as u32;
        let b1 = buf[a + 1] as u32;
        let b2 = buf[a + 2] as u32;
        let b3 = buf[a + 3] as u32;
        r.push(b0 + b1 * 0x100 + b2 * 0x10000 + b3 * 0x1000000);
        i = i + 1;
    }
    r
}

impl<S: SyscallHandler> Executor<S> {
    /// Build an executor over the given image and entry point: allocate
    /// RAM from the image, load the register file from the SYSTEM region,
    /// and start the first segment.
    pub fn new(env: ExecutorEnv<S>, image: MemoryImage, pc: u32) -> (r: Executor<S>)
        requires
            env.wf(),
            image.wf(),
        ensures
            r.wf(),
            r.segments@.len() == 0,
            r.journal@.len() == 0,
            r.trace_events@.len() == 0,
            r.pending_op is None,
            r.prev_segment_cycles == 0,
            r.pc == pc,
            r.cur_segment.pre_image.buf@ == image.buf@,
            r.cur_segment.pre_image.pc == image.pc,
            r.ram@ == image.buf@,
            r.regs@[0] == 0,
            r.segment_cycle == INIT_CYCLES,
            r.read_cycles == CYCLES_PER_FULL_PAGE,
            r.write_cycles == CYCLES_PER_FULL_PAGE,
            r.cur_segment.po2 == MIN_CYCLES_PO2,
            r.cur_segment.index == 0,
            r.cur_segment.insn_cycles == 0,
            forall|i: int|
                1 <= i < 32 ==> #[trigger] r.regs@[i] == word_at(image.buf@, SYSTEM_START + 4 * i),
    {
        let mut image = image;
        image.hash_pages();
        let ram = copy_bytes(&image.buf);
        let regs = load_regs(&ram);
        let page_table = PageTable::new();
        let cur_segment = Segment {
            index: 0,
            pre_image: image,
            post_image_id: Vec::new(),
            exit_code: ExitCode::SystemSplit,
            syscalls: Vec::new(),
            faults: PageFaults { reads: Vec::new(), writes: Vec::new() },
            po2: MIN_CYCLES_PO2,
            split_insn: None,
            insn_cycles: 0,
        };
        let mut exec = Executor {
            env,
            cur_segment,
            segment_limit: 0,
            segment_cycle: 0,
            read_cycles: 0,
            write_cycles: 0,
            init_cycles: INIT_CYCLES,
            fini_cycles: FINI_CYCLES,
            prev_segment_cycles: 0,
            pc,
            regs,
            ram,
            page_table,
            pending_op: None,
            segments: Vec::new(),
            journal: Vec::new(),
            trace_events: Vec::new(),
            seg_totals: Ghost(Seq::empty()),
        };
        exec.start_segment();
        exec
    }
}


/// The data pages an ecall's RAM writes land in, in write order.
pub fn collect_store_pages(e: &PendingECall) -> (r: Vec<u32>)
    requires
        e.wf(),
    ensures
        r@ == store_pages(*e),
        forall|i: int| 0 <= i < r@.len() ==> #[trigger] r@[i] < NUM_DATA_PAGES,
{
    let mut r: Vec<u32> = Vec::new();
    let mut i: usize = 0;
    while i < e.ram_writes.len()
        invariant
            e.wf(),
            i <= e.ram_writes@.len(),
            r@.len() == i,
            forall|j: int|
                0 <= j < i ==> #[trigger] r@[j] == e.ram_writes@[j].0 / PAGE_SIZE as u32
                    && r@[j] < NUM_DATA_PAGES,
        decreases e.ram_writes@.len() - i,
    {
        let a = e.ram_writes[i].0;
        proof {
            assert((a / (PAGE_SIZE as u32)) < (NUM_DATA_PAGES as u32)) by (nonlinear_arith)
                requires
                    a + 4 <= MEM_SIZE,
                    PAGE_SIZE == 1024,
                    MEM_SIZE == 0x0040_0000,
                    NUM_DATA_PAGES == 4096;
        }
        r.push(a / PAGE_SIZE as u32);
        i = i + 1;
    }
    proof {
        assert(r@ =~= store_pages(*e));
    }
    r
}

/// The pages an ecall pages in: the requested loads then the write
/// targets.
pub fn collect_load_pages(e: &PendingECall) -> (r: Vec<u32>)
    requires
        e.wf(),
    ensures
        r@ == load_pages(*e),
        forall|i: int| 0 <= i < r@.len() ==> #[trigger] r@[i] < NUM_DATA_PAGES,
{
    let mut r: Vec<u32> = Vec::new();
    let mut i: usize = 0;
    while i < e.page_loads.len()
        invariant
            e.wf(),
            i <= e.page_loads@.len(),
            r@.len() == i,
            forall|j: int|
                0 <= j < i ==> #[trigger] r@[j] == e.page_loads@[j] && r@[j] < NUM_DATA_PAGES,
        decreases e.page_loads@.len() - i,
    {
        r.push(e.page_loads[i]);
        i = i + 1;
    }
    let stores = collect_store_pages(e);
    let mut k: usize = 0;
    while k < stores.len()
        invariant
            e.wf(),
            stores@ == store_pages(*e),
            forall|j: int| 0 <= j < stores@.len() ==> #[trigger] stores@[j] < NUM_DATA_PAGES,
            k <= stores@.len(),
            r@.len() == e.page_loads@.len() + k,
            forall|j: int|
                0 <= j < e.page_loads@.len() ==> #[trigger] r@[j] == e.page_loads@[j],
            forall|j: int|
                0 <= j < k ==> #[trigger] r@[e.page_loads@.len() + j] == stores@[j],
            forall|j: int| 0 <= j < r@.len() ==> #[trigger] r@[j] < NUM_DATA_PAGES,
        decreases stores@.len() - k,
    {
        r.push(stores[k]);
        k = k + 1;
    }
    proof {
        assert forall|j: int| 0 <= j < r@.len() implies r@[j] == load_pages(*e)[j] by {
            if j >= e.page_loads@.len() {
                let d = j - e.page_loads@.len();
                assert(r@[e.page_loads@.len() + d] == stores@[d]);
            }
        }
        assert(r@ =~= load_pages(*e));
    }
    r
}

impl<S: SyscallHandler> Executor<S> {
    /// The page indices that would transition on committing the ecall
    /// against the current paging state: the requested loads united with
    /// the write-target pages, each expanded through the uncharged part of
    /// its Merkle path (`pages_needed`), without duplicates; likewise the
    /// dirty transitions for the writes.
    pub fn calc_ecall_pages(&self, ecall: &PendingECall) -> (r: (Vec<u32>, Vec<u32>))
        requires
            ecall.wf(),
            self.page_table@.len() == NUM_PAGES,
        ensures
            r.0@.to_set() == union_needed(self.page_table@, load_pages(*ecall), Dir::Load),
            r.1@.to_set() == union_needed(self.page_table@, store_pages(*ecall), Dir::Store),
            r.0@.no_duplicates(),
            r.1@.no_duplicates(),
    {
        let loads_leaves = collect_load_pages(ecall);
        let stores_leaves = collect_store_pages(ecall);
        let loads = self.union_pages(&loads_leaves, Dir::Load);
        let stores = self.union_pages(&stores_leaves, Dir::Store);
        (loads, stores)
    }

    /// Collect, without duplicates, every page that would transition on
    /// marking each of the given leaves.
    fn union_pages(&self, leaves: &Vec<u32>, dir: Dir) -> (r: Vec<u32>)
        requires
            self.page_table@.len() == NUM_PAGES,
            forall|i: int| 0 <= i < leaves@.len() ==> #[trigger] leaves@[i] < NUM_PAGES,
        ensures
            r@.to_set() == union_needed(self.page_table@, leaves@, dir),
            r@.no_duplicates(),
    {
        let mut out: Vec<u32> = Vec::new();
        let mut i: usize = 0;
        proof {
            assert(leaves@.take(0) =~= Seq::<u32>::empty());
            assert(out@.to_set() =~= union_needed(self.page_table@, leaves@.take(0), dir));
        }
        while i < leaves.len()
            invariant
                i <= leaves@.len(),
                self.page_table@.len() == NUM_PAGES,
                forall|j: int| 0 <= j < leaves@.len() ==> #[trigger] leaves@[j] < NUM_PAGES,
                out@.to_set() == union_needed(self.page_table@, leaves@.take(i as int), dir),
                out@.no_duplicates(),
            decreases leaves@.len() - i,
        {
            let path = self.page_table.pages_needed(leaves[i] as usize, dir);
            let ghost before = out@;
            let mut k: usize = 0;
            while k < path.len()
                invariant
                    k <= path@.len(),
                    path@.to_set() == needed_path(
                        self.page_table@,
                        leaves@[i as int] as int,
                        dir,
                    ),
                    i < leaves@.len(),
                    out@.to_set() == before.to_set().union(path@.take(k as int).to_set()),
                    out@.no_duplicates(),
                decreases path@.len() - k,
            {
                let q = path[k];
                let ghost out_before = out@;
                if !vec_contains_u32(&out, q) {
                    out.push(q);
                }
                proof {
                    assert forall|x: u32| #[trigger] out@.contains(x) implies out_before.contains(
                        x,
                    ) || x == q by {
                        let j = choose|j: int| 0 <= j < out@.len() && out@[j] == x;
                        if j < out_before.len() {
                            assert(out_before[j] == x);
                        }
                    }
                    assert forall|x: u32| out_before.contains(x) implies #[trigger] out@.contains(
                        x,
                    ) by {
                        let j = choose|j: int| 0 <= j < out_before.len() && out_before[j] == x;
                        assert(out@[j] == x);
                    }
                    if !out_before.contains(q) {
                        assert(out@[out@.len() - 1] == q);
                        assert(out@.contains(q));
                    }
                    assert(path@.take(k as int).push(path@[k as int]) =~= path@.take(k as int + 1));
                    assert forall|x: u32| #[trigger] path@.take(k as int + 1).contains(x) implies
                        path@.take(k as int).contains(x) || x == q by {
                        let j = choose|j: int|
                            0 <= j < path@.take(k as int + 1).len() && #[trigger] path@.take(
                                k as int + 1,
                            )[j] == x;
                        if j < k {
                            assert(path@.take(k as int)[j] == x);
                        }
                    }
                    assert forall|x: u32| path@.take(k as int).contains(x) implies #[trigger] path@.take(
                        k as int + 1,
                    ).contains(x) by {
                        let j = choose|j: int|
                            0 <= j < path@.take(k as int).len() && #[trigger] path@.take(
                                k as int,
                            )[j] == x;
                        assert(path@.take(k as int + 1)[j] == x);
                    }
                    assert(path@.take(k as int + 1).contains(q)) by {
                        assert(path@.take(k as int + 1)[k as int] == q);
                    }
                    assert forall|x: u32| #[trigger] out@.contains(x) implies before.contains(x)
                        || path@.take(k as int + 1).contains(x) by {
                        assert(out_before.to_set().contains(x) == (before.to_set().contains(x)
                            || path@.take(k as int).to_set().contains(x)));
                    }
                    assert forall|x: u32|
                        before.contains(x) || path@.take(k as int + 1).contains(x)
                        implies #[trigger] out@.contains(x) by {
                        assert(out_before.to_set().contains(x) == (before.to_set().contains(x)
                            || path@.take(k as int).to_set().contains(x)));
                        if path@.take(k as int + 1).contains(x) && !path@.take(
                            k as int,
                        ).contains(x) {
                            assert(x == q);
                        }
                        if out_before.contains(x) {
                            assert(out@.contains(x));
                        }
                        if x == q {
                            assert(out@.contains(q));
                        }
                    }
                    assert(out@.to_set() =~= before.to_set().union(
                        path@.take(k as int + 1).to_set(),
                    ));
                }
                k = k + 1;
            }
            proof {
                assert(path@.take(path@.len() as int) =~= path@);
                lemma_union_needed_push(
                    self.page_table@,
                    leaves@.take(i as int),
                    leaves@[i as int],
                    dir,
                );
                assert(leaves@.take(i as int).push(leaves@[i as int]) =~= leaves@.take(
                    i as int + 1,
                ));
            }
            i = i + 1;
        }
        proof {
            assert(leaves@.take(leaves@.len() as int) =~= leaves@);
        }
        out
    }

    /// Commit a resolved ecall whose pages are already charged: apply the
    /// register and RAM writes in order, emitting their trace events, log
    /// the syscall record, and advance the program counter.
    #[verifier::rlimit(60)]
    fn commit_ecall(&mut self, e: PendingECall) -> (r: Option<ExitCode>)
        requires
            old(self).wf(),
            e.wf(),
            old(self).pc % 4 == 0,
            old(self).pc + 4 <= MEM_SIZE,
            old(self).pending_op is None,
            forall|j: int|
                0 <= j < store_pages(e).len() ==> charged(
                    old(self).page_table@,
                    #[trigger] store_pages(e)[j] as int,
                    Dir::Store,
                ),
        ensures
            final(self).wf(),
            r == e.exit_code,
            final(self).regs@ == apply_reg_writes(old(self).regs@, e.reg_writes@),
            final(self).ram@ == apply_ram_writes(old(self).ram@, e.ram_writes@),
            final(self).pc == old(self).pc + 4,
            final(self).trace_events@ == (if old(self).env.trace_enabled {
                old(self).trace_events@ + ecall_events(e)
            } else {
                old(self).trace_events@
            }),
            final(self).cur_segment.syscalls@ == (match e.syscall {
                Some(rec) => old(self).cur_segment.syscalls@.push(rec),
                None => old(self).cur_segment.syscalls@,
            }),
            final(self).cur_segment == (Segment {
                syscalls: final(self).cur_segment.syscalls,
                ..old(self).cur_segment
            }),
            final(self).env == old(self).env,
            final(self).segment_limit == old(self).segment_limit,
            final(self).segment_cycle == old(self).segment_cycle,
            final(self).read_cycles == old(self).read_cycles,
            final(self).write_cycles == old(self).write_cycles,
            final(self).prev_segment_cycles == old(self).prev_segment_cycles,
            final(self).page_table == old(self).page_table,
            final(self).pending_op is None,
            final(self).segments == old(self).segments,
            final(self).journal == old(self).journal,
            final(self).seg_totals == old(self).seg_totals,
    {
        let ghost snap = *old(self);
        let ghost regs0 = old(self).regs@;
        let ghost ram0 = old(self).ram@;
        let ghost ev0 = old(self).trace_events@;
        let ghost reg_evs = e.reg_writes@.map_values(
            |w: (usize, u32)| TraceEvent::RegisterSet { reg: w.0, value: w.1 },
        );
        let ghost ram_evs = e.ram_writes@.map_values(
            |w: (u32, u32)| TraceEvent::MemorySet { addr: w.0, value: w.1 },
        );
        let PendingECall { ram_writes, reg_writes, page_loads, syscall, exit_code, cycles, journal } =
            e;
        let mut i: usize = 0;
        while i < reg_writes.len()
            invariant
                i <= reg_writes@.len(),
                reg_writes@ == e.reg_writes@,
                e.wf(),
                reg_evs.len() == reg_writes@.len(),
                forall|j: int|
                    0 <= j < reg_evs.len() ==> #[trigger] reg_evs[j] == (TraceEvent::RegisterSet {
                        reg: reg_writes@[j].0,
                        value: reg_writes@[j].1,
                    }),
                self.regs@.len() == 32,
                self.regs@[0] == 0,
                self.regs@ == apply_reg_writes(regs0, reg_writes@.take(i as int)),
                self.trace_events@ == (if snap.env.trace_enabled {
                    ev0 + reg_evs.take(i as int)
                } else {
                    ev0
                }),
                self.env == snap.env,
                self.ram == snap.ram,
                self.pc == snap.pc,
                self.cur_segment == snap.cur_segment,
                self.segment_limit == snap.segment_limit,
                self.segment_cycle == snap.segment_cycle,
                self.read_cycles == snap.read_cycles,
                self.write_cycles == snap.write_cycles,
                self.init_cycles == snap.init_cycles,
                self.fini_cycles == snap.fini_cycles,
                self.prev_segment_cycles == snap.prev_segment_cycles,
                self.page_table == snap.page_table,
                self.pending_op is None,
                self.segments == snap.segments,
                self.journal == snap.journal,
                self.seg_totals == snap.seg_totals,
            decreases reg_writes@.len() - i,
        {
            let p = reg_writes[i];
            let rg = p.0;
            let val = p.1;
            proof {
                assert(0 < e.reg_writes@[i as int].0 < 32);
            }
            if rg != 0 {
                self.regs.set(rg, val);
            }
            if self.env.trace_enabled {
                self.trace_events.push(TraceEvent::RegisterSet { reg: rg, value: val });
            }
            proof {
                lemma_apply_reg_writes_push(regs0, reg_writes@.take(i as int), (rg, val));
                assert(reg_writes@.take(i as int).push((rg, val)) =~= reg_writes@.take(
                    i as int + 1,
                ));
                assert(reg_evs[i as int] == TraceEvent::RegisterSet { reg: rg, value: val });
                assert(reg_evs.take(i as int).push(
                    TraceEvent::RegisterSet { reg: rg, value: val },
                ) =~= reg_evs.take(i as int + 1));
            }
            i = i + 1;
        }
        proof {
            assert(reg_writes@.take(reg_writes@.len() as int) =~= reg_writes@);
            assert(reg_evs.take(reg_writes@.len() as int) =~= reg_evs);
        }
        let ghost regs_done = self.regs@;
        let ghost ev1 = self.trace_events@;
        let mut k: usize = 0;
        while k < ram_writes.len()
            invariant
                k <= ram_writes@.len(),
                ram_writes@ == e.ram_writes@,
                e.wf(),
                ram_evs.len() == ram_writes@.len(),
                forall|j: int|
                    0 <= j < ram_evs.len() ==> #[trigger] ram_evs[j] == (TraceEvent::MemorySet {
                        addr: ram_writes@[j].0,
                        value: ram_writes@[j].1,
                    }),
                forall|j: int|
                    0 <= j < store_pages(e).len() ==> charged(
                        snap.page_table@,
                        #[trigger] store_pages(e)[j] as int,
                        Dir::Store,
                    ),
                self.ram@.len() == MEM_SIZE,
                self.ram@ == apply_ram_writes(ram0, ram_writes@.take(k as int)),
                forall|a: int|
                    0 <= a < MEM_SIZE && !dirty(snap.page_table@, a / PAGE_SIZE as int)
                        ==> #[trigger] self.ram@[a] == ram0[a],
                self.trace_events@ == (if snap.env.trace_enabled {
                    ev1 + ram_evs.take(k as int)
                } else {
                    ev1
                }),
                self.regs@ == regs_done,
                self.env == snap.env,
                self.pc == snap.pc,
                self.cur_segment == snap.cur_segment,
                self.segment_limit == snap.segment_limit,
                self.segment_cycle == snap.segment_cycle,
                self.read_cycles == snap.read_cycles,
                self.write_cycles == snap.write_cycles,
                self.init_cycles == snap.init_cycles,
                self.fini_cycles == snap.fini_cycles,
                self.prev_segment_cycles == snap.prev_segment_cycles,
                self.page_table == snap.page_table,
                self.pending_op is None,
                self.segments == snap.segments,
                self.journal == snap.journal,
                self.seg_totals == snap.seg_totals,
            decreases ram_writes@.len() - k,
        {
            let p = ram_writes[k];
            let addr = p.0;
            let val = p.1;
            proof {
                assert(e.ram_writes@[k as int].0 % 4 == 0 && e.ram_writes@[k as int].0 + 4
                    <= MEM_SIZE);
                assert(store_pages(e)[k as int] == addr / PAGE_SIZE as u32);
                assert(charged(snap.page_table@, store_pages(e)[k as int] as int, Dir::Store));
            }
            let ghost ram_before = self.ram@;
            store_word(&mut self.ram, addr, val);
            if self.env.trace_enabled {
                self.trace_events.push(TraceEvent::MemorySet { addr, value: val });
            }
            proof {
                lemma_apply_ram_writes_push(ram0, ram_writes@.take(k as int), (addr, val));
                assert(ram_writes@.take(k as int).push((addr, val)) =~= ram_writes@.take(
                    k as int + 1,
                ));
                assert(ram_evs[k as int] == TraceEvent::MemorySet { addr, value: val });
                assert(ram_evs.take(k as int).push(TraceEvent::MemorySet { addr, value: val })
                    =~= ram_evs.take(k as int + 1));
                assert forall|a: int|
                    0 <= a < MEM_SIZE && !dirty(snap.page_table@, a / PAGE_SIZE as int)
                        implies #[trigger] self.ram@[a] == ram0[a] by {
                    if addr <= a < addr + 4 {
                        assert(a / PAGE_SIZE as int == addr as int / PAGE_SIZE as int)
                            by (nonlinear_arith)
                            requires
                                addr as int <= a < addr + 4,
                                addr % 4 == 0,
                                PAGE_SIZE == 1024;
                        assert(((addr / (PAGE_SIZE as u32)) as int) == addr as int
                            / PAGE_SIZE as int) by (nonlinear_arith)
                            requires PAGE_SIZE == 1024;
                        assert(dirty(snap.page_table@, a / PAGE_SIZE as int));
                    } else {
                        assert(self.ram@[a] == ram_before[a]);
                    }
                }
            }
            k = k + 1;
        }
        proof {
            assert(ram_writes@.take(ram_writes@.len() as int) =~= ram_writes@);
            assert(ram_evs.take(ram_writes@.len() as int) =~= ram_evs);
        }
        match syscall {
            Some(rec) => {
                self.cur_segment.syscalls.push(rec);
            },
            None => {},
        }
        self.pc = self.pc + 4;
        proof {
            if snap.env.trace_enabled {
                assert(self.trace_events@ =~= ev0 + ecall_events(e));
            }
            assert forall|a: int|
                0 <= a < MEM_SIZE && !(SYSTEM_START <= a < SYSTEM_START + REG_BYTES) && !dirty(
                    self.page_table@,
                    a / PAGE_SIZE as int,
                ) implies #[trigger] self.ram@[a] == self.cur_segment.pre_image.buf@[a] by {
                assert(self.ram@[a] == ram0[a]);
            }
        }
        exit_code
    }
}


impl<S: SyscallHandler> Executor<S> {
    /// Two-phase apply.  First estimate the cycles the operation needs,
    /// instruction-fetch paging included; if they do not fit the remaining
    /// budget, grow the segment or ask for a split, retaining the
    /// operation; otherwise commit its effects.  An `ecall` marker is
    /// first resolved through the syscall layer into a pending ecall and
    /// retried on the next step.
    #[verifier::rlimit(100)]
    #[verifier::spinoff_prover]
    pub fn apply(&mut self, op: PendingOp) -> (r: Result<Option<ExitCode>, ExecError>)
        requires
            old(self).wf(),
            old(self).pending_op is None,
            (match op {
                PendingOp::PendingInst(i) => i.wf() && old(self).pc % 4 == 0 && old(self).pc + 4
                    <= MEM_SIZE,
                PendingOp::PendingECall(e) => e.wf() && old(self).pc % 4 == 0 && old(self).pc + 4
                    <= MEM_SIZE,
            }),
        ensures
            final(self).wf(),
            final(self).prev_segment_cycles == old(self).prev_segment_cycles,
            final(self).segments == old(self).segments,
            final(self).seg_totals == old(self).seg_totals,
            final(self).segment_cycle >= old(self).segment_cycle,
            final(self).env.segment_limit_po2 == old(self).env.segment_limit_po2,
            final(self).env.session_limit == old(self).env.session_limit,
            final(self).env.trace_enabled == old(self).env.trace_enabled,
            final(self).env.input_digest == old(self).env.input_digest,
            final(self).env.assumptions == old(self).env.assumptions,
            r is Err ==> (op matches PendingOp::PendingInst(PendingInst::ECall))
                && final(self).pending_op is None && final(self).pc == old(self).pc && final(self).ram == old(self).ram && final(self).regs == old(self).regs && final(self).page_table
                == old(self).page_table && final(self).segments == old(self).segments && final(self).journal == old(self).journal && final(self).cur_segment == old(self).cur_segment
                && final(self).prev_segment_cycles == old(self).prev_segment_cycles,
            (op matches PendingOp::PendingInst(PendingInst::ECall)) && old(self).regs@[5]
                == crate::ecall::ECALL_HALT && (old(self).regs@[10] == crate::ecall::HALT_TERMINATE
                || old(self).regs@[10] == crate::ecall::HALT_PAUSE) ==> r is Ok,
            (op matches PendingOp::PendingInst(PendingInst::ECall)) && r is Ok ==> (r->Ok_0 is None
                && (final(self).pending_op matches Some(PendingOp::PendingECall(e2)) && e2.wf())
                && old(self).journal@.is_prefix_of(final(self).journal@) && final(self).pc == old(self).pc && final(self).ram == old(self).ram && final(self).regs == old(self).regs
                && final(self).page_table == old(self).page_table && final(self).segments == old(self).segments && final(self).cur_segment == old(self).cur_segment && final(self).trace_events == old(self).trace_events && final(self).prev_segment_cycles == old(self).prev_segment_cycles && final(self).segment_cycle == old(self).segment_cycle && final(self).read_cycles == old(self).read_cycles && final(self).write_cycles == old(self).write_cycles && final(self).segment_limit == old(self).segment_limit),
            !(op matches PendingOp::PendingInst(PendingInst::ECall)) ==> apply_result(
                *old(self),
                *final(self),
                op,
                r,
            ),
            r is Err ==> (r->Err_0 is IllegalInstruction || r->Err_0 is UnknownSyscall),
    {
        proof {
            reveal(apply_result);
        }
        let ghost s0 = self.page_table@;
        let op = match op {
            PendingOp::PendingInst(PendingInst::ECall) => {
                let cycle = self.get_cycle();
                let ecall = match exec_ecall(
                    &self.ram,
                    &self.regs,
                    self.pc,
                    cycle,
                    &mut self.env.handler,
                ) {
                    Ok(e) => e,
                    Err(err) => {
                        return Err(err);
                    },
                };
                let PendingECall {
                    ram_writes,
                    reg_writes,
                    page_loads,
                    syscall,
                    exit_code,
                    cycles,
                    journal,
                } = ecall;
                let mut jb = journal;
                self.journal.append(&mut jb);
                self.pending_op = Some(
                    PendingOp::PendingECall(
                        PendingECall {
                            ram_writes,
                            reg_writes,
                            page_loads,
                            syscall,
                            exit_code,
                            cycles,
                            journal: jb,
                        },
                    ),
                );
                return Ok(None);
            },
            other => other,
        };
        // estimate against a scratch copy of the paging state
        let pcp: usize = (self.pc / PAGE_SIZE as u32) as usize;
        proof {
            assert(pcp < NUM_DATA_PAGES && pcp == page_of_addr(self.pc)) by (nonlinear_arith)
                requires
                    pcp == self.pc as int / PAGE_SIZE as int,
                    self.pc + 4 <= MEM_SIZE,
                    PAGE_SIZE == 1024,
                    MEM_SIZE == 0x0040_0000,
                    NUM_DATA_PAGES == 4096,
                    pcp == page_of_addr(self.pc);
        }
        let mut tmp = self.page_table.snapshot();
        let c0 = tmp.mark_page(pcp, Dir::Load);
        let ghost s1 = tmp@;
        let mut read_add: u64 = c0 as u64;
        let mut write_add: u64 = 0;
        let mut dec_extra: u64 = 0;
        let work: u64 = match &op {
            PendingOp::PendingInst(PendingInst::MemoryLoad { addr, .. }) => {
                let ap: usize = (*addr / PAGE_SIZE as u32) as usize;
                proof {
                    assert(ap < NUM_DATA_PAGES && ap == page_of_addr(*addr)) by (nonlinear_arith)
                        requires
                            ap == *addr as int / PAGE_SIZE as int,
                            *addr + 4 <= MEM_SIZE,
                            PAGE_SIZE == 1024,
                            MEM_SIZE == 0x0040_0000,
                            NUM_DATA_PAGES == 4096,
                            ap == page_of_addr(*addr);
                }
                let pre_load = self.page_table.cycles_needed(ap, Dir::Load);
                dec_extra = pre_load as u64;
                let rc = tmp.mark_page(ap, Dir::Load);
                proof {
                    lemma_needed_monotone(s0, s1, ap as int, Dir::Load);
                }
                read_add = read_add + rc as u64;
                proof {
                    assert(read_add <= 0x2_0000_0000 && write_add <= 0x2_0000_0000);
                    assert(read_add + write_add <= c0 as u64 + dec_extra);
                }
                1
            },
            PendingOp::PendingInst(PendingInst::MemoryStore { addr, .. }) => {
                let ap: usize = (*addr / PAGE_SIZE as u32) as usize;
                proof {
                    assert(ap < NUM_DATA_PAGES && ap == page_of_addr(*addr)) by (nonlinear_arith)
                        requires
                            ap == *addr as int / PAGE_SIZE as int,
                            *addr + 4 <= MEM_SIZE,
                            PAGE_SIZE == 1024,
                            MEM_SIZE == 0x0040_0000,
                            NUM_DATA_PAGES == 4096,
                            ap == page_of_addr(*addr);
                }
                let pre_load = self.page_table.cycles_needed(ap, Dir::Load);
                let pre_store = self.page_table.cycles_needed(ap, Dir::Store);
                dec_extra = pre_load as u64 + pre_store as u64;
                let wc = tmp.mark_page(ap, Dir::Store);
                proof {
                    lemma_needed_monotone(s0, s1, ap as int, Dir::Store);
                }
                write_add = wc as u64;
                if wc > 0 {
                    let ghost s2 = tmp@;
                    let rc = tmp.mark_page(ap, Dir::Load);
                    proof {
                        lemma_needed_monotone(s0, s2, ap as int, Dir::Load);
                    }
                    read_add = read_add + rc as u64;
                }
                proof {
                    assert(read_add <= 0x2_0000_0000 && write_add <= 0x2_0000_0000);
                    assert(read_add + write_add <= c0 as u64 + dec_extra);
                }
                1
            },
            PendingOp::PendingInst(PendingInst::RegisterStore { cycles, .. }) => {
                proof {
                    assert(read_add <= 0x2_0000_0000 && write_add <= 0x2_0000_0000);
                    assert(read_add + write_add <= c0 as u64 + dec_extra);
                }
                *cycles as u64
            },
            PendingOp::PendingInst(PendingInst::ECall) => {
                proof {
                    assert(false);
                }
                1u64
            },
            PendingOp::PendingECall(e) => {
                let loads = collect_load_pages(e);
                let stores = collect_store_pages(e);
                let mut li: usize = 0;
                while li < loads.len()
                    invariant
                        e.wf(),
                        tmp.wf(),
                        tmp@.len() == NUM_PAGES,
                        li <= loads@.len(),
                        loads@ == load_pages(*e),
                        forall|j: int| 0 <= j < loads@.len() ==> #[trigger] loads@[j]
                            < NUM_DATA_PAGES,
                        tmp@ == fold_mark(s1, loads@.take(li as int), Dir::Load),
                        read_add == c0 + fold_cost(s1, loads@.take(li as int), Dir::Load),
                        read_add <= c0 + li * 4 * CYCLES_PER_FULL_PAGE,
                        c0 <= 4 * CYCLES_PER_FULL_PAGE,
                        loads@.len() <= NUM_DATA_PAGES + MEM_SIZE / WORD_SIZE,
                        forall|q: int|
                            0 <= q < NUM_PAGES && #[trigger] dirty(s0, q) ==> dirty(tmp@, q),
                    decreases loads@.len() - li,
                {
                    let c = tmp.mark_page(loads[li] as usize, Dir::Load);
                    proof {
                        assert(read_add + c <= 0x2_0000_0000) by (nonlinear_arith)
                            requires
                                read_add <= c0 + li * 4 * CYCLES_PER_FULL_PAGE,
                                c <= 4 * CYCLES_PER_FULL_PAGE,
                                c0 <= 4 * CYCLES_PER_FULL_PAGE,
                                li < NUM_DATA_PAGES + MEM_SIZE / WORD_SIZE,
                                CYCLES_PER_FULL_PAGE == 1152,
                                NUM_DATA_PAGES == 4096,
                                MEM_SIZE == 0x0040_0000,
                                WORD_SIZE == 4;
                        lemma_fold_mark_push(s1, loads@.take(li as int), loads@[li as int], Dir::Load);
                        assert(loads@.take(li as int).push(loads@[li as int]) =~= loads@.take(
                            li as int + 1,
                        ));
                    }
                    read_add = read_add + c as u64;
                    li = li + 1;
                }
                proof {
                    assert(loads@.take(loads@.len() as int) =~= loads@);
                }
                let ghost s2 = tmp@;
                let mut si: usize = 0;
                while si < stores.len()
                    invariant
                        e.wf(),
                        tmp.wf(),
                        tmp@.len() == NUM_PAGES,
                        si <= stores@.len(),
                        stores@ == store_pages(*e),
                        forall|j: int| 0 <= j < stores@.len() ==> #[trigger] stores@[j]
                            < NUM_DATA_PAGES,
                        tmp@ == fold_mark(s2, stores@.take(si as int), Dir::Store),
                        write_add == fold_cost(s2, stores@.take(si as int), Dir::Store),
                        write_add <= si * 4 * CYCLES_PER_FULL_PAGE,
                        stores@.len() <= MEM_SIZE / WORD_SIZE,
                        forall|q: int|
                            0 <= q < NUM_PAGES && #[trigger] dirty(s0, q) ==> dirty(tmp@, q),
                        forall|j: int|
                            0 <= j < si ==> charged(tmp@, #[trigger] stores@[j] as int, Dir::Store),
                    decreases stores@.len() - si,
                {
                    let c = tmp.mark_page(stores[si] as usize, Dir::Store);
                    proof {
                        assert(write_add + c <= 0x2_0000_0000) by (nonlinear_arith)
                            requires
                                write_add <= si * 4 * CYCLES_PER_FULL_PAGE,
                                c <= 4 * CYCLES_PER_FULL_PAGE,
                                si < MEM_SIZE / WORD_SIZE,
                                CYCLES_PER_FULL_PAGE == 1152,
                                MEM_SIZE == 0x0040_0000,
                                WORD_SIZE == 4;
                        lemma_fold_mark_push(
                            s2,
                            stores@.take(si as int),
                            stores@[si as int],
                            Dir::Store,
                        );
                        assert(stores@.take(si as int).push(stores@[si as int]) =~= stores@.take(
                            si as int + 1,
                        ));
                    }
                    write_add = write_add + c as u64;
                    si = si + 1;
                }
                proof {
                    assert(stores@.take(stores@.len() as int) =~= stores@);
                    assert(read_add <= 0x2_0000_0000 && write_add <= 0x2_0000_0000)
                        by (nonlinear_arith)
                        requires
                            read_add <= 4 * CYCLES_PER_FULL_PAGE + (NUM_DATA_PAGES + MEM_SIZE
                                / WORD_SIZE) * 4 * CYCLES_PER_FULL_PAGE,
                            write_add <= (MEM_SIZE / WORD_SIZE) * 4 * CYCLES_PER_FULL_PAGE,
                            CYCLES_PER_FULL_PAGE == 1152,
                            NUM_DATA_PAGES == 4096,
                            MEM_SIZE == 0x0040_0000,
                            WORD_SIZE == 4;
                    assert(read_add >= c0 as u64);
                }
                dec_extra = read_add - c0 as u64 + write_add;
                e.cycles as u64
            },
        };
        proof {
            assert(read_add <= 0x2_0000_0000 && write_add <= 0x2_0000_0000);
            assert(dec_extra <= 0x4_0000_0000);
        }
        let dec = c0 as u64 + dec_extra + work;
        let total = read_add + write_add + work;
        proof {
            assert(read_add == commit_read_cycles(s0, self.pc, op) + 0);
            assert(write_add == commit_write_cycles(s0, self.pc, op));
            assert(dec == op_cost(s0, self.pc, op));
            assert(total <= dec);
            assert(tmp@ == commit_table(s0, self.pc, op));
        }
        let remaining = self.segment_cycles_remaining();
        if dec >= remaining as u64 {
            self.pending_op = Some(op);
            return self.handle_out_of_cycles();
        }
        // commit
        proof {
            lemma_pow2_le(self.cur_segment.po2 as nat);
        }
        let ghost ev0 = self.trace_events@;
        let ghost is_ev = TraceEvent::InstructionStart {
            cycle: self.segment_cycle as u32,
            pc: self.pc,
        };
        if self.env.trace_enabled {
            self.trace_events.push(
                TraceEvent::InstructionStart { cycle: self.segment_cycle as u32, pc: self.pc },
            );
        }
        self.page_table = tmp;
        self.read_cycles = self.read_cycles + read_add as usize;
        self.write_cycles = self.write_cycles + write_add as usize;
        self.segment_cycle = self.segment_cycle + work as usize;
        self.cur_segment.insn_cycles = self.cur_segment.insn_cycles + 1;
        match op {
            PendingOp::PendingInst(PendingInst::MemoryLoad { addr, val, reg }) => {
                if reg != 0 {
                    self.regs.set(reg, val);
                }
                self.pc = self.pc + 4;
                if self.env.trace_enabled {
                    self.trace_events.push(TraceEvent::RegisterSet { reg, value: val });
                }
                proof {
                    if old(self).env.trace_enabled {
                        assert(self.trace_events@ =~= ev0 + seq![
                            is_ev,
                            TraceEvent::RegisterSet { reg, value: val },
                        ]);
                    }
                }
                Ok(None)
            },
            PendingOp::PendingInst(PendingInst::MemoryStore { addr, val }) => {
                let ghost ram0 = self.ram@;
                store_word(&mut self.ram, addr, val);
                self.pc = self.pc + 4;
                if self.env.trace_enabled {
                    self.trace_events.push(TraceEvent::MemorySet { addr, value: val });
                }
                proof {
                    if old(self).env.trace_enabled {
                        assert(self.trace_events@ =~= ev0 + seq![
                            is_ev,
                            TraceEvent::MemorySet { addr, value: val },
                        ]);
                    }
                    assert(dirty(self.page_table@, page_of_addr(addr)));
                    assert forall|a: int|
                        0 <= a < MEM_SIZE && !(SYSTEM_START <= a < SYSTEM_START + REG_BYTES)
                            && !dirty(self.page_table@, a / PAGE_SIZE as int)
                            implies #[trigger] self.ram@[a]
                            == self.cur_segment.pre_image.buf@[a] by {
                        if addr <= a < addr + 4 {
                            assert(a / PAGE_SIZE as int == page_of_addr(addr)) by (nonlinear_arith)
                                requires
                                    addr as int <= a < addr + 4,
                                    addr % 4 == 0,
                                    PAGE_SIZE == 1024,
                                    page_of_addr(addr) == addr as int / PAGE_SIZE as int;
                        } else {
                            assert(self.ram@[a] == ram0[a]);
                        }
                    }
                }
                Ok(None)
            },
            PendingOp::PendingInst(PendingInst::RegisterStore { reg, val, new_pc, cycles }) => {
                if reg != 0 {
                    self.regs.set(reg, val);
                }
                self.pc = new_pc;
                if self.env.trace_enabled {
                    self.trace_events.push(TraceEvent::RegisterSet { reg, value: val });
                }
                proof {
                    if old(self).env.trace_enabled {
                        assert(self.trace_events@ =~= ev0 + seq![
                            is_ev,
                            TraceEvent::RegisterSet { reg, value: val },
                        ]);
                    }
                }
                Ok(None)
            },
            PendingOp::PendingInst(PendingInst::ECall) => {
                proof {
                    assert(false);
                }
                Ok(None)
            },
            PendingOp::PendingECall(e) => {
                let exit = self.commit_ecall(e);
                proof {
                    if old(self).env.trace_enabled {
                        assert(self.trace_events@ =~= ev0 + seq![is_ev] + ecall_events(e));
                    }
                }
                Ok(exit)
            },
        }
    }
}


/// The register file as the 128 bytes of its little-endian image.
pub open spec fn regs_bytes(regs: Seq<u32>) -> Seq<u8> {
    Seq::new(REG_BYTES as nat, |k: int| le_bytes(regs[k / 4])[k % 4])
}

/// A deep copy of a memory image.
pub fn clone_image(img: &MemoryImage) -> (r: MemoryImage)
    ensures
        r.buf@ == img.buf@,
        r.digests@.len() == img.digests@.len(),
        forall|i: int|
            0 <= i < img.digests@.len() ==> (#[trigger] r.digests@[i])@ == (img.digests@[i])@,
        r.dirty@ == img.dirty@,
        r.pc == img.pc,
        r.root@ == img.root@,
        img.wf() ==> r.wf(),
        img.clean() ==> r.clean(),
{
    let buf = copy_bytes(&img.buf);
    let root = copy_bytes(&img.root);
    let mut digests: Vec<Vec<u8>> = Vec::new();
    let mut i: usize = 0;
    while i < img.digests.len()
        invariant
            i <= img.digests@.len(),
            digests@.len() == i,
            forall|j: int|
                0 <= j < i ==> (#[trigger] digests@[j])@ == (img.digests@[j])@,
        decreases img.digests@.len() - i,
    {
        digests.push(copy_bytes(&img.digests[i]));
        i = i + 1;
    }
    let mut dirty: Vec<bool> = Vec::new();
    let mut k: usize = 0;
    while k < img.dirty.len()
        invariant
            k <= img.dirty@.len(),
            dirty@.len() == k,
            forall|j: int| 0 <= j < k ==> #[trigger] dirty@[j] == img.dirty@[j],
        decreases img.dirty@.len() - k,
    {
        dirty.push(img.dirty[k]);
        k = k + 1;
    }
    proof {
        assert(dirty@ =~= img.dirty@);
    }
    let r = MemoryImage { buf, digests, dirty, pc: img.pc, root };
    proof {
        if img.wf() {
            assert forall|p: int|
                0 <= p < NUM_DATA_PAGES && !r.dirty@[p] implies (#[trigger] r.digests@[p])@
                == sha256_of(crate::image::page_of(r.buf@, p)) by {
                assert((img.digests@[p])@ == sha256_of(crate::image::page_of(img.buf@, p)));
            }
        }
    }
    r
}

/// The little-endian bytes of the register file.
pub fn regs_to_bytes(regs: &Vec<u32>) -> (r: Vec<u8>)
    requires
        regs@.len() == 32,
    ensures
        r@ == regs_bytes(regs@),
{
    let mut r: Vec<u8> = Vec::new();
    let mut i: usize = 0;
    while i < 32
        invariant
            i <= 32,
            regs@.len() == 32,
            r@.len() == 4 * i,
            forall|j: int, b: int|
                0 <= j < i && 0 <= b < 4 ==> #[trigger] r@[4 * j + b] == le_bytes(regs@[j])[b],
        decreases 32 - i,
    {
        let w = regs[i];
        r.push((w % 0x100) as u8);
        r.push(((w / 0x100) % 0x100) as u8);
        r.push(((w / 0x10000) % 0x100) as u8);
        r.push(((w / 0x1000000) % 0x100) as u8);
        i = i + 1;
        proof {
            assert forall|j: int, b: int|
                0 <= j < i && 0 <= b < 4 implies #[trigger] r@[4 * j + b] == le_bytes(regs@[j])[b] by {
                if j < i - 1 {
                } else {
                    assert(r@[4 * j + b] == le_bytes(w)[b]);
                }
            }
        }
    }
    proof {
        assert forall|k: int| 0 <= k < REG_BYTES implies r@[k] == regs_bytes(regs@)[k] by {
            let j = k / 4;
            let b = k % 4;
            assert(0 <= j < 32 && 0 <= b < 4 && k == 4 * j + b) by (nonlinear_arith)
                requires
                    0 <= k < 128,
                    j == k / 4,
                    b == k % 4;
            assert(r@[4 * j + b] == le_bytes(regs@[j])[b]);
        }
        assert(r@ =~= regs_bytes(regs@));
    }
    r
}


/// Copy every dirty data page from RAM into the image.
fn fold_dirty_pages(img: &mut MemoryImage, ram: &Vec<u8>, table: &PageTable)
    requires
        old(img).wf(),
        ram@.len() == MEM_SIZE,
        table@.len() == NUM_PAGES,
    ensures
        final(img).wf(),
        final(img).pc == old(img).pc,
        forall|a: int|
            0 <= a < MEM_SIZE ==> #[trigger] final(img).buf@[a] == (if dirty(
                table@,
                a / PAGE_SIZE as int,
            ) {
                ram@[a]
            } else {
                old(img).buf@[a]
            }),
{
    let ghost ram0 = ram@;
    let ghost buf0 = old(img).buf@;
    let ghost table0 = table@;
    let mut p: usize = 0;
    while p < NUM_DATA_PAGES
        invariant
            p <= NUM_DATA_PAGES,
            ram@.len() == MEM_SIZE,
            table@.len() == NUM_PAGES,
            table@ == table0,
            ram@ == ram0,
            buf0 == old(img).buf@,
            img.wf(),
            img.pc == old(img).pc,
            forall|a: int|
                0 <= a < MEM_SIZE ==> #[trigger] img.buf@[a] == (if ((a / (PAGE_SIZE as int)) < p)
                    && dirty(table0, a / PAGE_SIZE as int) {
                    ram0[a]
                } else {
                    buf0[a]
                }),
        decreases NUM_DATA_PAGES - p,
    {
        if table.is_dirty_page(p) {
            let bytes = copy_page(ram, p);
            proof {
                assert(p * PAGE_SIZE + PAGE_SIZE <= MEM_SIZE && (p * PAGE_SIZE) % 4 == 0 && ((p
                    * PAGE_SIZE) as int) / (PAGE_SIZE as int) == ((p * PAGE_SIZE) as int
                    + PAGE_SIZE - 1) / (PAGE_SIZE as int) && ((p * PAGE_SIZE) as int)
                    / (PAGE_SIZE as int) == p) by (nonlinear_arith)
                    requires
                        p < NUM_DATA_PAGES,
                        PAGE_SIZE == 1024,
                        MEM_SIZE == 0x0040_0000,
                        NUM_DATA_PAGES == 4096;
            }
            img.store_region_in_page((p * PAGE_SIZE) as u32, &bytes);
        }
        proof {
            assert forall|a: int|
                0 <= a < MEM_SIZE implies #[trigger] img.buf@[a] == (if ((a / (PAGE_SIZE as int))
                    < p + 1) && dirty(table0, a / PAGE_SIZE as int) {
                    ram0[a]
                } else {
                    buf0[a]
                }) by {
                assert(0 <= a / (PAGE_SIZE as int) && a / (PAGE_SIZE as int) < NUM_DATA_PAGES)
                    by (nonlinear_arith)
                    requires
                        0 <= a < MEM_SIZE,
                        PAGE_SIZE == 1024,
                        MEM_SIZE == 0x0040_0000,
                        NUM_DATA_PAGES == 4096;
                if dirty(table0, p as int) {
                    assert(a / (PAGE_SIZE as int) == p <==> p * PAGE_SIZE <= a < p * PAGE_SIZE
                        + PAGE_SIZE) by (nonlinear_arith)
                        requires
                            0 <= a < MEM_SIZE,
                            p < NUM_DATA_PAGES,
                            PAGE_SIZE == 1024,
                            MEM_SIZE == 0x0040_0000;
                }
            }
        }
        p = p + 1;
    }
}

impl<S: SyscallHandler> Executor<S> {
    /// Finish the current segment: take the cycle counters (a halted
    /// segment flushes nothing), fold the dirty pages and the register
    /// file back into the next segment's pre image, record the chaining
    /// digest on the finished segment, and start the next one.
    #[verifier::rlimit(100)]
    #[verifier::spinoff_prover]
    pub fn split(&mut self, exit_code: ExitCode) -> (r: Result<(), ExecError>)
        requires
            old(self).wf(),
            old(self).prev_segment_cycles <= old(self).env.session_limit,
        ensures
            final(self).wf(),
            r is Err <==> exit_code == ExitCode::SessionLimit,
            r is Err ==> r->Err_0 is SessionLimitExceeded && *final(self) == *old(self),
            r is Ok ==> ({
                let s = final(self).segments@.last();
                &&& final(self).segments@.len() == old(self).segments@.len() + 1
                &&& final(self).segments@ =~= old(self).segments@.push(s)
                &&& s.exit_code == exit_code
                &&& s.index == old(self).cur_segment.index
                &&& s.po2 == old(self).cur_segment.po2
                &&& s.insn_cycles == old(self).cur_segment.insn_cycles
                &&& s.split_insn == Some(old(self).cur_segment.insn_cycles as u32)
                &&& s.syscalls@ == old(self).cur_segment.syscalls@
                &&& s.pre_image.buf@ == old(self).cur_segment.pre_image.buf@
                &&& s.pre_image.pc == old(self).cur_segment.pre_image.pc
                &&& (forall|p: int|
                    0 <= p < NUM_DATA_PAGES ==> (s.faults.reads@.contains(p as u32) <==> loaded(
                        old(self).page_table@,
                        p,
                    )))
                &&& (forall|p: int|
                    0 <= p < NUM_DATA_PAGES ==> (s.faults.writes@.contains(p as u32) <==> dirty(
                        old(self).page_table@,
                        p,
                    )))
                &&& final(self).cur_segment.pre_image.buf@ == overwrite(
                    old(self).ram@,
                    SYSTEM_START as int,
                    regs_bytes(old(self).regs@),
                )
                &&& final(self).cur_segment.pre_image.pc == old(self).pc
                &&& s.post_image_id@ == image_id_of(
                    final(self).cur_segment.pre_image.buf@,
                    old(self).pc,
                )
                &&& final(self).prev_segment_cycles == old(self).prev_segment_cycles + old(self).segment_cycle + old(self).read_cycles + (if exit_code is Halted {
                    0
                } else {
                    old(self).write_cycles as int
                }) + FINI_CYCLES
                &&& final(self).seg_totals@ == old(self).seg_totals@.push(
                    old(self).segment_cycle + old(self).read_cycles + (if exit_code is Halted {
                        0int
                    } else {
                        old(self).write_cycles as int
                    }) + FINI_CYCLES,
                )
                &&& final(self).segment_cycle == INIT_CYCLES
                &&& final(self).cur_segment.po2 == MIN_CYCLES_PO2
                &&& final(self).cur_segment.insn_cycles == 0
                &&& final(self).cur_segment.index == old(self).cur_segment.index + 1
                &&& final(self).cur_segment.syscalls@.len() == 0
                &&& (forall|p: int|
                    0 <= p < NUM_DATA_PAGES ==> !loaded(final(self).page_table@, p))
                &&& (forall|p: int|
                    0 <= p < NUM_DATA_PAGES ==> !dirty(final(self).page_table@, p))
                &&& final(self).ram == old(self).ram
                &&& final(self).regs == old(self).regs
                &&& final(self).pc == old(self).pc
                &&& final(self).journal == old(self).journal
                &&& final(self).trace_events == old(self).trace_events
                &&& final(self).pending_op == old(self).pending_op
                &&& final(self).env == old(self).env
            }),
    {
        if exit_code == ExitCode::SessionLimit {
            return Err(ExecError::SessionLimitExceeded);
        }
        proof {
            lemma_pow2_le(self.cur_segment.po2 as nat);
        }
        let read_cycles = self.read_cycles;
        self.read_cycles = 0;
        let write_cycles: usize = if let ExitCode::Halted(_) = exit_code {
            self.write_cycles = 0;
            0
        } else {
            let w = self.write_cycles;
            self.write_cycles = 0;
            w
        };
        let old_segment_cycle = self.segment_cycle;
        self.segment_cycle = 0;
        let seg_total: u64 = old_segment_cycle as u64 + read_cycles as u64 + write_cycles as u64
            + FINI_CYCLES as u64;
        self.prev_segment_cycles = self.prev_segment_cycles + seg_total;
        proof {
            lemma_seq_sum_push(self.seg_totals@, seg_total as int);
        }
        self.seg_totals = Ghost(self.seg_totals@.push(seg_total as int));
        let faults = self.page_table.calc_page_faults();
        let old_pre = clone_image(&self.cur_segment.pre_image);
        let ghost ram0 = self.ram@;
        let ghost buf0 = self.cur_segment.pre_image.buf@;
        let ghost table0 = self.page_table@;
        fold_dirty_pages(&mut self.cur_segment.pre_image, &self.ram, &self.page_table);
        // persist the register file and the program counter
        let rb = regs_to_bytes(&self.regs);
        proof {
            assert(SYSTEM_START % 4 == 0 && (SYSTEM_START as int) / (PAGE_SIZE as int) == (
            SYSTEM_START as int + REG_BYTES - 1) / (PAGE_SIZE as int)) by (nonlinear_arith)
                requires
                    SYSTEM_START == 0x003F_FC00,
                    REG_BYTES == 128,
                    PAGE_SIZE == 1024;
        }
        self.cur_segment.pre_image.store_region_in_page(SYSTEM_START as u32, &rb);
        self.cur_segment.pre_image.pc = self.pc;
        proof {
            assert(self.cur_segment.pre_image.wf());
        }
        self.cur_segment.pre_image.hash_pages();
        let post_image_id = self.cur_segment.pre_image.compute_id();
        proof {
            assert forall|a: int|
                0 <= a < MEM_SIZE implies #[trigger] self.cur_segment.pre_image.buf@[a]
                == overwrite(ram0, SYSTEM_START as int, regs_bytes(old(self).regs@))[a] by {
                assert(0 <= a / (PAGE_SIZE as int) && a / (PAGE_SIZE as int) < NUM_DATA_PAGES) by (nonlinear_arith)
                    requires
                        0 <= a < MEM_SIZE,
                        PAGE_SIZE == 1024,
                        MEM_SIZE == 0x0040_0000,
                        NUM_DATA_PAGES == 4096;
                if !(SYSTEM_START <= a < SYSTEM_START + REG_BYTES) {
                    if !dirty(table0, a / (PAGE_SIZE as int)) {
                        assert(old(self).ram@[a] == old(self).cur_segment.pre_image.buf@[a]);
                    }
                }
            }
            assert(self.cur_segment.pre_image.buf@ =~= overwrite(
                ram0,
                SYSTEM_START as int,
                regs_bytes(old(self).regs@),
            ));
        }
        // assemble the finished segment
        let mut syscalls: Vec<SyscallRecord> = Vec::new();
        core::mem::swap(&mut self.cur_segment.syscalls, &mut syscalls);
        let insn = self.cur_segment.insn_cycles;
        let old_segment = Segment {
            index: self.cur_segment.index,
            pre_image: old_pre,
            post_image_id,
            exit_code,
            syscalls,
            faults,
            po2: self.cur_segment.po2,
            split_insn: Some(insn as u32),
            insn_cycles: insn,
        };
        self.cur_segment.index = self.cur_segment.index + 1;
        self.cur_segment.split_insn = None;
        self.page_table.clear();
        self.segments.push(old_segment);
        self.start_segment();
        Ok(())
    }
}


/// A deep copy of a list of byte strings.
pub fn copy_byte_vecs(src: &Vec<Vec<u8>>) -> (r: Vec<Vec<u8>>)
    ensures
        r@.len() == src@.len(),
        forall|i: int| 0 <= i < src@.len() ==> (#[trigger] r@[i])@ == (src@[i])@,
{
    let mut r: Vec<Vec<u8>> = Vec::new();
    let mut i: usize = 0;
    while i < src.len()
        invariant
            i <= src@.len(),
            r@.len() == i,
            forall|j: int| 0 <= j < i ==> (#[trigger] r@[j])@ == (src@[j])@,
        decreases src@.len() - i,
    {
        r.push(copy_bytes(&src[i]));
        i = i + 1;
    }
    r
}

impl<S: SyscallHandler> Executor<S> {
    /// Move the emitted segments out of the executor.
    fn take_segments(&mut self) -> (r: Vec<Segment>)
        ensures
            r@ == old(self).segments@,
            final(self).segments@.len() == 0,
            final(self).env == old(self).env,
            final(self).journal == old(self).journal,
            final(self).prev_segment_cycles == old(self).prev_segment_cycles,
            final(self).seg_totals == old(self).seg_totals,
            final(self).ram == old(self).ram,
            final(self).regs == old(self).regs,
            final(self).pc == old(self).pc,
    {
        let mut out: Vec<Segment> = Vec::new();
        core::mem::swap(&mut self.segments, &mut out);
        out
    }

    /// One step of the driver: retry the held pending operation, or ask
    /// the stepper for the next one, and apply it.
    pub fn step(&mut self) -> (r: Result<Option<ExitCode>, ExecError>)
        requires
            old(self).wf(),
        ensures
            final(self).wf(),
            final(self).prev_segment_cycles == old(self).prev_segment_cycles,
            final(self).segments == old(self).segments,
            final(self).seg_totals == old(self).seg_totals,
            final(self).segment_cycle >= old(self).segment_cycle,
            final(self).env.segment_limit_po2 == old(self).env.segment_limit_po2,
            final(self).env.session_limit == old(self).env.session_limit,
            final(self).env.trace_enabled == old(self).env.trace_enabled,
            final(self).env.input_digest == old(self).env.input_digest,
            final(self).env.assumptions == old(self).env.assumptions,
            r is Ok && r->Ok_0 is None ==> (final(self).segment_cycle > old(self).segment_cycle || (
            final(self).cur_segment.po2 > old(self).cur_segment.po2 && final(self).segment_cycle
                == old(self).segment_cycle) || (old(self).pending_op is None && final(self).pending_op is Some && final(self).segment_cycle == old(self).segment_cycle && final(self).cur_segment.po2 == old(self).cur_segment.po2)),
            old(self).pending_op is None && decode_spec(old(self).pc, old(self).ram@, old(self).regs@) is None
                ==> (r is Err && r->Err_0 is IllegalInstruction && *final(self) == *old(self)),
            r is Err ==> (r->Err_0 is IllegalInstruction || r->Err_0 is UnknownSyscall),
            old(self).pending_op matches Some(op2) ==> apply_result(
                *old(self),
                *final(self),
                op2,
                r,
            ),
            old(self).pending_op is None ==> (decode_spec(
                old(self).pc,
                old(self).ram@,
                old(self).regs@,
            ) matches Some(i) ==> (!(i is ECall) ==> apply_result(
                *old(self),
                *final(self),
                PendingOp::PendingInst(i),
                r,
            ))),
            r is Err ==> old(self).pending_op is None && ((decode_spec(old(self).pc, old(self).ram@, old(self).regs@) is None
                && r->Err_0 is IllegalInstruction && *final(self) == *old(self))
                || (decode_spec(old(self).pc, old(self).ram@, old(self).regs@) == Some(PendingInst::ECall)
                && final(self).pending_op is None && final(self).pc == old(self).pc
                && final(self).ram == old(self).ram && final(self).regs == old(self).regs
                && final(self).page_table == old(self).page_table
                && final(self).cur_segment == old(self).cur_segment
                && final(self).journal == old(self).journal)),
            r is Ok && r->Ok_0 is Some ==> ((r->Ok_0->Some_0 is SystemSplit
                && final(self).pending_op is Some && final(self).pc == old(self).pc
                && final(self).ram == old(self).ram && final(self).regs == old(self).regs
                && final(self).segment_cycle == old(self).segment_cycle
                && final(self).read_cycles == old(self).read_cycles
                && final(self).write_cycles == old(self).write_cycles
                && final(self).cur_segment == old(self).cur_segment
                && final(self).page_table == old(self).page_table
                && final(self).journal == old(self).journal
                && final(self).trace_events == old(self).trace_events)
                || ((r->Ok_0->Some_0 is Halted || r->Ok_0->Some_0 is Paused)
                && final(self).pending_op is None && final(self).pc == old(self).pc + 4
                && final(self).segment_cycle > old(self).segment_cycle)),
    {
        proof {
            reveal(apply_result);
        }
        let held = self.pending_op.take();
        match held {
            Some(op) => self.apply(op),
            None => {
                let inst = match exec_rv32im(self.pc, &self.ram, &self.regs) {
                    Ok(i) => i,
                    Err(e) => {
                        return Err(e);
                    },
                };
                self.apply(PendingOp::PendingInst(inst))
            },
        }
    }

    /// One iteration of the session driver: step, split when asked, and
    /// enforce the session cycle limit.  `Ok(Some(_))` reports a terminal
    /// (halt or pause) exit whose segment has been emitted.
    #[verifier::rlimit(100)]
    #[verifier::spinoff_prover]
    fn run_iteration(&mut self) -> (r: Result<Option<ExitCode>, ExecError>)
        requires
            old(self).wf(),
        ensures
            final(self).wf(),
            old(self).pending_op is None && decode_spec(old(self).pc, old(self).ram@, old(self).regs@) is None
                ==> (r is Err && r->Err_0 is IllegalInstruction && *final(self) == *old(self)),
            r is Err ==> (r->Err_0 is IllegalInstruction || r->Err_0 is UnknownSyscall || r->Err_0
                is SessionLimitExceeded),
            r is Err && r->Err_0 is SessionLimitExceeded ==> final(self).prev_segment_cycles
                + final(self).segment_cycle > final(self).env.session_limit,
            r is Err && r->Err_0 is IllegalInstruction ==> (decode_spec(
                final(self).pc,
                final(self).ram@,
                final(self).regs@,
            ) is None || decode_spec(final(self).pc, final(self).ram@, final(self).regs@) == Some(
                PendingInst::ECall,
            )),
            r is Err && r->Err_0 is UnknownSyscall ==> decode_spec(
                final(self).pc,
                final(self).ram@,
                final(self).regs@,
            ) == Some(PendingInst::ECall),
            final(self).env.segment_limit_po2 == old(self).env.segment_limit_po2,
            final(self).env.session_limit == old(self).env.session_limit,
            final(self).env.trace_enabled == old(self).env.trace_enabled,
            final(self).env.input_digest == old(self).env.input_digest,
            final(self).env.assumptions == old(self).env.assumptions,
            r is Ok && r->Ok_0 is None ==> (final(self).prev_segment_cycles + final(self).segment_cycle <= final(self).env.session_limit && (final(self).prev_segment_cycles
                + final(self).segment_cycle > old(self).prev_segment_cycles + old(self).segment_cycle || (final(self).prev_segment_cycles + final(self).segment_cycle == old(self).prev_segment_cycles + old(self).segment_cycle && final(self).cur_segment.po2 > old(self).cur_segment.po2) || (final(self).prev_segment_cycles + final(self).segment_cycle
                == old(self).prev_segment_cycles + old(self).segment_cycle && final(self).cur_segment.po2 == old(self).cur_segment.po2 && old(self).pending_op is None && final(self).pending_op is Some))),
            r is Ok && r->Ok_0 is Some ==> ((r->Ok_0->Some_0 is Halted || r->Ok_0->Some_0
                is Paused) && final(self).segments@.len() > 0 && final(self).segments@[final(self).segments@.len() - 1].exit_code == r->Ok_0->Some_0),
    {
        let step_res = self.step();
        let exit_opt = match step_res {
            Ok(x) => x,
            Err(e) => {
                return Err(e);
            },
        };
        match exit_opt {
            Some(exit_code) => {
                if self.prev_segment_cycles > self.env.session_limit {
                    return Err(ExecError::SessionLimitExceeded);
                }
                return self.handle_exit(exit_code);
            },
            None => {},
        }
        proof {
            lemma_pow2_le(self.cur_segment.po2 as nat);
        }
        if self.prev_segment_cycles + self.segment_cycle as u64 > self.env.session_limit {
            return Err(ExecError::SessionLimitExceeded);
        }
        Ok(None)
    }

    /// Emit the finished segment for a step that reported an exit, and
    /// classify the exit: a system split continues the session, a halt or
    /// pause ends it.
    #[verifier::rlimit(100)]
    #[verifier::spinoff_prover]
    fn handle_exit(&mut self, exit_code: ExitCode) -> (r: Result<Option<ExitCode>, ExecError>)
        requires
            old(self).wf(),
            old(self).prev_segment_cycles <= old(self).env.session_limit,
            !(exit_code is SessionLimit),
        ensures
            final(self).wf(),
            r is Err ==> r->Err_0 is SessionLimitExceeded && final(self).prev_segment_cycles
                + final(self).segment_cycle > final(self).env.session_limit,
            final(self).env.segment_limit_po2 == old(self).env.segment_limit_po2,
            final(self).env.session_limit == old(self).env.session_limit,
            final(self).env.trace_enabled == old(self).env.trace_enabled,
            final(self).env.input_digest == old(self).env.input_digest,
            final(self).env.assumptions == old(self).env.assumptions,
            r is Ok && r->Ok_0 is None ==> (final(self).prev_segment_cycles + final(self).segment_cycle
                <= final(self).env.session_limit && final(self).prev_segment_cycles + final(self).segment_cycle
                > old(self).prev_segment_cycles + old(self).segment_cycle),
            r is Ok && r->Ok_0 is Some ==> ((r->Ok_0->Some_0 is Halted || r->Ok_0->Some_0
                is Paused) && final(self).segments@.len() > 0 && final(self).segments@[final(self).segments@.len() - 1].exit_code == r->Ok_0->Some_0),
    {
        match self.split(exit_code) {
            Ok(()) => {},
            Err(e) => {
                return Err(e);
            },
        }
        match exit_code {
            ExitCode::SystemSplit => {},
            _ => {
                return Ok(Some(exit_code));
            },
        }
        proof {
            lemma_pow2_le(self.cur_segment.po2 as nat);
        }
        if self.prev_segment_cycles + self.segment_cycle as u64 > self.env.session_limit {
            return Err(ExecError::SessionLimitExceeded);
        }
        Ok(None)
    }

    /// Drive the session until a terminal (halt or pause) exit, whose
    /// segment has then been emitted; `last_exit` receives it.
    fn run_to_exit(&mut self, last_exit: &mut ExitCode) -> (r: Result<(), ExecError>)
        requires
            old(self).wf(),
            old(self).prev_segment_cycles + old(self).segment_cycle <= old(self).env.session_limit,
        ensures
            final(self).wf(),
            final(self).env.segment_limit_po2 == old(self).env.segment_limit_po2,
            final(self).env.session_limit == old(self).env.session_limit,
            final(self).env.trace_enabled == old(self).env.trace_enabled,
            final(self).env.input_digest == old(self).env.input_digest,
            final(self).env.assumptions == old(self).env.assumptions,
            r is Ok ==> ((*final(last_exit) is Halted || *final(last_exit) is Paused) && final(self).segments@.len() > 0 && final(self).segments@[final(self).segments@.len()
                - 1].exit_code == *final(last_exit)),
            r is Err ==> *final(last_exit) == *old(last_exit),
            r is Err ==> (r->Err_0 is IllegalInstruction || r->Err_0 is UnknownSyscall || r->Err_0
                is SessionLimitExceeded),
            r is Err && r->Err_0 is SessionLimitExceeded ==> final(self).prev_segment_cycles
                + final(self).segment_cycle > final(self).env.session_limit,
            r is Err && r->Err_0 is IllegalInstruction ==> (decode_spec(
                final(self).pc,
                final(self).ram@,
                final(self).regs@,
            ) is None || decode_spec(final(self).pc, final(self).ram@, final(self).regs@) == Some(
                PendingInst::ECall,
            )),
            r is Err && r->Err_0 is UnknownSyscall ==> decode_spec(
                final(self).pc,
                final(self).ram@,
                final(self).regs@,
            ) == Some(PendingInst::ECall),
    {
        let mut le: ExitCode = ExitCode::SystemSplit;
        loop
            invariant_except_break
                self.wf(),
                self.prev_segment_cycles + self.segment_cycle <= self.env.session_limit,
            invariant
                self.env.segment_limit_po2 == old(self).env.segment_limit_po2,
                self.env.session_limit == old(self).env.session_limit,
                self.env.trace_enabled == old(self).env.trace_enabled,
                self.env.input_digest == old(self).env.input_digest,
                self.env.assumptions == old(self).env.assumptions,
            ensures
                self.wf(),
                le is Halted || le is Paused,
                self.segments@.len() > 0,
                self.segments@[self.segments@.len() - 1].exit_code == le,
            decreases
                self.env.session_limit + 1 - (self.prev_segment_cycles + self.segment_cycle),
                self.env.segment_limit_po2 - self.cur_segment.po2,
                (if self.pending_op is None {
                    1int
                } else {
                    0int
                }),
        {
            match self.run_iteration() {
                Err(e) => {
                    return Err(e);
                },
                Ok(None) => {},
                Ok(Some(exit_code)) => {
                    le = exit_code;
                    break;
                },
            }
        }
        *last_exit = le;
        Ok(())
    }

    /// Run the driver until the guest halts or pauses, splitting segments
    /// as budgets run out, and return the session: the emitted segments,
    /// the captured journal, the terminal exit code, and the cycle total.
    #[verifier::rlimit(100)]
    #[verifier::spinoff_prover]
    pub fn run(&mut self) -> (r: Result<Session, ExecError>)
        requires
            old(self).wf(),
        ensures
            final(self).ram@.len() == MEM_SIZE,
            final(self).regs@.len() == 32,
            final(self).regs@[0] == 0,
            old(self).pending_op is None && decode_spec(old(self).pc, old(self).ram@, old(self).regs@) is None
                ==> r is Err && r->Err_0 is IllegalInstruction,
            r is Err ==> (r->Err_0 is IllegalInstruction || r->Err_0 is UnknownSyscall || r->Err_0
                is SessionLimitExceeded),
            r is Err && r->Err_0 is SessionLimitExceeded ==> final(self).prev_segment_cycles
                + final(self).segment_cycle > final(self).env.session_limit,
            r is Err && r->Err_0 is IllegalInstruction ==> (decode_spec(
                final(self).pc,
                final(self).ram@,
                final(self).regs@,
            ) is None || decode_spec(final(self).pc, final(self).ram@, final(self).regs@) == Some(
                PendingInst::ECall,
            )),
            r is Err && r->Err_0 is UnknownSyscall ==> decode_spec(
                final(self).pc,
                final(self).ram@,
                final(self).regs@,
            ) == Some(PendingInst::ECall),
            r is Ok ==> ({
                let sess = r->Ok_0;
                &&& (sess.exit_code is Halted || sess.exit_code is Paused)
                &&& sess.segments@.len() > 0
                &&& sess.segments@[sess.segments@.len() - 1].exit_code == sess.exit_code
                &&& (forall|i: int|
                    0 <= i < sess.segments@.len() ==> (#[trigger] sess.segments@[i]).index == i)
                &&& (forall|i: int|
                    0 <= i < sess.segments@.len() ==> seg_wf(
                        final(self).env.segment_limit_po2,
                        #[trigger] sess.segments@[i],
                    ))
                &&& (forall|i: int|
                    0 <= i < sess.segments@.len() - 1 ==> hands_over(
                        #[trigger] sess.segments@[i],
                        sess.segments@[i + 1].pre_image.buf@,
                        sess.segments@[i + 1].pre_image.pc,
                    ))
                &&& final(self).seg_totals@.len() == sess.segments@.len()
                &&& sess.total_cycles == seq_sum(final(self).seg_totals@)
                &&& sess.total_cycles <= final(self).env.session_limit
                &&& final(self).env.session_limit == old(self).env.session_limit
                &&& sess.journal@ == final(self).journal@
                &&& sess.input_digest@ == final(self).env.input_digest@
                &&& sess.assumptions@.len() == final(self).env.assumptions@.len()
            }),
    {
        let mut last_exit: ExitCode = ExitCode::SystemSplit;
        match self.run_iteration() {
            Err(e) => {
                return Err(e);
            },
            Ok(Some(exit_code)) => {
                last_exit = exit_code;
            },
            Ok(None) => {
                match self.run_to_exit(&mut last_exit) {
                    Ok(()) => {},
                    Err(e) => {
                        return Err(e);
                    },
                }
            },
        }
        if self.prev_segment_cycles > self.env.session_limit {
            return Err(ExecError::SessionLimitExceeded);
        }
        let segments = self.take_segments();
        let journal = copy_bytes(&self.journal);
        let input_digest = copy_bytes(&self.env.input_digest);
        let assumptions = copy_byte_vecs(&self.env.assumptions);
        Ok(
            Session {
                segments,
                journal,
                exit_code: last_exit,
                total_cycles: self.prev_segment_cycles,
                input_digest,
                assumptions,
            },
        )
    }
}

} // verus!
