//! The bridge between an `ecall` instruction and the pluggable syscall
//! layer.
//!
//! Executing an ecall never mutates guest state directly: the handler may
//! only peek at state through a read-only context and return its effects,
//! which are accumulated into a pending operation that the executor
//! estimates and then commits.

use vstd::prelude::*;
use crate::image::{page_of, word_at};
use crate::segment::{ExitCode, SyscallRecord};
use crate::{ExecError, MEM_SIZE, NUM_DATA_PAGES, PAGE_SIZE, WORD_SIZE};

verus! {

/// Ecall class selector held in register t0: terminate or pause the guest.
pub const ECALL_HALT: u32 = 0;

/// Ecall class selector held in register t0: invoke a named host syscall.
pub const ECALL_SOFTWARE: u32 = 2;

/// Halt mode in register a0: terminate the session.
pub const HALT_TERMINATE: u32 = 0;

/// Halt mode in register a0: pause the session.
pub const HALT_PAUSE: u32 = 1;

/// Longest accepted syscall name, in bytes.
pub const SYSCALL_NAME_MAX: usize = 256;

/// Read-only view of guest state presented to syscall handlers.  Every
/// peek records the data pages it touched, so that the committed ecall is
/// charged for paging them in.
pub struct SyscallCtx<'a> {
    ram: &'a Vec<u8>,
    regs: &'a Vec<u32>,
    pc: u32,
    cycle: u64,
    touched: Vec<u32>,
}

impl<'a> SyscallCtx<'a> {
    pub closed spec fn wf(self) -> bool {
        &&& self.ram@.len() == MEM_SIZE
        &&& self.regs@.len() == 32
    }

    pub closed spec fn ram_view(self) -> Seq<u8> {
        self.ram@
    }

    pub closed spec fn regs_view(self) -> Seq<u32> {
        self.regs@
    }

    pub closed spec fn touched_view(self) -> Seq<u32> {
        self.touched@
    }

    /// A fresh context over the given state.
    pub fn new(ram: &'a Vec<u8>, regs: &'a Vec<u32>, pc: u32, cycle: u64) -> (r: SyscallCtx<'a>)
        requires
            ram@.len() == MEM_SIZE,
            regs@.len() == 32,
        ensures
            r.wf(),
            r.ram_view() == ram@,
            r.regs_view() == regs@,
            r.touched_view() == Seq::<u32>::empty(),
            r.pc_view() == pc,
            r.cycle_view() == cycle,
    {
        SyscallCtx { ram, regs, pc, cycle, touched: Vec::new() }
    }

    pub closed spec fn pc_view(self) -> u32 {
        self.pc
    }

    pub closed spec fn cycle_view(self) -> u64 {
        self.cycle
    }

    /// The program counter of the ecall instruction.
    pub fn get_pc(&self) -> (r: u32)
        ensures
            r == self.pc_view(),
    {
        self.pc
    }

    /// The global cycle count at the ecall.
    pub fn get_cycle(&self) -> (r: u64)
        ensures
            r == self.cycle_view(),
    {
        self.cycle
    }

    /// A register value; never mutates state.
    pub fn peek_register(&self, idx: usize) -> (r: u32)
        requires
            self.wf(),
            idx < 32,
        ensures
            r == self.regs_view()[idx as int],
    {
        self.regs[idx]
    }

    /// One byte of guest RAM; records the page touched.
    pub fn peek_u8(&mut self, addr: u32) -> (r: u8)
        requires
            old(self).wf(),
            addr < MEM_SIZE,
        ensures
            final(self).wf(),
            r == old(self).ram_view()[addr as int],
            final(self).ram_view() == old(self).ram_view(),
            final(self).regs_view() == old(self).regs_view(),
            final(self).pc_view() == old(self).pc_view(),
            final(self).cycle_view() == old(self).cycle_view(),
            final(self).touched_view() == old(self).touched_view().push(addr / PAGE_SIZE as u32),
    {
        self.touched.push(addr / PAGE_SIZE as u32);
        self.ram[addr as usize]
    }

    /// One aligned word of guest RAM; records the page touched.
    pub fn peek_u32(&mut self, addr: u32) -> (r: u32)
        requires
            old(self).wf(),
            addr % 4 == 0,
            addr + 4 <= MEM_SIZE,
        ensures
            final(self).wf(),
            r == word_at(old(self).ram_view(), addr as int),
            final(self).ram_view() == old(self).ram_view(),
            final(self).regs_view() == old(self).regs_view(),
            final(self).pc_view() == old(self).pc_view(),
            final(self).cycle_view() == old(self).cycle_view(),
            final(self).touched_view() == old(self).touched_view().push(addr / PAGE_SIZE as u32),
    {
        self.touched.push(addr / PAGE_SIZE as u32);
        let b0 = self.ram[addr as usize] as u32;
        let b1 = self.ram[addr as usize + 1] as u32;
        let b2 = self.ram[addr as usize + 2] as u32;
        let b3 = self.ram[addr as usize + 3] as u32;
        b0 + b1 * 0x100 + b2 * 0x10000 + b3 * 0x1000000
    }

    /// A byte region of guest RAM; records every page touched.
    pub fn peek_region(&mut self, addr: u32, len: usize) -> (r: Vec<u8>)
        requires
            old(self).wf(),
            addr + len <= MEM_SIZE,
        ensures
            final(self).wf(),
            r@ == old(self).ram_view().subrange(addr as int, addr as int + len as int),
            final(self).ram_view() == old(self).ram_view(),
            final(self).regs_view() == old(self).regs_view(),
            final(self).pc_view() == old(self).pc_view(),
            final(self).cycle_view() == old(self).cycle_view(),
    {
        let mut r: Vec<u8> = Vec::new();
        let mut i: usize = 0;
        while i < len
            invariant
                old(self).wf(),
                i <= len,
                addr + len <= MEM_SIZE,
                self.wf(),
                self.ram_view() == old(self).ram_view(),
                self.regs_view() == old(self).regs_view(),
                self.pc_view() == old(self).pc_view(),
                self.cycle_view() == old(self).cycle_view(),
                r@.len() == i,
                forall|j: int| 0 <= j < i ==> #[trigger] r@[j] == old(self).ram_view()[addr + j],
            decreases len - i,
        {
            let b = self.peek_u8(addr + i as u32);
            r.push(b);
            i = i + 1;
        }
        proof {
            assert(r@ =~= old(self).ram_view().subrange(addr as int, addr as int + len as int));
        }
        r
    }

    /// A whole data page; records it as touched.
    pub fn peek_page(&mut self, page: u32) -> (r: Vec<u8>)
        requires
            old(self).wf(),
            page < NUM_DATA_PAGES,
        ensures
            final(self).wf(),
            r@ == page_of(old(self).ram_view(), page as int),
            final(self).ram_view() == old(self).ram_view(),
            final(self).regs_view() == old(self).regs_view(),
            final(self).pc_view() == old(self).pc_view(),
            final(self).cycle_view() == old(self).cycle_view(),
    {
        proof {
            assert(page * PAGE_SIZE as u32 + PAGE_SIZE <= MEM_SIZE && page * PAGE_SIZE as int
                == page as int * PAGE_SIZE as int) by (nonlinear_arith)
                requires
                    page < NUM_DATA_PAGES,
                    NUM_DATA_PAGES == 4096,
                    PAGE_SIZE == 1024,
                    MEM_SIZE == 0x0040_0000;
        }
        let r = self.peek_region(page * PAGE_SIZE as u32, PAGE_SIZE);
        proof {
            assert(r@ =~= page_of(old(self).ram_view(), page as int));
        }
        r
    }
}

/// The NUL-terminated byte string at `ptr`, if one lies wholly in memory
/// within `fuel + 1` bytes: at most `fuel` name bytes before the NUL.
pub open spec fn name_at(ram: Seq<u8>, ptr: int, fuel: nat) -> Option<Seq<u8>>
    decreases fuel,
{
    if !(0 <= ptr < MEM_SIZE) {
        None
    } else if ram[ptr] == 0 {
        Some(Seq::empty())
    } else if fuel == 0 {
        None
    } else {
        match name_at(ram, ptr + 1, (fuel - 1) as nat) {
            Some(rest) => Some(seq![ram[ptr]] + rest),
            None => None,
        }
    }
}

/// The syscall name the driver reads for a software ecall: NUL-terminated,
/// at most `SYSCALL_NAME_MAX - 1` bytes long.
pub open spec fn syscall_name(ram: Seq<u8>, ptr: u32) -> Option<Seq<u8>> {
    name_at(ram, ptr as int, (SYSCALL_NAME_MAX - 1) as nat)
}

/// The name an unknown-syscall error carries.
pub open spec fn unknown_name_of(e: ExecError) -> Seq<u8> {
    match e {
        ExecError::UnknownSyscall(n) => n@,
        _ => Seq::empty(),
    }
}

/// A NUL at offset `k` after `k` non-NUL bytes names exactly those bytes.
proof fn lemma_name_at_terminated(ram: Seq<u8>, ptr: int, k: int, fuel: nat)
    requires
        ram.len() == MEM_SIZE,
        0 <= ptr,
        0 <= k <= fuel,
        ptr + k < MEM_SIZE,
        forall|j: int| 0 <= j < k ==> #[trigger] ram[ptr + j] != 0,
        ram[ptr + k] == 0,
    ensures
        name_at(ram, ptr, fuel) == Some(ram.subrange(ptr, ptr + k)),
    decreases k,
{
    if k == 0 {
        assert(ram.subrange(ptr, ptr) =~= Seq::<u8>::empty());
    } else {
        assert(ram[ptr + 0] != 0);
        assert forall|j: int| 0 <= j < k - 1 implies #[trigger] ram[(ptr + 1) + j] != 0 by {
            assert(ram[ptr + (j + 1)] != 0);
        }
        lemma_name_at_terminated(ram, ptr + 1, k - 1, (fuel - 1) as nat);
        assert(seq![ram[ptr]] + ram.subrange(ptr + 1, ptr + k) =~= ram.subrange(ptr, ptr + k));
    }
}

/// A scan that runs off memory or out of fuel before a NUL names nothing.
proof fn lemma_name_at_overrun(ram: Seq<u8>, ptr: int, k: int, fuel: nat)
    requires
        ram.len() == MEM_SIZE,
        0 <= ptr,
        0 <= k <= fuel + 1,
        forall|j: int| 0 <= j < k ==> ((#[trigger] ram[ptr + j]) != 0 && ptr + j < MEM_SIZE),
        ptr + k >= MEM_SIZE || k == fuel + 1,
    ensures
        name_at(ram, ptr, fuel) is None,
    decreases k,
{
    if ptr >= MEM_SIZE {
    } else {
        assert(k >= 1);
        assert(ram[ptr + 0] != 0);
        assert forall|j: int| 0 <= j < k - 1 implies ((#[trigger] ram[(ptr + 1) + j]) != 0 && (
        ptr + 1) + j < MEM_SIZE) by {
            let jj = j + 1;
            assert(0 <= jj < k);
            assert((ram[ptr + jj]) != 0 && ptr + jj < MEM_SIZE);
            assert((ptr + 1) + j == ptr + jj);
        }
        if fuel > 0 {
            lemma_name_at_overrun(ram, ptr + 1, k - 1, (fuel - 1) as nat);
        }
    }
}

/// What a handler hands back: words for the guest buffer, the two result
/// registers, and bytes committed to the journal.
pub struct SyscallReply {
    /// Words to copy into the guest's return buffer; clamped to the length
    /// the guest asked for.
    pub to_guest: Vec<u32>,
    /// The two register result words, placed in a0 and a1.
    pub regs: (u32, u32),
    /// Bytes the call appends to the session journal.
    pub journal: Vec<u8>,
}

/// The pluggable syscall layer.  Implementations live with the caller; the
/// driver assumes nothing about the reply beyond its shape and validates
/// everything it commits.
pub trait SyscallHandler {
    /// Resolve and execute the named call; `None` means the name is
    /// unknown.  `into_guest_words` is the buffer length the guest asked
    /// to receive.
    fn handle(
        &mut self,
        name: &Vec<u8>,
        ctx: &mut SyscallCtx<'_>,
        into_guest_words: usize,
    ) -> Option<SyscallReply>;
}

/// The accumulated effect of one ecall, not yet applied to guest state.
pub struct PendingECall {
    /// Ordered (address, word) writes into guest RAM.
    pub ram_writes: Vec<(u32, u32)>,
    /// Ordered (register, word) writes.
    pub reg_writes: Vec<(usize, u32)>,
    /// Data pages the handler peeked at, to be charged as loads.
    pub page_loads: Vec<u32>,
    /// The record replayed by the prover, for named syscalls.
    pub syscall: Option<SyscallRecord>,
    /// Present when the ecall ends the segment and the session.
    pub exit_code: Option<ExitCode>,
    /// Base cycle cost of the call itself.
    pub cycles: usize,
    /// Bytes the call appended to the session journal.
    pub journal: Vec<u8>,
}

impl PendingECall {
    /// Shape constraints the executor relies on when estimating and
    /// committing: aligned in-range writes, valid registers and pages,
    /// bounded sizes.
    pub open spec fn wf(self) -> bool {
        &&& forall|i: int|
            0 <= i < self.ram_writes@.len() ==> (#[trigger] self.ram_writes@[i]).0 % 4 == 0
                && self.ram_writes@[i].0 + 4 <= MEM_SIZE
        &&& self.ram_writes@.len() <= MEM_SIZE / WORD_SIZE
        &&& forall|i: int|
            0 <= i < self.reg_writes@.len() ==> 0 < (#[trigger] self.reg_writes@[i]).0 < 32
        &&& self.reg_writes@.len() <= 2
        &&& forall|i: int| 0 <= i < self.page_loads@.len() ==> #[trigger] self.page_loads@[i]
            < NUM_DATA_PAGES
        &&& self.page_loads@.len() <= NUM_DATA_PAGES
        &&& 1 <= self.cycles <= MEM_SIZE
        &&& (match self.exit_code {
            Some(e) => e is Halted || e is Paused,
            None => true,
        })
    }
}

/// Resolve the ecall at `pc` against the current registers: either the
/// halt/pause class, handled by the driver itself, or a named software
/// call resolved through the handler.  Nothing is committed here.  A halt
/// ecall with an unrecognized mode, and a software ecall whose buffer is
/// unusable or whose name cannot be read, are rejected as illegal uses of
/// the ecall instruction; only an unresolved name is an unknown syscall.
pub fn exec_ecall<S: SyscallHandler>(
    ram: &Vec<u8>,
    regs: &Vec<u32>,
    pc: u32,
    cycle: u64,
    handler: &mut S,
) -> (r: Result<PendingECall, ExecError>)
    requires
        ram@.len() == MEM_SIZE,
        regs@.len() == 32,
    ensures
        r is Ok ==> r->Ok_0.wf(),
        r is Err ==> (r->Err_0 is IllegalInstruction || r->Err_0 is UnknownSyscall),
        regs@[5] == ECALL_HALT && regs@[10] == HALT_TERMINATE ==> r is Ok
            && r->Ok_0.exit_code == Some(ExitCode::Halted(regs@[11]))
            && r->Ok_0.ram_writes@.len() == 0 && r->Ok_0.reg_writes@.len() == 0
            && r->Ok_0.journal@.len() == 0,
        regs@[5] == ECALL_HALT && regs@[10] == HALT_PAUSE ==> r is Ok
            && r->Ok_0.exit_code == Some(ExitCode::Paused(regs@[11]))
            && r->Ok_0.ram_writes@.len() == 0 && r->Ok_0.reg_writes@.len() == 0
            && r->Ok_0.journal@.len() == 0,
        regs@[5] == ECALL_SOFTWARE && r is Ok ==> {
            let p = r->Ok_0;
            &&& p.exit_code is None
            &&& p.reg_writes@.len() == 2
            &&& p.reg_writes@[0].0 == 10 && p.reg_writes@[1].0 == 11
            &&& p.syscall is Some
            &&& p.ram_writes@.len() == p.syscall->Some_0.to_guest@.len()
            &&& forall|i: int|
                0 <= i < p.ram_writes@.len() ==> (#[trigger] p.ram_writes@[i]) == (
                    (regs@[10] + 4 * i) as u32,
                    p.syscall->Some_0.to_guest@[i],
                )
            &&& p.syscall->Some_0.regs.0 == p.reg_writes@[0].1
            &&& p.syscall->Some_0.regs.1 == p.reg_writes@[1].1
        },
        regs@[5] == ECALL_HALT && regs@[10] != HALT_TERMINATE && regs@[10] != HALT_PAUSE ==> r
            is Err && r->Err_0 is IllegalInstruction,
        !(regs@[5] == ECALL_HALT || regs@[5] == ECALL_SOFTWARE) ==> r is Err && r->Err_0
            is IllegalInstruction,
        regs@[5] == ECALL_SOFTWARE && (regs@[10] % 4 != 0 || regs@[10] + 4 * regs@[11] > MEM_SIZE)
            ==> r is Err && r->Err_0 is IllegalInstruction,
        regs@[5] == ECALL_SOFTWARE && regs@[10] % 4 == 0 && regs@[10] + 4 * regs@[11] <= MEM_SIZE
            ==> ((syscall_name(ram@, regs@[12]) is None ==> r is Err && r->Err_0
            is IllegalInstruction) && (syscall_name(ram@, regs@[12]) matches Some(n) ==> (r is Ok
            || (r is Err && r->Err_0 is UnknownSyscall && unknown_name_of(r->Err_0) == n)))),
        r is Err && r->Err_0 is UnknownSyscall ==> regs@[5] == ECALL_SOFTWARE && syscall_name(
            ram@,
            regs@[12],
        ) == Some(unknown_name_of(r->Err_0)),
{
    let t0 = regs[5];
    if t0 == ECALL_HALT {
        let mode = regs[10];
        let user = regs[11];
        let exit = if mode == HALT_TERMINATE {
            ExitCode::Halted(user)
        } else if mode == HALT_PAUSE {
            ExitCode::Paused(user)
        } else {
            return Err(ExecError::IllegalInstruction);
        };
        Ok(PendingECall {
            ram_writes: Vec::new(),
            reg_writes: Vec::new(),
            page_loads: Vec::new(),
            syscall: None,
            exit_code: Some(exit),
            cycles: 1,
            journal: Vec::new(),
        })
    } else if t0 == ECALL_SOFTWARE {
        let buf_ptr = regs[10];
        let buf_words = regs[11];
        let name_ptr = regs[12];
        if buf_ptr % 4 != 0 {
            return Err(ExecError::IllegalInstruction);
        }
        if buf_words as u64 * 4 + buf_ptr as u64 > MEM_SIZE as u64 {
            return Err(ExecError::IllegalInstruction);
        }
        let mut ctx = SyscallCtx::new(ram, regs, pc, cycle);
        let mut name: Vec<u8> = Vec::new();
        let mut i: usize = 0;
        let mut terminated = false;
        while i < SYSCALL_NAME_MAX && !terminated
            invariant
                ctx.wf(),
                i <= SYSCALL_NAME_MAX,
                ram@.len() == MEM_SIZE,
                regs@.len() == 32,
                regs@[5] == ECALL_SOFTWARE,
                name_ptr == regs@[12],
                regs@[10] % 4 == 0,
                regs@[10] + 4 * regs@[11] <= MEM_SIZE,
                buf_ptr == regs@[10],
                buf_words == regs@[11],
                ctx.ram_view() == ram@,
                ctx.regs_view() == regs@,
                name@.len() == i,
                forall|j: int| 0 <= j < i ==> #[trigger] name@[j] == ram@[name_ptr + j],
                forall|j: int|
                    0 <= j < i ==> ((#[trigger] ram@[name_ptr + j]) != 0 && name_ptr + j
                        < MEM_SIZE),
                terminated ==> syscall_name(ram@, name_ptr) == Some(name@),
            decreases SYSCALL_NAME_MAX - i + (if terminated { 0int } else { 1int }),
        {
            if name_ptr as u64 + i as u64 >= MEM_SIZE as u64 {
                proof {
                    lemma_name_at_overrun(
                        ram@,
                        name_ptr as int,
                        i as int,
                        (SYSCALL_NAME_MAX - 1) as nat,
                    );
                }
                return Err(ExecError::IllegalInstruction);
            }
            let b = ctx.peek_u8(name_ptr + i as u32);
            if b == 0 {
                proof {
                    lemma_name_at_terminated(
                        ram@,
                        name_ptr as int,
                        i as int,
                        (SYSCALL_NAME_MAX - 1) as nat,
                    );
                    assert(name@ =~= ram@.subrange(name_ptr as int, name_ptr as int + i as int));
                }
                terminated = true;
            } else {
                name.push(b);
                i = i + 1;
            }
        }
        if !terminated {
            proof {
                lemma_name_at_overrun(
                    ram@,
                    name_ptr as int,
                    i as int,
                    (SYSCALL_NAME_MAX - 1) as nat,
                );
            }
            return Err(ExecError::IllegalInstruction);
        }
        let reply = match handler.handle(&name, &mut ctx, buf_words as usize) {
            Some(reply) => reply,
            None => {
                return Err(ExecError::UnknownSyscall(name));
            },
        };
        // clamp the reply to the buffer length the guest asked for
        let take_words: usize = if reply.to_guest.len() < buf_words as usize {
            reply.to_guest.len()
        } else {
            buf_words as usize
        };
        let mut to_guest: Vec<u32> = Vec::new();
        let mut ram_writes: Vec<(u32, u32)> = Vec::new();
        let mut k: usize = 0;
        while k < take_words
            invariant
                k <= take_words,
                take_words <= reply.to_guest@.len(),
                take_words <= buf_words,
                buf_ptr % 4 == 0,
                buf_words as u64 * 4 + buf_ptr as u64 <= MEM_SIZE as u64,
                to_guest@.len() == k,
                ram_writes@.len() == k,
                forall|j: int| 0 <= j < k ==> #[trigger] to_guest@[j] == reply.to_guest@[j],
                forall|j: int|
                    0 <= j < k ==> (#[trigger] ram_writes@[j]) == (
                        (buf_ptr + 4 * j) as u32,
                        reply.to_guest@[j],
                    ),
            decreases take_words - k,
        {
            let addr = buf_ptr + (4 * k) as u32;
            to_guest.push(reply.to_guest[k]);
            ram_writes.push((addr, reply.to_guest[k]));
            k = k + 1;
        }
        // pages the handler peeked, validated and deduplicated
        let touched = ctx.into_touched();
        let mut page_loads: Vec<u32> = Vec::new();
        let mut t: usize = 0;
        while t < touched.len()
            invariant
                t <= touched@.len(),
                page_loads@.len() <= NUM_DATA_PAGES,
                forall|j: int| 0 <= j < page_loads@.len() ==> #[trigger] page_loads@[j]
                    < NUM_DATA_PAGES,
            decreases touched@.len() - t,
        {
            let p = touched[t];
            if p < NUM_DATA_PAGES as u32 && page_loads.len() < NUM_DATA_PAGES
                && !vec_contains_u32(&page_loads, p) {
                page_loads.push(p);
            }
            t = t + 1;
        }
        let cycles: usize = 1 + (take_words + 3) / 4;
        proof {
            assert(take_words <= MEM_SIZE / WORD_SIZE) by (nonlinear_arith)
                requires
                    take_words <= buf_words,
                    buf_words as u64 * 4 + buf_ptr as u64 <= MEM_SIZE as u64,
                    WORD_SIZE == 4,
                    MEM_SIZE == 0x0040_0000;
            assert(cycles <= MEM_SIZE);
            assert forall|j: int|
                0 <= j < ram_writes@.len() implies (#[trigger] ram_writes@[j]).0 % 4 == 0
                && ram_writes@[j].0 + 4 <= MEM_SIZE by {
                assert(ram_writes@[j].0 == (buf_ptr + 4 * j) as u32);
                assert((buf_ptr + 4 * j) % 4 == 0 && buf_ptr + 4 * j + 4 <= MEM_SIZE)
                    by (nonlinear_arith)
                    requires
                        0 <= j < ram_writes@.len(),
                        ram_writes@.len() <= buf_words,
                        buf_ptr % 4 == 0,
                        buf_words as u64 * 4 + buf_ptr as u64 <= MEM_SIZE as u64,
                        MEM_SIZE == 0x0040_0000;
            }
        }
        let a0 = reply.regs.0;
        let a1 = reply.regs.1;
        let mut reg_writes: Vec<(usize, u32)> = Vec::new();
        reg_writes.push((10usize, a0));
        reg_writes.push((11usize, a1));
        Ok(PendingECall {
            ram_writes,
            reg_writes,
            page_loads,
            syscall: Some(SyscallRecord { to_guest, regs: (a0, a1) }),
            exit_code: None,
            cycles,
            journal: reply.journal,
        })
    } else {
        Err(ExecError::IllegalInstruction)
    }
}

/// Whether the vector holds the value.
pub fn vec_contains_u32(v: &Vec<u32>, x: u32) -> (r: bool)
    ensures
        r == v@.contains(x),
{
    let mut i: usize = 0;
    while i < v.len()
        invariant
            i <= v@.len(),
            forall|j: int| 0 <= j < i ==> v@[j] != x,
        decreases v@.len() - i,
    {
        if v[i] == x {
            return true;
        }
        i = i + 1;
    }
    proof {
        assert(!v@.contains(x));
    }
    false
}

impl<'a> SyscallCtx<'a> {
    /// Release the pages this context recorded.
    pub fn into_touched(self) -> (r: Vec<u32>)
        ensures
            r@ == self.touched_view(),
    {
        self.touched
    }
}

} // verus!
