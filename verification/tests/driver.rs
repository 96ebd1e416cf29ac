//! End-to-end tests of the execution driver: guest programs assembled by
//! hand, run against a test syscall layer.

use zkvm_exec::ecall::{SyscallCtx, SyscallHandler, SyscallReply};
use zkvm_exec::env::ExecutorEnv;
use zkvm_exec::exec::Executor;
use zkvm_exec::image::MemoryImage;
use zkvm_exec::page_table::{Dir, PageTable};
use zkvm_exec::segment::{ExitCode, TraceEvent};
use zkvm_exec::{ExecError, CYCLES_PER_FULL_PAGE, MIN_CYCLES_PO2, SYSTEM_START};

fn addi(rd: u32, rs1: u32, imm: i32) -> u32 {
    ((imm as u32 & 0xFFF) << 20) | (rs1 << 15) | (rd << 7) | 0x13
}

fn lui(rd: u32, imm20: u32) -> u32 {
    (imm20 << 12) | (rd << 7) | 0x37
}

fn bne(rs1: u32, rs2: u32, off: i32) -> u32 {
    let o = off as u32;
    let imm12 = (o >> 12) & 1;
    let imm11 = (o >> 11) & 1;
    let imm10_5 = (o >> 5) & 0x3F;
    let imm4_1 = (o >> 1) & 0xF;
    (imm12 << 31) | (imm10_5 << 25) | (rs2 << 20) | (rs1 << 15) | (1 << 12) | (imm4_1 << 8)
        | (imm11 << 7) | 0x63
}

fn sw(rs2: u32, rs1: u32, imm: i32) -> u32 {
    let o = imm as u32;
    ((o >> 5) & 0x7F) << 25 | (rs2 << 20) | (rs1 << 15) | (2 << 12) | ((o & 0x1F) << 7) | 0x23
}

fn lw(rd: u32, rs1: u32, imm: i32) -> u32 {
    ((imm as u32 & 0xFFF) << 20) | (rs1 << 15) | (2 << 12) | (rd << 7) | 0x03
}

fn ecall() -> u32 {
    0x0000_0073
}

/// t0 = HALT class, a0 = terminate, a1 = user exit code, ecall.
fn halt_seq(user_exit: i32) -> Vec<u32> {
    vec![addi(5, 0, 0), addi(10, 0, 0), addi(11, 0, user_exit), ecall()]
}

fn store_words(img: &mut MemoryImage, addr: u32, words: &[u32]) {
    for (i, w) in words.iter().enumerate() {
        let b = w.to_le_bytes().to_vec();
        img.store_region_in_page(addr + 4 * i as u32, &b);
    }
}

fn make_image(entry: u32, program: &[u32], data: &[(u32, Vec<u8>)]) -> MemoryImage {
    let mut img = MemoryImage::zeroed(entry);
    store_words(&mut img, entry, program);
    for (addr, bytes) in data {
        img.store_region_in_page(*addr, bytes);
    }
    img.hash_pages();
    img
}

struct TestHandler {
    journal_payload: Vec<u8>,
    fill_words: Vec<u32>,
}

impl TestHandler {
    fn new() -> TestHandler {
        TestHandler { journal_payload: vec![0xDE, 0xAD, 0xBE, 0xEF], fill_words: Vec::new() }
    }
}

impl SyscallHandler for TestHandler {
    fn handle(
        &mut self,
        name: &Vec<u8>,
        _ctx: &mut SyscallCtx<'_>,
        _into_guest_words: usize,
    ) -> Option<SyscallReply> {
        match name.as_slice() {
            b"journal" => Some(SyscallReply {
                to_guest: Vec::new(),
                regs: (0, 0),
                journal: self.journal_payload.clone(),
            }),
            b"fill" => Some(SyscallReply {
                to_guest: self.fill_words.clone(),
                regs: (0, 0),
                journal: Vec::new(),
            }),
            _ => None,
        }
    }
}

const ENTRY: u32 = 0x1000;
const NAME_ADDR: u32 = 0x3000;

fn journal_call_seq(buf_addr_hi: u32, buf_addr_lo: i32, words: i32) -> Vec<u32> {
    vec![
        addi(5, 0, 2),               // t0 = SOFTWARE
        lui(10, buf_addr_hi),        // a0 = buffer
        addi(10, 10, buf_addr_lo),
        addi(11, 0, words),          // a1 = words wanted
        lui(12, 3),                  // a2 = name pointer 0x3000
        ecall(),
    ]
}

#[test]
fn tiny_halt() {
    let mut program = journal_call_seq(2, 0, 0);
    program.extend(halt_seq(0));
    let data = vec![(NAME_ADDR, b"journal\0".to_vec())];
    let img = make_image(ENTRY, &program, &data);
    let env = ExecutorEnv::new(20, 100_000_000, TestHandler::new());
    let mut exec = Executor::new(env, img, ENTRY);
    let sess = exec.run().unwrap();

    assert_eq!(sess.journal, vec![0xDE, 0xAD, 0xBE, 0xEF]);
    assert!(matches!(sess.exit_code, ExitCode::Halted(0)));
    assert_eq!(sess.segments.len(), 1);

    // the post image id is the root of the pre image with the
    // halt-updated pc and register file folded in
    let mut expect = make_image(ENTRY, &program, &data);
    for i in 1..32u32 {
        let w = exec.load_reg(i as usize);
        expect.store_region_in_page(SYSTEM_START as u32 + 4 * i, &w.to_le_bytes().to_vec());
    }
    expect.pc = exec.pc;
    expect.hash_pages();
    assert_eq!(sess.segments[0].post_image_id, expect.compute_id());
    assert!(sess.total_cycles <= 100_000_000);
}

#[test]
fn forced_split_loop() {
    // 2 setup + 1 filler + 3 * 33331 + 4 halt = 100_000 committed
    // instructions
    let mut program = vec![lui(6, 8), addi(6, 6, 563), addi(7, 0, 0)];
    program.push(addi(7, 7, 1));
    program.push(addi(6, 6, -1));
    program.push(bne(6, 0, -8));
    program.extend(halt_seq(0));
    let img = make_image(ENTRY, &program, &[]);
    let env = ExecutorEnv::new(MIN_CYCLES_PO2, 1_000_000_000, TestHandler::new());
    let mut exec = Executor::new(env, img, ENTRY);
    let sess = exec.run().unwrap();

    assert!(sess.segments.len() >= 3, "expected at least 3 segments");
    let total_insn: usize = sess.segments.iter().map(|s| s.insn_cycles).sum();
    assert_eq!(total_insn, 100_000);
    // chaining: each post image id is the next pre image's id
    for i in 0..sess.segments.len() - 1 {
        assert_eq!(
            sess.segments[i].post_image_id,
            sess.segments[i + 1].pre_image.compute_id()
        );
    }
    // budget exponents stay in range and indices are consecutive
    for (i, seg) in sess.segments.iter().enumerate() {
        assert!(seg.po2 >= MIN_CYCLES_PO2 && seg.po2 <= MIN_CYCLES_PO2);
        assert_eq!(seg.index as usize, i);
    }
}

#[test]
fn ecall_with_ram_writes() {
    // the handler fills 256 words across two pages (0x2200..0x2600)
    let mut program = journal_call_seq(2, 0x200, 256);
    program.extend(halt_seq(0));
    let data = vec![(NAME_ADDR, b"fill\0".to_vec())];
    let img = make_image(ENTRY, &program, &data);
    let mut handler = TestHandler::new();
    handler.fill_words = (0..256u32).collect();
    let mut env = ExecutorEnv::new(20, 100_000_000, handler);
    env.trace_enabled = true;
    let mut exec = Executor::new(env, img, ENTRY);
    let sess = exec.run().unwrap();

    assert_eq!(sess.segments.len(), 1);
    // exactly the two buffer pages were made dirty
    assert_eq!(sess.segments[0].faults.writes, vec![8u32, 9]);
    // stores imply loads
    for w in &sess.segments[0].faults.writes {
        assert!(sess.segments[0].faults.reads.contains(w));
    }
    // the 256 memory writes were committed in order and traced in order
    let mem_sets: Vec<&TraceEvent> = exec
        .trace_events
        .iter()
        .filter(|e| matches!(e, TraceEvent::MemorySet { .. }))
        .collect();
    assert_eq!(mem_sets.len(), 256);
    for (k, ev) in mem_sets.iter().enumerate() {
        match ev {
            TraceEvent::MemorySet { addr, value } => {
                assert_eq!(*addr, 0x2200 + 4 * k as u32);
                assert_eq!(*value, k as u32);
            }
            _ => unreachable!(),
        }
    }
    // the words landed in guest RAM
    assert_eq!(exec.load_u32(0x2200), 0);
    assert_eq!(exec.load_u32(0x2200 + 4 * 255), 255);
    // the syscall record carries the transfer verbatim
    assert_eq!(sess.segments[0].syscalls.len(), 1);
    assert_eq!(sess.segments[0].syscalls[0].to_guest.len(), 256);
    assert_eq!(sess.segments[0].syscalls[0].regs, (0, 0));
}

#[test]
fn register_zero_suppressed() {
    let mut program = vec![addi(0, 0, 0x123)];
    program.extend(halt_seq(0));
    let img = make_image(ENTRY, &program, &[]);
    let mut env = ExecutorEnv::new(20, 100_000_000, TestHandler::new());
    env.trace_enabled = true;
    let mut exec = Executor::new(env, img, ENTRY);
    exec.run().unwrap();

    // the trace event is emitted, but the register stays zero
    assert!(exec
        .trace_events
        .iter()
        .any(|e| *e == TraceEvent::RegisterSet { reg: 0, value: 0x123 }));
    assert_eq!(exec.load_reg(0), 0);
}

#[test]
fn session_limit_breach() {
    let mut program = vec![lui(6, 8)];
    program.push(addi(7, 7, 1));
    program.push(addi(6, 6, -1));
    program.push(bne(6, 0, -8));
    program.extend(halt_seq(0));
    let img = make_image(ENTRY, &program, &[]);
    // the loader head alone is 1000 cycles, so this breaches immediately
    let env = ExecutorEnv::new(20, 10, TestHandler::new());
    let mut exec = Executor::new(env, img, ENTRY);
    let r = exec.run();
    assert!(matches!(r, Err(ExecError::SessionLimitExceeded)));
}

#[test]
fn ecall_pages_expand_and_dedup() {
    let img = make_image(ENTRY, &[addi(1, 0, 0)], &[]);
    let env = ExecutorEnv::new(20, 100_000_000, TestHandler::new());
    let exec = Executor::new(env, img, ENTRY);
    // two writes into the same page: one leaf entry, expanded through the
    // overlay ancestors; the root is already charged at segment start
    let e = zkvm_exec::ecall::PendingECall {
        ram_writes: vec![(0x2200, 1), (0x2204, 2)],
        reg_writes: Vec::new(),
        page_loads: Vec::new(),
        syscall: None,
        exit_code: None,
        cycles: 1,
        journal: Vec::new(),
    };
    let r = exec.calc_ecall_pages(&e);
    let mut loads = r.0.clone();
    loads.sort();
    assert_eq!(loads, vec![8u32, 4096, 4224]);
    let mut stores = r.1.clone();
    stores.sort();
    assert_eq!(stores, vec![8u32, 4096, 4224]);
}

#[test]
fn resize_then_split() {
    // a straight run of 1500 instructions: too big for the minimum
    // budget, fits after one doubling
    let mut program = Vec::new();
    for _ in 0..1500 {
        program.push(addi(6, 6, 1));
    }
    program.extend(halt_seq(0));
    let img = make_image(ENTRY, &program, &[]);
    let env = ExecutorEnv::new(20, 100_000_000, TestHandler::new());
    let mut exec = Executor::new(env, img, ENTRY);
    let sess = exec.run().unwrap();

    assert_eq!(sess.segments.len(), 1, "no split expected");
    assert_eq!(sess.segments[0].po2, MIN_CYCLES_PO2 + 1, "exactly one doubling");
}

#[test]
fn memory_store_and_load() {
    let mut program = vec![
        lui(8, 5),          // x8 = 0x5000
        addi(7, 0, 42),
        sw(7, 8, 0),        // mem[0x5000] = 42
        lw(9, 8, 0),        // x9 = mem[0x5000]
    ];
    program.extend(halt_seq(0));
    let img = make_image(ENTRY, &program, &[]);
    let env = ExecutorEnv::new(20, 100_000_000, TestHandler::new());
    let mut exec = Executor::new(env, img, ENTRY);
    let sess = exec.run().unwrap();

    assert_eq!(exec.load_reg(9), 42);
    assert_eq!(exec.load_u32(0x5000), 42);
    // page 20 (0x5000 / 0x400) was stored to, hence also loaded
    assert!(sess.segments[0].faults.writes.contains(&20u32));
    assert!(sess.segments[0].faults.reads.contains(&20u32));
}

#[test]
fn paused_round_trip() {
    // loading an image and splitting with no committed instruction folds
    // back to the original image id
    let img = make_image(ENTRY, &[addi(1, 0, 7)], &[]);
    let id0 = img.compute_id();
    let env = ExecutorEnv::new(20, 100_000_000, TestHandler::new());
    let mut exec = Executor::new(env, img, ENTRY);
    exec.split(ExitCode::Paused(0)).unwrap();
    assert_eq!(exec.segments[0].post_image_id, id0);
    assert!(matches!(exec.segments[0].exit_code, ExitCode::Paused(0)));
}

#[test]
fn mark_idempotent() {
    let mut pt = PageTable::new();
    // fresh page: leaf, two overlay ancestors and the root transition
    let c1 = pt.mark_page(5, Dir::Load);
    assert_eq!(c1, 4 * CYCLES_PER_FULL_PAGE);
    assert_eq!(pt.cycles_needed(5, Dir::Load), 0);
    assert_eq!(pt.mark_page(5, Dir::Load), 0);
    // a sibling shares the whole overlay path
    assert_eq!(pt.cycles_needed(6, Dir::Load), CYCLES_PER_FULL_PAGE);
    // the dirty transition is still owed
    assert_eq!(pt.cycles_needed(5, Dir::Store), 4 * CYCLES_PER_FULL_PAGE);
}

#[test]
fn split_equivalence() {
    // the same program with the smallest and a large segment limit:
    // more segments, but identical guest outcome
    let mut program = vec![lui(6, 1), addi(7, 0, 0)];
    program.push(addi(7, 7, 3));
    program.push(addi(6, 6, -1));
    program.push(bne(6, 0, -8));
    program.extend(halt_seq(0));
    let img1 = make_image(ENTRY, &program, &[]);
    let img2 = make_image(ENTRY, &program, &[]);

    let env1 = ExecutorEnv::new(MIN_CYCLES_PO2, 1_000_000_000, TestHandler::new());
    let mut exec1 = Executor::new(env1, img1, ENTRY);
    let sess1 = exec1.run().unwrap();

    let env2 = ExecutorEnv::new(20, 1_000_000_000, TestHandler::new());
    let mut exec2 = Executor::new(env2, img2, ENTRY);
    let sess2 = exec2.run().unwrap();

    assert!(sess1.segments.len() > sess2.segments.len());
    assert_eq!(sess1.journal, sess2.journal);
    assert!(matches!(sess1.exit_code, ExitCode::Halted(0)));
    assert_eq!(exec1.pc, exec2.pc);
    for i in 0..32 {
        assert_eq!(exec1.load_reg(i), exec2.load_reg(i));
    }
    for a in (0x1000u32..0x1100).step_by(4) {
        assert_eq!(exec1.load_u32(a), exec2.load_u32(a));
    }
}

#[test]
fn determinism() {
    let mut program = journal_call_seq(2, 0, 0);
    program.extend(halt_seq(0));
    let data = vec![(NAME_ADDR, b"journal\0".to_vec())];

    let img1 = make_image(ENTRY, &program, &data);
    let env1 = ExecutorEnv::new(MIN_CYCLES_PO2, 100_000_000, TestHandler::new());
    let mut exec1 = Executor::new(env1, img1, ENTRY);
    let sess1 = exec1.run().unwrap();

    let img2 = make_image(ENTRY, &program, &data);
    let env2 = ExecutorEnv::new(MIN_CYCLES_PO2, 100_000_000, TestHandler::new());
    let mut exec2 = Executor::new(env2, img2, ENTRY);
    let sess2 = exec2.run().unwrap();

    assert_eq!(sess1.journal, sess2.journal);
    assert_eq!(sess1.total_cycles, sess2.total_cycles);
    assert_eq!(sess1.segments.len(), sess2.segments.len());
    for (a, b) in sess1.segments.iter().zip(sess2.segments.iter()) {
        assert_eq!(a.post_image_id, b.post_image_id);
        assert_eq!(a.insn_cycles, b.insn_cycles);
        assert_eq!(a.po2, b.po2);
    }
}

#[test]
fn unknown_syscall_is_reported() {
    let mut program = journal_call_seq(2, 0, 0);
    program.extend(halt_seq(0));
    let data = vec![(NAME_ADDR, b"nope\0".to_vec())];
    let img = make_image(ENTRY, &program, &data);
    let env = ExecutorEnv::new(20, 100_000_000, TestHandler::new());
    let mut exec = Executor::new(env, img, ENTRY);
    match exec.run() {
        Err(ExecError::UnknownSyscall(name)) => assert_eq!(name, b"nope".to_vec()),
        other => panic!("expected UnknownSyscall, got {:?}", other.is_ok()),
    }
}

#[test]
fn illegal_instruction_is_reported() {
    let program = vec![0xFFFF_FFFFu32];
    let img = make_image(ENTRY, &program, &[]);
    let env = ExecutorEnv::new(20, 100_000_000, TestHandler::new());
    let mut exec = Executor::new(env, img, ENTRY);
    assert!(matches!(exec.run(), Err(ExecError::IllegalInstruction)));
}

#[test]
fn bad_halt_mode_is_illegal() {
    // t0 = HALT class but an unrecognized mode in a0
    let program = vec![addi(5, 0, 0), addi(10, 0, 7), addi(11, 0, 0), ecall()];
    let img = make_image(ENTRY, &program, &[]);
    let env = ExecutorEnv::new(20, 100_000_000, TestHandler::new());
    let mut exec = Executor::new(env, img, ENTRY);
    assert!(matches!(exec.run(), Err(ExecError::IllegalInstruction)));
}

#[test]
fn misaligned_ecall_buffer_is_illegal() {
    // software ecall with an unaligned return buffer pointer
    let mut program = vec![
        addi(5, 0, 2),
        lui(10, 2),
        addi(10, 10, 2), // a0 = 0x2002: not word aligned
        addi(11, 0, 4),
        lui(12, 3),
        ecall(),
    ];
    program.extend(halt_seq(0));
    let data = vec![(NAME_ADDR, b"journal\0".to_vec())];
    let img = make_image(ENTRY, &program, &data);
    let env = ExecutorEnv::new(20, 100_000_000, TestHandler::new());
    let mut exec = Executor::new(env, img, ENTRY);
    assert!(matches!(exec.run(), Err(ExecError::IllegalInstruction)));
}

#[test]
fn digest_has_fixed_width() {
    let bytes = vec![1u8, 2, 3, 4, 5, 6, 7, 8, 9, 10];
    let d1 = zkvm_exec::digests::sha256(&bytes);
    let d2 = zkvm_exec::digests::sha256(&bytes);
    assert_eq!(d1.len(), 32);
    assert_eq!(d1, d2);
    assert_ne!(d1, bytes);
}
