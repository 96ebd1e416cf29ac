//! The stepper: decodes the instruction at the program counter against a
//! read-only view of RAM and registers and returns the pending effect.
//! Nothing is mutated and no cycles are charged here.
//!
//! The supported encodings cover the RV32I moves (LUI, AUIPC), the
//! add/subtract and bitwise register and immediate ops, word loads and
//! stores, jumps, branches, and `ecall`.  Shifts, the set-less-than ops,
//! byte and halfword accesses, fences, CSRs and the multiply/divide
//! extension are not decoded: a guest using them stops with an illegal
//! instruction.

use vstd::prelude::*;
use crate::image::word_at;
use crate::{ExecError, MEM_SIZE};

verus! {

/// The effect of the next instruction, computed but not applied.
#[derive(Clone, Copy, Debug, PartialEq, Eq, Structural)]
pub enum PendingInst {
    /// Read the word at `addr`, write it to `reg`, advance the pc.
    MemoryLoad { addr: u32, val: u32, reg: usize },
    /// Write `val` at `addr`, advance the pc.
    MemoryStore { addr: u32, val: u32 },
    /// Write `val` to `reg` (unless it is register zero), jump to
    /// `new_pc`, consume `cycles` segment cycles.
    RegisterStore { reg: usize, val: u32, new_pc: u32, cycles: usize },
    /// Marker: decode hit an `ecall`; the executor must resolve it through
    /// the syscall layer before it can be applied.
    ECall,
}

impl PendingInst {
    /// Addresses are aligned and in range, registers valid, cycle counts
    /// small: what the executor relies on to commit without checks.
    pub open spec fn wf(self) -> bool {
        match self {
            PendingInst::MemoryLoad { addr, val, reg } => addr % 4 == 0 && addr + 4 <= MEM_SIZE
                && reg < 32,
            PendingInst::MemoryStore { addr, val } => addr % 4 == 0 && addr + 4 <= MEM_SIZE,
            PendingInst::RegisterStore { reg, val, new_pc, cycles } => reg < 32 && 1 <= cycles
                <= 2,
            PendingInst::ECall => true,
        }
    }
}

/// Wrapping 32-bit addition.
pub open spec fn wadd(a: u32, b: u32) -> u32 {
    ((a + b) % 0x1_0000_0000) as u32
}

/// Wrapping 32-bit subtraction.
pub open spec fn wsub(a: u32, b: u32) -> u32 {
    ((a + 0x1_0000_0000 - b) % 0x1_0000_0000) as u32
}

/// Signed comparison via the sign-flip trick.
pub open spec fn lt_signed(a: u32, b: u32) -> bool {
    (a ^ 0x8000_0000) < (b ^ 0x8000_0000)
}

/// The I-type immediate, sign-extended.
pub open spec fn imm_i(w: u32) -> u32 {
    if w & 0x8000_0000 == 0 {
        w >> 20
    } else {
        (w >> 20) | 0xFFFF_F000
    }
}

/// The S-type immediate, sign-extended.
pub open spec fn imm_s(w: u32) -> u32 {
    if w & 0x8000_0000 == 0 {
        ((w >> 25) << 5) | ((w >> 7) & 0x1F)
    } else {
        ((w >> 25) << 5) | ((w >> 7) & 0x1F) | 0xFFFF_F000
    }
}

/// The B-type immediate, sign-extended.
pub open spec fn imm_b(w: u32) -> u32 {
    let base = (((w >> 7) & 1) << 11) | (((w >> 25) & 0x3F) << 5) | (((w >> 8) & 0xF) << 1);
    if w & 0x8000_0000 == 0 {
        base
    } else {
        base | 0xFFFF_F000
    }
}

/// The J-type immediate, sign-extended.
pub open spec fn imm_j(w: u32) -> u32 {
    let base = (((w >> 12) & 0xFF) << 12) | (((w >> 20) & 1) << 11) | (((w >> 21) & 0x3FF) << 1);
    if w & 0x8000_0000 == 0 {
        base
    } else {
        base | 0xFFF0_0000
    }
}

/// What the stepper returns for the given state: `None` is an illegal
/// instruction (or an unfetchable program counter).
pub open spec fn decode_spec(pc: u32, ram: Seq<u8>, regs: Seq<u32>) -> Option<PendingInst> {
    if !(pc % 4 == 0 && pc + 4 <= MEM_SIZE) {
        None
    } else {
        let w = word_at(ram, pc as int);
        let opcode = w & 0x7F;
        let rd = ((w >> 7) & 0x1F) as usize;
        let f3 = (w >> 12) & 7;
        let f7 = w >> 25;
        let rs1 = regs[((w >> 15) & 0x1F) as int];
        let rs2 = regs[((w >> 20) & 0x1F) as int];
        if w == 0x0000_0073 {
            Some(PendingInst::ECall)
        } else if opcode == 0x37 {
            Some(PendingInst::RegisterStore {
                reg: rd, val: w & 0xFFFF_F000, new_pc: wadd(pc, 4), cycles: 1 })
        } else if opcode == 0x17 {
            Some(PendingInst::RegisterStore {
                reg: rd, val: wadd(pc, w & 0xFFFF_F000), new_pc: wadd(pc, 4), cycles: 1 })
        } else if opcode == 0x6F {
            Some(PendingInst::RegisterStore {
                reg: rd, val: wadd(pc, 4), new_pc: wadd(pc, imm_j(w)), cycles: 1 })
        } else if opcode == 0x67 && f3 == 0 {
            Some(PendingInst::RegisterStore {
                reg: rd, val: wadd(pc, 4), new_pc: wadd(rs1, imm_i(w)) & 0xFFFF_FFFE, cycles: 1 })
        } else if opcode == 0x63 && (f3 == 0 || f3 == 1 || f3 == 4 || f3 == 5 || f3 == 6 || f3
            == 7) {
            let taken = if f3 == 0 {
                rs1 == rs2
            } else if f3 == 1 {
                rs1 != rs2
            } else if f3 == 4 {
                lt_signed(rs1, rs2)
            } else if f3 == 5 {
                !lt_signed(rs1, rs2)
            } else if f3 == 6 {
                rs1 < rs2
            } else {
                rs1 >= rs2
            };
            Some(PendingInst::RegisterStore {
                reg: 0,
                val: 0,
                new_pc: if taken { wadd(pc, imm_b(w)) } else { wadd(pc, 4) },
                cycles: 1,
            })
        } else if opcode == 0x03 && f3 == 2 {
            let addr = wadd(rs1, imm_i(w));
            if addr % 4 == 0 && addr + 4 <= MEM_SIZE {
                Some(PendingInst::MemoryLoad { addr, val: word_at(ram, addr as int), reg: rd })
            } else {
                None
            }
        } else if opcode == 0x23 && f3 == 2 {
            let addr = wadd(rs1, imm_s(w));
            if addr % 4 == 0 && addr + 4 <= MEM_SIZE {
                Some(PendingInst::MemoryStore { addr, val: rs2 })
            } else {
                None
            }
        } else if opcode == 0x13 && (f3 == 0 || f3 == 4 || f3 == 6 || f3 == 7) {
            let val = if f3 == 0 {
                wadd(rs1, imm_i(w))
            } else if f3 == 4 {
                rs1 ^ imm_i(w)
            } else if f3 == 6 {
                rs1 | imm_i(w)
            } else {
                rs1 & imm_i(w)
            };
            Some(PendingInst::RegisterStore { reg: rd, val, new_pc: wadd(pc, 4), cycles: 1 })
        } else if opcode == 0x33 && f7 == 0 && (f3 == 0 || f3 == 4 || f3 == 6 || f3 == 7) {
            let val = if f3 == 0 {
                wadd(rs1, rs2)
            } else if f3 == 4 {
                rs1 ^ rs2
            } else if f3 == 6 {
                rs1 | rs2
            } else {
                rs1 & rs2
            };
            Some(PendingInst::RegisterStore { reg: rd, val, new_pc: wadd(pc, 4), cycles: 1 })
        } else if opcode == 0x33 && f7 == 0x20 && f3 == 0 {
            Some(PendingInst::RegisterStore {
                reg: rd, val: wsub(rs1, rs2), new_pc: wadd(pc, 4), cycles: 1 })
        } else {
            None
        }
    }
}

/// Wrapping 32-bit addition, executable.
pub fn wrapping_add_u32(a: u32, b: u32) -> (r: u32)
    ensures
        r == wadd(a, b),
{
    ((a as u64 + b as u64) % 0x1_0000_0000) as u32
}

/// Wrapping 32-bit subtraction, executable.
pub fn wrapping_sub_u32(a: u32, b: u32) -> (r: u32)
    ensures
        r == wsub(a, b),
{
    ((a as u64 + 0x1_0000_0000 - b as u64) % 0x1_0000_0000) as u32
}

/// Decode the instruction at `pc`, reading operands through the given
/// state view, and return its pending effect; `IllegalInstruction` exactly
/// when the word (or the program counter) does not decode.
pub fn exec_rv32im(pc: u32, ram: &Vec<u8>, regs: &Vec<u32>) -> (r: Result<PendingInst, ExecError>)
    requires
        ram@.len() == MEM_SIZE,
        regs@.len() == 32,
    ensures
        r is Ok ==> decode_spec(pc, ram@, regs@) == Some(r->Ok_0) && r->Ok_0.wf(),
        r is Err ==> decode_spec(pc, ram@, regs@) is None && r->Err_0 is IllegalInstruction,
{
    if !(pc % 4 == 0 && pc as u64 + 4 <= MEM_SIZE as u64) {
        return Err(ExecError::IllegalInstruction);
    }
    let b0 = ram[pc as usize] as u32;
    let b1 = ram[pc as usize + 1] as u32;
    let b2 = ram[pc as usize + 2] as u32;
    let b3 = ram[pc as usize + 3] as u32;
    let w = b0 + b1 * 0x100 + b2 * 0x10000 + b3 * 0x1000000;
    proof {
        assert(w == word_at(ram@, pc as int));
    }
    let opcode = w & 0x7F;
    let rd = ((w >> 7) & 0x1F) as usize;
    let f3 = (w >> 12) & 7;
    let f7 = w >> 25;
    let rs1_idx = ((w >> 15) & 0x1F) as usize;
    let rs2_idx = ((w >> 20) & 0x1F) as usize;
    proof {
        assert((w >> 7) & 0x1F < 32 && (w >> 15) & 0x1F < 32 && (w >> 20) & 0x1F < 32)
            by (bit_vector);
    }
    let rs1 = regs[rs1_idx];
    let rs2 = regs[rs2_idx];
    let imm_i_v = if w & 0x8000_0000 == 0 {
        w >> 20
    } else {
        (w >> 20) | 0xFFFF_F000
    };
    let imm_s_v = if w & 0x8000_0000 == 0 {
        ((w >> 25) << 5) | ((w >> 7) & 0x1F)
    } else {
        ((w >> 25) << 5) | ((w >> 7) & 0x1F) | 0xFFFF_F000
    };
    let imm_b_base = (((w >> 7) & 1) << 11) | (((w >> 25) & 0x3F) << 5) | (((w >> 8) & 0xF) << 1);
    let imm_b_v = if w & 0x8000_0000 == 0 {
        imm_b_base
    } else {
        imm_b_base | 0xFFFF_F000
    };
    let imm_j_base = (((w >> 12) & 0xFF) << 12) | (((w >> 20) & 1) << 11) | (((w >> 21) & 0x3FF)
        << 1);
    let imm_j_v = if w & 0x8000_0000 == 0 {
        imm_j_base
    } else {
        imm_j_base | 0xFFF0_0000
    };
    if w == 0x0000_0073 {
        Ok(PendingInst::ECall)
    } else if opcode == 0x37 {
        Ok(PendingInst::RegisterStore {
            reg: rd, val: w & 0xFFFF_F000, new_pc: wrapping_add_u32(pc, 4), cycles: 1 })
    } else if opcode == 0x17 {
        Ok(PendingInst::RegisterStore {
            reg: rd,
            val: wrapping_add_u32(pc, w & 0xFFFF_F000),
            new_pc: wrapping_add_u32(pc, 4),
            cycles: 1,
        })
    } else if opcode == 0x6F {
        Ok(PendingInst::RegisterStore {
            reg: rd,
            val: wrapping_add_u32(pc, 4),
            new_pc: wrapping_add_u32(pc, imm_j_v),
            cycles: 1,
        })
    } else if opcode == 0x67 && f3 == 0 {
        Ok(PendingInst::RegisterStore {
            reg: rd,
            val: wrapping_add_u32(pc, 4),
            new_pc: wrapping_add_u32(rs1, imm_i_v) & 0xFFFF_FFFE,
            cycles: 1,
        })
    } else if opcode == 0x63 && (f3 == 0 || f3 == 1 || f3 == 4 || f3 == 5 || f3 == 6 || f3 == 7) {
        let taken = if f3 == 0 {
            rs1 == rs2
        } else if f3 == 1 {
            rs1 != rs2
        } else if f3 == 4 {
            (rs1 ^ 0x8000_0000) < (rs2 ^ 0x8000_0000)
        } else if f3 == 5 {
            !((rs1 ^ 0x8000_0000) < (rs2 ^ 0x8000_0000))
        } else if f3 == 6 {
            rs1 < rs2
        } else {
            rs1 >= rs2
        };
        Ok(PendingInst::RegisterStore {
            reg: 0,
            val: 0,
            new_pc: if taken {
                wrapping_add_u32(pc, imm_b_v)
            } else {
                wrapping_add_u32(pc, 4)
            },
            cycles: 1,
        })
    } else if opcode == 0x03 && f3 == 2 {
        let addr = wrapping_add_u32(rs1, imm_i_v);
        if addr % 4 == 0 && addr as u64 + 4 <= MEM_SIZE as u64 {
            let c0 = ram[addr as usize] as u32;
            let c1 = ram[addr as usize + 1] as u32;
            let c2 = ram[addr as usize + 2] as u32;
            let c3 = ram[addr as usize + 3] as u32;
            let val = c0 + c1 * 0x100 + c2 * 0x10000 + c3 * 0x1000000;
            proof {
                assert(val == word_at(ram@, addr as int));
            }
            Ok(PendingInst::MemoryLoad { addr, val, reg: rd })
        } else {
            Err(ExecError::IllegalInstruction)
        }
    } else if opcode == 0x23 && f3 == 2 {
        let addr = wrapping_add_u32(rs1, imm_s_v);
        if addr % 4 == 0 && addr as u64 + 4 <= MEM_SIZE as u64 {
            Ok(PendingInst::MemoryStore { addr, val: rs2 })
        } else {
            Err(ExecError::IllegalInstruction)
        }
    } else if opcode == 0x13 && (f3 == 0 || f3 == 4 || f3 == 6 || f3 == 7) {
        let val = if f3 == 0 {
            wrapping_add_u32(rs1, imm_i_v)
        } else if f3 == 4 {
            rs1 ^ imm_i_v
        } else if f3 == 6 {
            rs1 | imm_i_v
        } else {
            rs1 & imm_i_v
        };
        Ok(PendingInst::RegisterStore { reg: rd, val, new_pc: wrapping_add_u32(pc, 4), cycles: 1 })
    } else if opcode == 0x33 && f7 == 0 && (f3 == 0 || f3 == 4 || f3 == 6 || f3 == 7) {
        let val = if f3 == 0 {
            wrapping_add_u32(rs1, rs2)
        } else if f3 == 4 {
            rs1 ^ rs2
        } else if f3 == 6 {
            rs1 | rs2
        } else {
            rs1 & rs2
        };
        Ok(PendingInst::RegisterStore { reg: rd, val, new_pc: wrapping_add_u32(pc, 4), cycles: 1 })
    } else if opcode == 0x33 && f7 == 0x20 && f3 == 0 {
        Ok(PendingInst::RegisterStore {
            reg: rd,
            val: wrapping_sub_u32(rs1, rs2),
            new_pc: wrapping_add_u32(pc, 4),
            cycles: 1,
        })
    } else {
        Err(ExecError::IllegalInstruction)
    }
}

} // verus!
