//! Emission of x86_64 machine code for decoded ARM64 instructions.
//!
//! ARM64 registers live in a register file array whose base is in RDI; each
//! translated instruction loads its operands from the array into RAX, RCX or
//! RDX, operates, and stores the result back.
use crate::arm64::Arm64Insn;
use crate::le::{push_all, u32_le, u64_le};
use vstd::bytes::*;
use vstd::prelude::*;

verus! {

/// REX prefix: 64-bit operand size.
pub const REX_W: u8 = 0x48;

/// REX prefix: 64-bit operand size, extended ModRM.rm / base register.
pub const REX_WB: u8 = 0x49;

/// REX prefix: 64-bit operand size, extended ModRM.reg register.
pub const REX_WR: u8 = 0x4C;

/// REX prefix: 64-bit operand size, both registers extended.
pub const REX_WRB: u8 = 0x4D;

/// x86_64 encoding of RAX.
pub const RAX: u8 = 0;

/// x86_64 encoding of RCX.
pub const RCX: u8 = 1;

/// x86_64 encoding of RDX.
pub const RDX: u8 = 2;

/// x86_64 encoding of RDI, which holds the register file base.
pub const RDI: u8 = 7;

/// x86_64 RET.
pub const X86_RET: u8 = 0xC3;

/// x86_64 NOP.
pub const X86_NOP: u8 = 0x90;

/// x86_64 INT3 (breakpoint trap).
pub const X86_INT3: u8 = 0xCC;

/// Whether an ARM64 register in 0..8 maps to an extended x86 register (R8-R15).
pub fn is_extended_reg(arm_reg: u8) -> (r: bool)
    ensures
        r == (arm_reg >= 6),
{
    arm_reg >= 6
}

/// The REX prefix for a pair of ARM64 registers in 0..8.
pub fn rex_for_regs(dst: u8, src: u8) -> (r: u8)
    ensures
        r == if dst >= 6 {
            if src >= 6 {
                REX_WRB
            } else {
                REX_WB
            }
        } else {
            if src >= 6 {
                REX_WR
            } else {
                REX_W
            }
        },
{
    match (is_extended_reg(dst), is_extended_reg(src)) {
        (false, false) => REX_W,
        (true, false) => REX_WB,
        (false, true) => REX_WR,
        (true, true) => REX_WRB,
    }
}

// ---------------------------------------------------------------------------
// Encodings

/// ModRM byte for register-to-register (mod = 11).
pub open spec fn modrm_reg_byte(reg: u8, rm: u8) -> u8 {
    0xC0u8 | ((reg & 7u8) << 3u8) | (rm & 7u8)
}

/// ModRM byte and displacement for `[base + disp]`: no displacement when it
/// is 0 (and base is not RBP/R13), else 8 bits when it fits, else 32 bits.
pub open spec fn modrm_disp_bytes(reg: u8, base: u8, disp: i32) -> Seq<u8> {
    if disp == 0 && base != 5 {
        seq![((reg & 7u8) << 3u8) | (base & 7u8)]
    } else if -128 <= disp <= 127 {
        seq![0x40u8 | ((reg & 7u8) << 3u8) | (base & 7u8), disp as u8]
    } else {
        seq![0x80u8 | ((reg & 7u8) << 3u8) | (base & 7u8)] + spec_u32_to_le_bytes(disp as u32)
    }
}

/// Byte offset of ARM64 register `arm_idx` in the register file.
pub open spec fn regfile_offset(arm_idx: u8) -> i32 {
    (arm_idx * 8) as i32
}

/// `MOV x86_reg, [RDI + 8 * arm_idx]`: load an ARM64 register.
pub open spec fn load_arm_reg_bytes(x86_reg: u8, arm_idx: u8) -> Seq<u8> {
    seq![REX_W, 0x8Bu8] + modrm_disp_bytes(x86_reg, RDI, regfile_offset(arm_idx))
}

/// `MOV [RDI + 8 * arm_idx], x86_reg`: store an ARM64 register.
pub open spec fn store_arm_reg_bytes(arm_idx: u8, x86_reg: u8) -> Seq<u8> {
    seq![REX_W, 0x89u8] + modrm_disp_bytes(x86_reg, RDI, regfile_offset(arm_idx))
}

/// `MOV reg, imm64`.
pub open spec fn mov_imm64_bytes(reg: u8, imm: u64) -> Seq<u8> {
    seq![REX_W, (0xB8u8 + (reg & 7u8)) as u8] + spec_u64_to_le_bytes(imm)
}

/// The little-endian bytes of a 32-bit immediate.
pub open spec fn imm32_bytes(imm: i32) -> Seq<u8> {
    spec_u32_to_le_bytes(imm as u32)
}

/// Two-register ALU operation: `RAX = Xn; RCX = Xm; OP RAX, RCX; Xd = RAX`.
pub open spec fn alu_reg_reg_bytes(rd: u8, rn: u8, rm: u8, opcode: u8) -> Seq<u8> {
    load_arm_reg_bytes(RAX, rn) + load_arm_reg_bytes(RCX, rm) + seq![
        REX_W,
        opcode,
        modrm_reg_byte(RCX, RAX),
    ] + store_arm_reg_bytes(rd, RAX)
}

/// `RAX = Xn; OP RAX, imm32; Xd = RAX` (ADD/SUB immediate).
pub open spec fn imm_alu_bytes(rd: u8, rn: u8, imm: u16, opcode: u8) -> Seq<u8> {
    load_arm_reg_bytes(RAX, rn) + seq![REX_W, opcode] + imm32_bytes(imm as i32)
        + store_arm_reg_bytes(rd, RAX)
}

/// `RAX = Xn; RCX = Xm; IMUL RAX, RCX; Xd = RAX`.
pub open spec fn mul_bytes(rd: u8, rn: u8, rm: u8) -> Seq<u8> {
    load_arm_reg_bytes(RAX, rn) + load_arm_reg_bytes(RCX, rm) + seq![
        REX_W,
        0x0Fu8,
        0xAFu8,
        modrm_reg_byte(RAX, RCX),
    ] + store_arm_reg_bytes(rd, RAX)
}

/// `RAX = Xn; XOR RDX, RDX; RCX = Xm; DIV RCX; Xd = RAX`.
pub open spec fn udiv_bytes(rd: u8, rn: u8, rm: u8) -> Seq<u8> {
    load_arm_reg_bytes(RAX, rn) + seq![REX_W, 0x31u8, modrm_reg_byte(RDX, RDX)]
        + load_arm_reg_bytes(RCX, rm) + seq![REX_W, 0xF7u8, modrm_reg_byte(6, RCX)]
        + store_arm_reg_bytes(rd, RAX)
}

/// `RAX = Xn; RCX = Xm; SHL/SHR RAX, CL; Xd = RAX` (`ext` 4 is SHL, 5 is SHR).
pub open spec fn shift_bytes(rd: u8, rn: u8, rm: u8, ext: u8) -> Seq<u8> {
    load_arm_reg_bytes(RAX, rn) + load_arm_reg_bytes(RCX, rm) + seq![
        REX_W,
        0xD3u8,
        modrm_reg_byte(ext, RAX),
    ] + store_arm_reg_bytes(rd, RAX)
}

/// `RAX = Xn (+ imm); MOV RAX, [RAX]; Xt = RAX`.
pub open spec fn ldr_imm_bytes(rt: u8, rn: u8, imm: i16) -> Seq<u8> {
    load_arm_reg_bytes(RAX, rn) + (if imm != 0 {
        seq![REX_W, 0x05u8] + imm32_bytes(imm as i32)
    } else {
        Seq::empty()
    }) + seq![REX_W, 0x8Bu8, 0x00u8] + store_arm_reg_bytes(rt, RAX)
}

/// `RAX = Xn; RCX = Xm; ADD RAX, RCX; MOV RAX, [RAX]; Xt = RAX`.
pub open spec fn ldr_reg_bytes(rt: u8, rn: u8, rm: u8) -> Seq<u8> {
    load_arm_reg_bytes(RAX, rn) + load_arm_reg_bytes(RCX, rm) + seq![
        REX_W,
        0x01u8,
        modrm_reg_byte(RCX, RAX),
    ] + seq![REX_W, 0x8Bu8, 0x00u8] + store_arm_reg_bytes(rt, RAX)
}

/// `RCX = Xn (+ imm); RAX = Xt; MOV [RCX], RAX`.
pub open spec fn str_imm_bytes(rt: u8, rn: u8, imm: i16) -> Seq<u8> {
    load_arm_reg_bytes(RCX, rn) + (if imm != 0 {
        seq![REX_W, 0x81u8, modrm_reg_byte(0, RCX)] + imm32_bytes(imm as i32)
    } else {
        Seq::empty()
    }) + load_arm_reg_bytes(RAX, rt) + seq![REX_W, 0x89u8, 0x01u8]
}

/// `RCX = Xn; RDX = Xm; ADD RCX, RDX; RAX = Xt; MOV [RCX], RAX`.
pub open spec fn str_reg_bytes(rt: u8, rn: u8, rm: u8) -> Seq<u8> {
    load_arm_reg_bytes(RCX, rn) + load_arm_reg_bytes(RDX, rm) + seq![
        REX_W,
        0x01u8,
        modrm_reg_byte(RDX, RCX),
    ] + load_arm_reg_bytes(RAX, rt) + seq![REX_W, 0x89u8, 0x01u8]
}

/// `JMP rel32` (`opcode` 0xE9) or `CALL rel32` (`opcode` 0xE8).
pub open spec fn rel32_bytes(opcode: u8, offset: i32) -> Seq<u8> {
    seq![opcode] + imm32_bytes(offset)
}

/// `RAX = Xn; JMP RAX`.
pub open spec fn branch_reg_bytes(rn: u8) -> Seq<u8> {
    load_arm_reg_bytes(RAX, rn) + seq![0xFFu8, modrm_reg_byte(4, RAX)]
}

/// `RAX = Xn; Xd = RAX`.
pub open spec fn mov_bytes(rd: u8, rn: u8) -> Seq<u8> {
    load_arm_reg_bytes(RAX, rn) + store_arm_reg_bytes(rd, RAX)
}

/// `MOV RAX, imm64; Xd = RAX`.
pub open spec fn mov_imm_bytes(rd: u8, imm: u64) -> Seq<u8> {
    mov_imm64_bytes(RAX, imm) + store_arm_reg_bytes(rd, RAX)
}

/// The x86_64 code emitted for one ARM64 instruction.
pub open spec fn insn_bytes(insn: Arm64Insn) -> Seq<u8> {
    match insn {
        Arm64Insn::AddReg { rd, rn, rm } => alu_reg_reg_bytes(rd, rn, rm, 0x01),
        Arm64Insn::AddImm { rd, rn, imm } => imm_alu_bytes(rd, rn, imm, 0x05),
        Arm64Insn::SubReg { rd, rn, rm } => alu_reg_reg_bytes(rd, rn, rm, 0x29),
        Arm64Insn::SubImm { rd, rn, imm } => imm_alu_bytes(rd, rn, imm, 0x2D),
        Arm64Insn::Mul { rd, rn, rm } => mul_bytes(rd, rn, rm),
        Arm64Insn::UDiv { rd, rn, rm } => udiv_bytes(rd, rn, rm),
        Arm64Insn::AndReg { rd, rn, rm } => alu_reg_reg_bytes(rd, rn, rm, 0x21),
        Arm64Insn::OrrReg { rd, rn, rm } => alu_reg_reg_bytes(rd, rn, rm, 0x09),
        Arm64Insn::EorReg { rd, rn, rm } => alu_reg_reg_bytes(rd, rn, rm, 0x31),
        Arm64Insn::Lsl { rd, rn, rm } => shift_bytes(rd, rn, rm, 4),
        Arm64Insn::Lsr { rd, rn, rm } => shift_bytes(rd, rn, rm, 5),
        Arm64Insn::LdrImm { rt, rn, imm } => ldr_imm_bytes(rt, rn, imm),
        Arm64Insn::LdrReg { rt, rn, rm } => ldr_reg_bytes(rt, rn, rm),
        Arm64Insn::StrImm { rt, rn, imm } => str_imm_bytes(rt, rn, imm),
        Arm64Insn::StrReg { rt, rn, rm } => str_reg_bytes(rt, rn, rm),
        Arm64Insn::Branch { offset } => rel32_bytes(0xE9, offset),
        Arm64Insn::BranchLink { offset } => rel32_bytes(0xE8, offset),
        Arm64Insn::BranchReg { rn } => branch_reg_bytes(rn),
        Arm64Insn::Ret => seq![X86_RET],
        Arm64Insn::Mov { rd, rn } => mov_bytes(rd, rn),
        Arm64Insn::MovImm { rd, imm } => mov_imm_bytes(rd, imm),
        Arm64Insn::Nop => seq![X86_NOP],
    }
}

/// A code buffer that ends in RET: the buffer itself when its last byte is
/// already RET, else the buffer with RET appended.
pub open spec fn finalized(code: Seq<u8>) -> Seq<u8> {
    if code.len() > 0 && code.last() == X86_RET {
        code
    } else {
        code.push(X86_RET)
    }
}

// ---------------------------------------------------------------------------
// The emitter

/// Buffer for emitting x86_64 machine code.
pub struct X86Emitter {
    /// The code emitted so far.
    pub code: Vec<u8>,
    /// Base offset of the register file array.
    pub regfile_offset: i32,
}

impl X86Emitter {
    /// An emitter with an empty buffer.
    pub fn new() -> (e: Self)
        ensures
            e.code@ == Seq::<u8>::empty(),
            e.regfile_offset == 0,
    {
        X86Emitter { code: Vec::with_capacity(4096), regfile_offset: 0 }
    }

    /// Appends one byte.
    pub fn emit(&mut self, byte: u8)
        ensures
            final(self).code@ == old(self).code@.push(byte),
    {
        self.code.push(byte);
    }

    /// Appends bytes.
    pub fn emit_bytes(&mut self, bytes: &[u8])
        ensures
            final(self).code@ == old(self).code@ + bytes@,
    {
        push_all(&mut self.code, bytes);
    }

    /// Emits `MOV x86_reg, [RDI + 8 * arm_idx]`.
    fn emit_load_arm_reg(&mut self, x86_reg: u8, arm_idx: u8)
        ensures
            final(self).code@ == old(self).code@ + load_arm_reg_bytes(x86_reg, arm_idx),
    {
        let offset = (arm_idx as i32) * 8;
        self.emit(REX_W);
        self.emit(0x8B);
        self.emit_modrm_disp(x86_reg, RDI, offset);
        assert(self.code@ =~= old(self).code@ + load_arm_reg_bytes(x86_reg, arm_idx));
    }

    /// Emits `MOV [RDI + 8 * arm_idx], x86_reg`.
    fn emit_store_arm_reg(&mut self, arm_idx: u8, x86_reg: u8)
        ensures
            final(self).code@ == old(self).code@ + store_arm_reg_bytes(arm_idx, x86_reg),
    {
        let offset = (arm_idx as i32) * 8;
        self.emit(REX_W);
        self.emit(0x89);
        self.emit_modrm_disp(x86_reg, RDI, offset);
        assert(self.code@ =~= old(self).code@ + store_arm_reg_bytes(arm_idx, x86_reg));
    }

    /// Emits ModRM and displacement for `[base + disp]`.
    fn emit_modrm_disp(&mut self, reg: u8, base: u8, disp: i32)
        ensures
            final(self).code@ == old(self).code@ + modrm_disp_bytes(reg, base, disp),
    {
        if disp == 0 && base != 5 {
            self.emit(((reg & 7) << 3) | (base & 7));
        } else if disp >= -128 && disp <= 127 {
            self.emit(0x40 | ((reg & 7) << 3) | (base & 7));
            self.emit(disp as u8);
        } else {
            self.emit(0x80 | ((reg & 7) << 3) | (base & 7));
            let d = u32_le(disp as u32);
            self.emit_bytes(&d);
        }
        assert(self.code@ =~= old(self).code@ + modrm_disp_bytes(reg, base, disp));
    }

    /// Emits a register-to-register ModRM byte.
    fn emit_modrm_reg(&mut self, reg: u8, rm: u8)
        ensures
            final(self).code@ == old(self).code@.push(modrm_reg_byte(reg, rm)),
    {
        self.emit(0xC0 | ((reg & 7) << 3) | (rm & 7));
    }

    /// Emits `MOV reg, imm64`.
    fn emit_mov_imm64(&mut self, reg: u8, imm: u64)
        ensures
            final(self).code@ == old(self).code@ + mov_imm64_bytes(reg, imm),
    {
        self.emit(REX_W);
        assert(reg & 7u8 <= 7u8) by (bit_vector);
        self.emit(0xB8 + (reg & 7));
        let b = u64_le(imm);
        self.emit_bytes(&b);
        assert(self.code@ =~= old(self).code@ + mov_imm64_bytes(reg, imm));
    }

    /// Emits a 32-bit immediate.
    fn emit_imm32(&mut self, imm: i32)
        ensures
            final(self).code@ == old(self).code@ + imm32_bytes(imm),
    {
        let b = u32_le(imm as u32);
        self.emit_bytes(&b);
    }

    /// Emits a two-register ALU operation (ADD, SUB, AND, OR, XOR) through
    /// RAX and RCX.
    fn emit_alu_reg_reg(&mut self, rd: u8, rn: u8, rm: u8, opcode: u8)
        ensures
            final(self).code@ == old(self).code@ + alu_reg_reg_bytes(rd, rn, rm, opcode),
    {
        self.emit_load_arm_reg(RAX, rn);
        self.emit_load_arm_reg(RCX, rm);
        self.emit(REX_W);
        self.emit(opcode);
        self.emit_modrm_reg(RCX, RAX);
        self.emit_store_arm_reg(rd, RAX);
        assert(self.code@ =~= old(self).code@ + alu_reg_reg_bytes(rd, rn, rm, opcode));
    }

    /// Emits the translation of one ARM64 instruction.
    pub fn emit_instruction(&mut self, insn: &Arm64Insn)
        ensures
            final(self).code@ == old(self).code@ + insn_bytes(*insn),
    {
        match insn {
            Arm64Insn::AddReg { rd, rn, rm } => self.emit_alu_reg_reg(*rd, *rn, *rm, 0x01),
            Arm64Insn::AddImm { rd, rn, imm } => self.emit_imm_alu(*rd, *rn, *imm, 0x05),
            Arm64Insn::SubReg { rd, rn, rm } => self.emit_alu_reg_reg(*rd, *rn, *rm, 0x29),
            Arm64Insn::SubImm { rd, rn, imm } => self.emit_imm_alu(*rd, *rn, *imm, 0x2D),
            Arm64Insn::Mul { rd, rn, rm } => self.emit_mul(*rd, *rn, *rm),
            Arm64Insn::UDiv { rd, rn, rm } => self.emit_udiv(*rd, *rn, *rm),
            Arm64Insn::AndReg { rd, rn, rm } => self.emit_alu_reg_reg(*rd, *rn, *rm, 0x21),
            Arm64Insn::OrrReg { rd, rn, rm } => self.emit_alu_reg_reg(*rd, *rn, *rm, 0x09),
            Arm64Insn::EorReg { rd, rn, rm } => self.emit_alu_reg_reg(*rd, *rn, *rm, 0x31),
            Arm64Insn::Lsl { rd, rn, rm } => self.emit_shift(*rd, *rn, *rm, 4),
            Arm64Insn::Lsr { rd, rn, rm } => self.emit_shift(*rd, *rn, *rm, 5),
            Arm64Insn::LdrImm { rt, rn, imm } => self.emit_ldr_imm(*rt, *rn, *imm),
            Arm64Insn::LdrReg { rt, rn, rm } => self.emit_ldr_reg(*rt, *rn, *rm),
            Arm64Insn::StrImm { rt, rn, imm } => self.emit_str_imm(*rt, *rn, *imm),
            Arm64Insn::StrReg { rt, rn, rm } => self.emit_str_reg(*rt, *rn, *rm),
            // JMP rel32; the branch ends the basic block.
            Arm64Insn::Branch { offset } => self.emit_rel32(0xE9, *offset),
            // CALL rel32; the branch ends the basic block.
            Arm64Insn::BranchLink { offset } => self.emit_rel32(0xE8, *offset),
            Arm64Insn::BranchReg { rn } => self.emit_branch_reg(*rn),
            Arm64Insn::Ret => self.emit(X86_RET),
            Arm64Insn::Mov { rd, rn } => self.emit_mov(*rd, *rn),
            Arm64Insn::MovImm { rd, imm } => self.emit_mov_imm(*rd, *imm),
            Arm64Insn::Nop => self.emit(X86_NOP),
        }
    }

    /// `RAX = Xn; OP RAX, imm32; Xd = RAX`.
    fn emit_imm_alu(&mut self, rd: u8, rn: u8, imm: u16, opcode: u8)
        ensures
            final(self).code@ == old(self).code@ + imm_alu_bytes(rd, rn, imm, opcode),
    {
        self.emit_load_arm_reg(RAX, rn);
        self.emit(REX_W);
        self.emit(opcode);
        self.emit_imm32(imm as i32);
        self.emit_store_arm_reg(rd, RAX);
        assert(self.code@ =~= old(self).code@ + imm_alu_bytes(rd, rn, imm, opcode));
    }

    /// `IMUL RAX, RCX` between two ARM64 registers.
    fn emit_mul(&mut self, rd: u8, rn: u8, rm: u8)
        ensures
            final(self).code@ == old(self).code@ + mul_bytes(rd, rn, rm),
    {
        self.emit_load_arm_reg(RAX, rn);
        self.emit_load_arm_reg(RCX, rm);
        self.emit(REX_W);
        self.emit(0x0F);
        self.emit(0xAF);
        self.emit_modrm_reg(RAX, RCX);
        self.emit_store_arm_reg(rd, RAX);
        assert(self.code@ =~= old(self).code@ + mul_bytes(rd, rn, rm));
    }

    /// `DIV RCX` with RDX cleared: unsigned division of two ARM64 registers.
    fn emit_udiv(&mut self, rd: u8, rn: u8, rm: u8)
        ensures
            final(self).code@ == old(self).code@ + udiv_bytes(rd, rn, rm),
    {
        self.emit_load_arm_reg(RAX, rn);
        self.emit(REX_W);
        self.emit(0x31);
        self.emit_modrm_reg(RDX, RDX);
        self.emit_load_arm_reg(RCX, rm);
        self.emit(REX_W);
        self.emit(0xF7);
        self.emit_modrm_reg(6, RCX);
        self.emit_store_arm_reg(rd, RAX);
        assert(self.code@ =~= old(self).code@ + udiv_bytes(rd, rn, rm));
    }

    /// `SHL/SHR RAX, CL` between two ARM64 registers.
    fn emit_shift(&mut self, rd: u8, rn: u8, rm: u8, ext: u8)
        ensures
            final(self).code@ == old(self).code@ + shift_bytes(rd, rn, rm, ext),
    {
        self.emit_load_arm_reg(RAX, rn);
        self.emit_load_arm_reg(RCX, rm);
        self.emit(REX_W);
        self.emit(0xD3);
        self.emit_modrm_reg(ext, RAX);
        self.emit_store_arm_reg(rd, RAX);
        assert(self.code@ =~= old(self).code@ + shift_bytes(rd, rn, rm, ext));
    }

    /// Load from `[Xn + imm]` into Xt.
    fn emit_ldr_imm(&mut self, rt: u8, rn: u8, imm: i16)
        ensures
            final(self).code@ == old(self).code@ + ldr_imm_bytes(rt, rn, imm),
    {
        self.emit_load_arm_reg(RAX, rn);
        if imm != 0 {
            self.emit(REX_W);
            self.emit(0x05);
            self.emit_imm32(imm as i32);
        }
        self.emit(REX_W);
        self.emit(0x8B);
        self.emit(0x00);
        self.emit_store_arm_reg(rt, RAX);
        assert(self.code@ =~= old(self).code@ + ldr_imm_bytes(rt, rn, imm));
    }

    /// Load from `[Xn + Xm]` into Xt.
    fn emit_ldr_reg(&mut self, rt: u8, rn: u8, rm: u8)
        ensures
            final(self).code@ == old(self).code@ + ldr_reg_bytes(rt, rn, rm),
    {
        self.emit_load_arm_reg(RAX, rn);
        self.emit_load_arm_reg(RCX, rm);
        self.emit(REX_W);
        self.emit(0x01);
        self.emit_modrm_reg(RCX, RAX);
        self.emit(REX_W);
        self.emit(0x8B);
        self.emit(0x00);
        self.emit_store_arm_reg(rt, RAX);
        assert(self.code@ =~= old(self).code@ + ldr_reg_bytes(rt, rn, rm));
    }

    /// Store Xt to `[Xn + imm]`.
    fn emit_str_imm(&mut self, rt: u8, rn: u8, imm: i16)
        ensures
            final(self).code@ == old(self).code@ + str_imm_bytes(rt, rn, imm),
    {
        self.emit_load_arm_reg(RCX, rn);
        if imm != 0 {
            self.emit(REX_W);
            self.emit(0x81);
            self.emit_modrm_reg(0, RCX);
            self.emit_imm32(imm as i32);
        }
        self.emit_load_arm_reg(RAX, rt);
        self.emit(REX_W);
        self.emit(0x89);
        self.emit(0x01);
        assert(self.code@ =~= old(self).code@ + str_imm_bytes(rt, rn, imm));
    }

    /// Store Xt to `[Xn + Xm]`.
    fn emit_str_reg(&mut self, rt: u8, rn: u8, rm: u8)
        ensures
            final(self).code@ == old(self).code@ + str_reg_bytes(rt, rn, rm),
    {
        self.emit_load_arm_reg(RCX, rn);
        self.emit_load_arm_reg(RDX, rm);
        self.emit(REX_W);
        self.emit(0x01);
        self.emit_modrm_reg(RDX, RCX);
        self.emit_load_arm_reg(RAX, rt);
        self.emit(REX_W);
        self.emit(0x89);
        self.emit(0x01);
        assert(self.code@ =~= old(self).code@ + str_reg_bytes(rt, rn, rm));
    }

    /// A relative jump or call.
    fn emit_rel32(&mut self, opcode: u8, offset: i32)
        ensures
            final(self).code@ == old(self).code@ + rel32_bytes(opcode, offset),
    {
        self.emit(opcode);
        self.emit_imm32(offset);
        assert(self.code@ =~= old(self).code@ + rel32_bytes(opcode, offset));
    }

    /// `JMP RAX` with RAX = Xn.
    fn emit_branch_reg(&mut self, rn: u8)
        ensures
            final(self).code@ == old(self).code@ + branch_reg_bytes(rn),
    {
        self.emit_load_arm_reg(RAX, rn);
        self.emit(0xFF);
        self.emit_modrm_reg(4, RAX);
        assert(self.code@ =~= old(self).code@ + branch_reg_bytes(rn));
    }

    /// Xd = Xn through RAX.
    fn emit_mov(&mut self, rd: u8, rn: u8)
        ensures
            final(self).code@ == old(self).code@ + mov_bytes(rd, rn),
    {
        self.emit_load_arm_reg(RAX, rn);
        self.emit_store_arm_reg(rd, RAX);
        assert(self.code@ =~= old(self).code@ + mov_bytes(rd, rn));
    }

    /// Xd = imm64 through RAX.
    fn emit_mov_imm(&mut self, rd: u8, imm: u64)
        ensures
            final(self).code@ == old(self).code@ + mov_imm_bytes(rd, imm),
    {
        self.emit_mov_imm64(RAX, imm);
        self.emit_store_arm_reg(rd, RAX);
        assert(self.code@ =~= old(self).code@ + mov_imm_bytes(rd, imm));
    }

    /// Ends the code with RET unless it already does.
    pub fn finalize(&mut self)
        ensures
            final(self).code@ == finalized(old(self).code@),
    {
        let n = self.code.len();
        if n == 0 || self.code[n - 1] != X86_RET {
            self.emit(X86_RET);
        }
    }

    /// The emitted code.
    pub fn into_code(self) -> (code: Vec<u8>)
        ensures
            code@ == self.code@,
    {
        self.code
    }
}

} // verus!
