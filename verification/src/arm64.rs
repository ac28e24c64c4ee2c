//! Decoding of 32-bit ARM64 instruction words into the operations the
//! translator supports.
use vstd::prelude::*;

verus! {

/// Why translation failed.
#[derive(Debug, Clone, PartialEq, Eq)]
pub enum JitError {
    /// An instruction word the decoder does not support.
    UnknownInstruction(u32),
    /// Executable memory could not be allocated.
    MemoryAlloc(String),
    /// Execution faulted at a PC, with a reason.
    ExecutionFault(u64, String),
    /// The ARM64 code length (in bytes) is not a multiple of 4.
    MisalignedCode(usize),
}

/// A decoded ARM64 instruction.
#[derive(Debug, Clone, Copy)]
pub enum Arm64Insn {
    /// ADD Xd, Xn, Xm
    AddReg { rd: u8, rn: u8, rm: u8 },
    /// ADD Xd, Xn, #imm12
    AddImm { rd: u8, rn: u8, imm: u16 },
    /// SUB Xd, Xn, Xm
    SubReg { rd: u8, rn: u8, rm: u8 },
    /// SUB Xd, Xn, #imm12
    SubImm { rd: u8, rn: u8, imm: u16 },
    /// MUL Xd, Xn, Xm (MADD with Xa = XZR)
    Mul { rd: u8, rn: u8, rm: u8 },
    /// UDIV Xd, Xn, Xm
    UDiv { rd: u8, rn: u8, rm: u8 },
    /// AND Xd, Xn, Xm
    AndReg { rd: u8, rn: u8, rm: u8 },
    /// ORR Xd, Xn, Xm
    OrrReg { rd: u8, rn: u8, rm: u8 },
    /// EOR Xd, Xn, Xm
    EorReg { rd: u8, rn: u8, rm: u8 },
    /// LSL Xd, Xn, Xm
    Lsl { rd: u8, rn: u8, rm: u8 },
    /// LSR Xd, Xn, Xm
    Lsr { rd: u8, rn: u8, rm: u8 },
    /// LDR Xt, [Xn, #imm]
    LdrImm { rt: u8, rn: u8, imm: i16 },
    /// LDR Xt, [Xn, Xm]
    LdrReg { rt: u8, rn: u8, rm: u8 },
    /// STR Xt, [Xn, #imm]
    StrImm { rt: u8, rn: u8, imm: i16 },
    /// STR Xt, [Xn, Xm]
    StrReg { rt: u8, rn: u8, rm: u8 },
    /// B #offset (unconditional branch)
    Branch { offset: i32 },
    /// BL #offset (branch with link)
    BranchLink { offset: i32 },
    /// BR Xn (branch to register)
    BranchReg { rn: u8 },
    /// RET (BR X30)
    Ret,
    /// MOV Xd, Xn (ORR Xd, XZR, Xn)
    Mov { rd: u8, rn: u8 },
    /// MOVZ Xd, #imm16, LSL #(16 * hw)
    MovImm { rd: u8, imm: u64 },
    /// NOP
    Nop,
}

/// The encoding of NOP.
pub const NOP_WORD: u32 = 0xD503201F;

/// Whether an instruction ends a basic block.
pub open spec fn ends_block(insn: Arm64Insn) -> bool {
    match insn {
        Arm64Insn::Branch { .. } | Arm64Insn::BranchLink { .. } | Arm64Insn::BranchReg { .. }
        | Arm64Insn::Ret => true,
        _ => false,
    }
}

/// The decoder's answer for a word, given what the table says it is.
pub open spec fn decoded(insn: u32, d: Option<Arm64Insn>) -> Result<Arm64Insn, JitError> {
    match d {
        Some(i) => Ok(i),
        None => Err(JitError::UnknownInstruction(insn)),
    }
}

// ---------------------------------------------------------------------------
// The decoding table

/// Destination register field, bits [4:0].
pub open spec fn field_rd(insn: u32) -> u8 {
    (insn & 0x1F) as u8
}

/// First source register field, bits [9:5].
pub open spec fn field_rn(insn: u32) -> u8 {
    ((insn >> 5u32) & 0x1F) as u8
}

/// Second source register field, bits [20:16].
pub open spec fn field_rm(insn: u32) -> u8 {
    ((insn >> 16u32) & 0x1F) as u8
}

/// The bits that identify a two-register data-processing instruction with
/// no shift, extension or accumulator: everything but Rm, Rn and Rd.
pub const REG3_MASK: u32 = 0xFFE0FC00;

/// What a word of the data-processing (register) class decodes to: 64-bit
/// ADD/SUB (shifted register, shift 0); the logical (shifted register) group
/// by its opc field, AND, ORR and EOR, whatever its shift, N and imm6 fields;
/// a multiply-add with XZR as addend as MUL; and UDIV, LSLV, LSRV.
pub open spec fn spec_decode_data_processing_reg(insn: u32) -> Option<Arm64Insn> {
    let rd = field_rd(insn);
    let rn = field_rn(insn);
    let rm = field_rm(insn);
    let key = insn & REG3_MASK;
    let opc2 = (insn >> 29u32) & 0x3;
    if key == 0x8B00_0000 {
        Some(Arm64Insn::AddReg { rd, rn, rm })
    } else if key == 0xCB00_0000 {
        Some(Arm64Insn::SubReg { rd, rn, rm })
    } else if (insn >> 24u32) & 0x1F == 0b01010 {
        if opc2 == 0b00 {
            Some(Arm64Insn::AndReg { rd, rn, rm })
        } else if opc2 == 0b01 {
            Some(Arm64Insn::OrrReg { rd, rn, rm })
        } else if opc2 == 0b10 {
            Some(Arm64Insn::EorReg { rd, rn, rm })
        } else {
            None
        }
    } else if insn & 0xFFE0_7C00 == 0x9B00_7C00 {
        Some(Arm64Insn::Mul { rd, rn, rm })
    } else if key == 0x9AC0_0800 {
        Some(Arm64Insn::UDiv { rd, rn, rm })
    } else if key == 0x9AC0_2000 {
        Some(Arm64Insn::Lsl { rd, rn, rm })
    } else if key == 0x9AC0_2400 {
        Some(Arm64Insn::Lsr { rd, rn, rm })
    } else {
        None
    }
}

/// The 12-bit immediate of ADD/SUB (immediate), shifted left by 12 within
/// 16 bits when the shift field (bits [23:22]) is 1.
pub open spec fn add_sub_imm(insn: u32) -> u16 {
    let imm12 = ((insn >> 10u32) & 0xFFF) as u16;
    if ((insn >> 22u32) & 0x3) as u8 == 1 {
        imm12 << 12u16
    } else {
        imm12
    }
}

/// The value loaded by MOVZ: imm16 shifted left by 16 * hw.
pub open spec fn movz_imm(insn: u32) -> u64 {
    let hw = ((insn >> 21u32) & 0x3) as u8;
    let imm16 = ((insn >> 5u32) & 0xFFFF) as u64;
    imm16 << ((hw * 16) as u8)
}

/// What a word of the data-processing (immediate) class decodes to, by its
/// 64-bit encoding: ADD and SUB (immediate) and MOVZ.
pub open spec fn spec_decode_data_processing_imm(insn: u32) -> Option<Arm64Insn> {
    let rd = field_rd(insn);
    let rn = field_rn(insn);
    let key = insn & 0xFF80_0000;
    if key == 0x9100_0000 {
        Some(Arm64Insn::AddImm { rd, rn, imm: add_sub_imm(insn) })
    } else if key == 0xD100_0000 {
        Some(Arm64Insn::SubImm { rd, rn, imm: add_sub_imm(insn) })
    } else if key == 0xD280_0000 {
        Some(Arm64Insn::MovImm { rd, imm: movz_imm(insn) })
    } else {
        None
    }
}

/// The unsigned 12-bit offset of LDR/STR (unsigned offset), scaled by 8.
pub open spec fn scaled_imm12(insn: u32) -> i16 {
    ((((insn >> 10u32) & 0xFFF) as i16) * 8) as i16
}

/// The signed 9-bit offset of bits [20:12], sign-extended.
pub open spec fn signed_imm9(insn: u32) -> i16 {
    let imm9 = ((insn >> 12u32) & 0x1FF) as i16;
    if imm9 & 0x100i16 != 0 {
        imm9 | (!0x1FFi16)
    } else {
        imm9
    }
}

/// What a word of the load/store class decodes to: 64-bit LDR/STR (unsigned
/// offset) and LDR/STR (register offset, no extension or shift); a word
/// whose bits [29:24] are 111110 loads or stores (by bit 22) at a signed
/// 9-bit offset.
pub open spec fn spec_decode_load_store(insn: u32) -> Option<Arm64Insn> {
    let rt = field_rd(insn);
    let rn = field_rn(insn);
    let rm = field_rm(insn);
    if insn & 0xFFC0_0000 == 0xF940_0000 {
        Some(Arm64Insn::LdrImm { rt, rn, imm: scaled_imm12(insn) })
    } else if insn & 0xFFC0_0000 == 0xF900_0000 {
        Some(Arm64Insn::StrImm { rt, rn, imm: scaled_imm12(insn) })
    } else if insn & REG3_MASK == 0xF860_6800 {
        Some(Arm64Insn::LdrReg { rt, rn, rm })
    } else if insn & REG3_MASK == 0xF820_6800 {
        Some(Arm64Insn::StrReg { rt, rn, rm })
    } else if (insn >> 24u32) & 0x3F == 0b111110 {
        if (insn >> 22u32) & 1 == 1 {
            Some(Arm64Insn::LdrImm { rt, rn, imm: signed_imm9(insn) })
        } else {
            Some(Arm64Insn::StrImm { rt, rn, imm: signed_imm9(insn) })
        }
    } else {
        None
    }
}

/// The 26-bit branch offset, sign-extended and scaled by 4.
pub open spec fn branch_offset(insn: u32) -> i32 {
    let imm26 = (insn & 0x03FF_FFFF) as i32;
    if imm26 & (1i32 << 25i32) != 0 {
        ((imm26 | !0x03FF_FFFFi32) * 4) as i32
    } else {
        (imm26 * 4) as i32
    }
}

/// What a word of the branch class decodes to: B, BL, BR Xn and RET.
pub open spec fn spec_decode_branch(insn: u32) -> Option<Arm64Insn> {
    if insn & 0xFC00_0000 == 0x1400_0000 {
        Some(Arm64Insn::Branch { offset: branch_offset(insn) })
    } else if insn & 0xFC00_0000 == 0x9400_0000 {
        Some(Arm64Insn::BranchLink { offset: branch_offset(insn) })
    } else if insn & 0xFFFF_FC00 == 0xD61F_0000 {
        Some(Arm64Insn::BranchReg { rn: field_rn(insn) })
    } else if insn & 0xFFFF_FC1F == 0xD65F_0000 {
        Some(Arm64Insn::Ret)
    } else {
        None
    }
}

/// What a 32-bit ARM64 word decodes to: NOP, then by instruction class
/// (bits [28:25] and, for data processing, the 64-bit flag in bit 31).
pub open spec fn spec_decode_arm64(insn: u32) -> Option<Arm64Insn> {
    let op0 = (insn >> 25u32) & 0xF;
    let top_bit = (insn >> 31u32) & 1;
    if insn == NOP_WORD {
        Some(Arm64Insn::Nop)
    } else if op0 & 0b0111 == 0b0101 && top_bit == 1 {
        spec_decode_data_processing_reg(insn)
    } else if op0 & 0b1110 == 0b1000 && top_bit == 1 {
        spec_decode_data_processing_imm(insn)
    } else if op0 & 0b0101 == 0b0100 {
        spec_decode_load_store(insn)
    } else if op0 & 0b0110 == 0b0010 {
        spec_decode_branch(insn)
    } else {
        None
    }
}

// ---------------------------------------------------------------------------
// The decoder

/// Decodes a single 32-bit ARM64 instruction.
pub fn decode_arm64(insn: u32) -> (r: Result<Arm64Insn, JitError>)
    ensures
        r == decoded(insn, spec_decode_arm64(insn)),
{
    let op0 = (insn >> 25) & 0xF;
    let top_bit = (insn >> 31) & 1;

    if insn == NOP_WORD {
        return Ok(Arm64Insn::Nop);
    }
    // Data processing, register (op0 = x101)
    if op0 & 0b0111 == 0b0101 && top_bit == 1 {
        return decode_data_processing_reg(insn);
    }
    // Data processing, immediate (op0 = 100x)
    if op0 & 0b1110 == 0b1000 && top_bit == 1 {
        return decode_data_processing_imm(insn);
    }
    // Load/store (op0 = x1x0)
    if op0 & 0b0101 == 0b0100 {
        return decode_load_store(insn);
    }
    // Branch (op0 = x01x)
    if op0 & 0b0110 == 0b0010 {
        return decode_branch(insn);
    }
    Err(JitError::UnknownInstruction(insn))
}

fn decode_data_processing_reg(insn: u32) -> (r: Result<Arm64Insn, JitError>)
    ensures
        r == decoded(insn, spec_decode_data_processing_reg(insn)),
{
    let rd = (insn & 0x1F) as u8;
    let rn = ((insn >> 5) & 0x1F) as u8;
    let rm = ((insn >> 16) & 0x1F) as u8;
    let key = insn & REG3_MASK;
    let opc2 = (insn >> 29) & 0x3;
    if key == 0x8B00_0000 {
        // ADD Xd, Xn, Xm
        Ok(Arm64Insn::AddReg { rd, rn, rm })
    } else if key == 0xCB00_0000 {
        // SUB Xd, Xn, Xm
        Ok(Arm64Insn::SubReg { rd, rn, rm })
    } else if (insn >> 24) & 0x1F == 0b01010 {
        // Logical (shifted register): AND, ORR, EOR
        if opc2 == 0b00 {
            Ok(Arm64Insn::AndReg { rd, rn, rm })
        } else if opc2 == 0b01 {
            Ok(Arm64Insn::OrrReg { rd, rn, rm })
        } else if opc2 == 0b10 {
            Ok(Arm64Insn::EorReg { rd, rn, rm })
        } else {
            Err(JitError::UnknownInstruction(insn))
        }
    } else if insn & 0xFFE0_7C00 == 0x9B00_7C00 {
        // MADD Xd, Xn, Xm, XZR is MUL Xd, Xn, Xm
        Ok(Arm64Insn::Mul { rd, rn, rm })
    } else if key == 0x9AC0_0800 {
        Ok(Arm64Insn::UDiv { rd, rn, rm })
    } else if key == 0x9AC0_2000 {
        // LSLV
        Ok(Arm64Insn::Lsl { rd, rn, rm })
    } else if key == 0x9AC0_2400 {
        // LSRV
        Ok(Arm64Insn::Lsr { rd, rn, rm })
    } else {
        Err(JitError::UnknownInstruction(insn))
    }
}

fn decode_data_processing_imm(insn: u32) -> (r: Result<Arm64Insn, JitError>)
    ensures
        r == decoded(insn, spec_decode_data_processing_imm(insn)),
{
    let rd = (insn & 0x1F) as u8;
    let rn = ((insn >> 5) & 0x1F) as u8;
    let imm12 = ((insn >> 10) & 0xFFF) as u16;
    let shift = ((insn >> 22) & 0x3) as u8;
    let actual_imm = if shift == 1 {
        imm12 << 12u16
    } else {
        imm12
    };
    let key = insn & 0xFF80_0000;
    if key == 0x9100_0000 {
        // ADD Xd, Xn, #imm
        Ok(Arm64Insn::AddImm { rd, rn, imm: actual_imm })
    } else if key == 0xD100_0000 {
        // SUB Xd, Xn, #imm
        Ok(Arm64Insn::SubImm { rd, rn, imm: actual_imm })
    } else if key == 0xD280_0000 {
        // MOVZ Xd, #imm16, LSL #(16 * hw)
        let hw = ((insn >> 21) & 0x3) as u8;
        let imm16 = ((insn >> 5) & 0xFFFF) as u64;
        assert(((insn >> 21u32) & 0x3) <= 3) by (bit_vector);
        let amount: u8 = hw * 16;
        let shifted = imm16 << amount;
        Ok(Arm64Insn::MovImm { rd, imm: shifted })
    } else {
        Err(JitError::UnknownInstruction(insn))
    }
}

fn decode_load_store(insn: u32) -> (r: Result<Arm64Insn, JitError>)
    ensures
        r == decoded(insn, spec_decode_load_store(insn)),
{
    let rt = (insn & 0x1F) as u8;
    let rn = ((insn >> 5) & 0x1F) as u8;
    let rm = ((insn >> 16) & 0x1F) as u8;
    assert(((insn >> 10u32) & 0xFFF) <= 0xFFF) by (bit_vector);
    if insn & 0xFFC0_0000 == 0xF940_0000 {
        // LDR Xt, [Xn, #imm], unsigned offset scaled by 8
        let imm12 = ((insn >> 10) & 0xFFF) as i16;
        Ok(Arm64Insn::LdrImm { rt, rn, imm: imm12 * 8 })
    } else if insn & 0xFFC0_0000 == 0xF900_0000 {
        // STR Xt, [Xn, #imm], unsigned offset scaled by 8
        let imm12 = ((insn >> 10) & 0xFFF) as i16;
        Ok(Arm64Insn::StrImm { rt, rn, imm: imm12 * 8 })
    } else if insn & REG3_MASK == 0xF860_6800 {
        // LDR Xt, [Xn, Xm]
        Ok(Arm64Insn::LdrReg { rt, rn, rm })
    } else if insn & REG3_MASK == 0xF820_6800 {
        // STR Xt, [Xn, Xm]
        Ok(Arm64Insn::StrReg { rt, rn, rm })
    } else if (insn >> 24) & 0x3F == 0b111110 {
        // Signed 9-bit offset
        let imm9 = ((insn >> 12) & 0x1FF) as i16;
        let imm_sext = if imm9 & 0x100 != 0 {
            imm9 | (!0x1FFi16)
        } else {
            imm9
        };
        if (insn >> 22) & 1 == 1 {
            Ok(Arm64Insn::LdrImm { rt, rn, imm: imm_sext })
        } else {
            Ok(Arm64Insn::StrImm { rt, rn, imm: imm_sext })
        }
    } else {
        Err(JitError::UnknownInstruction(insn))
    }
}

/// The 26-bit branch offset of a B/BL word, sign-extended and scaled by 4.
fn decode_branch_offset(insn: u32) -> (offset: i32)
    ensures
        offset == branch_offset(insn),
{
    assert((insn & 0x03FF_FFFFu32) <= 0x03FF_FFFF) by (bit_vector);
    let imm26 = (insn & 0x03FF_FFFF) as i32;
    if imm26 & (1 << 25) != 0 {
        assert(0 <= imm26 <= 0x03FF_FFFF && imm26 & (1i32 << 25i32) != 0 ==> (imm26
            | !0x03FF_FFFFi32) >= -0x0200_0000i32 && (imm26 | !0x03FF_FFFFi32) < 0) by (bit_vector);
        (imm26 | !0x03FF_FFFF) * 4
    } else {
        imm26 * 4
    }
}

fn decode_branch(insn: u32) -> (r: Result<Arm64Insn, JitError>)
    ensures
        r == decoded(insn, spec_decode_branch(insn)),
{
    if insn & 0xFC00_0000 == 0x1400_0000 {
        // B: 000101 imm26
        let offset = decode_branch_offset(insn);
        Ok(Arm64Insn::Branch { offset })
    } else if insn & 0xFC00_0000 == 0x9400_0000 {
        // BL: 100101 imm26
        let offset = decode_branch_offset(insn);
        Ok(Arm64Insn::BranchLink { offset })
    } else if insn & 0xFFFF_FC00 == 0xD61F_0000 {
        // BR Xn: 1101011 0000 11111 000000 Rn xxxxx
        let rn = ((insn >> 5) & 0x1F) as u8;
        Ok(Arm64Insn::BranchReg { rn })
    } else if insn & 0xFFFF_FC1F == 0xD65F_0000 {
        // RET Xn: 1101011 0010 11111 000000 Rn 00000
        Ok(Arm64Insn::Ret)
    } else {
        Err(JitError::UnknownInstruction(insn))
    }
}

// ---------------------------------------------------------------------------
// Laws

/// A 64-bit ADD or SUB (shifted register, shift 0) word decodes to ADD or
/// SUB of its register fields: Rd in bits [4:0], Rn in [9:5], Rm in [20:16].
pub proof fn lemma_decode_add_sub_register(insn: u32)
    requires
        insn & 0xFFE0_FC00 == 0x8B00_0000 || insn & 0xFFE0_FC00 == 0xCB00_0000,
    ensures
        ({
            let rd = (insn & 0x1F) as u8;
            let rn = ((insn >> 5u32) & 0x1F) as u8;
            let rm = ((insn >> 16u32) & 0x1F) as u8;
            spec_decode_arm64(insn) == if insn & 0x4000_0000 == 0 {
                Some(Arm64Insn::AddReg { rd, rn, rm })
            } else {
                Some(Arm64Insn::SubReg { rd, rn, rm })
            }
        }),
{
    assert((insn & 0xFFE0_FC00 == 0x8B00_0000 || insn & 0xFFE0_FC00 == 0xCB00_0000) ==> insn
        != NOP_WORD && ((insn >> 25u32) & 0xF) & 0b0111 == 0b0101 && (insn >> 31u32) & 1 == 1 && (
    insn & 0xFFE0_FC00 == 0x8B00_0000) == (insn & 0x4000_0000 == 0)) by (bit_vector);
}

/// A 64-bit ADD or SUB (immediate) word decodes to ADD or SUB of its Rd and
/// Rn fields and its 12-bit immediate (bits [21:10]), shifted left by 12
/// (keeping 16 bits) when bit 22 is set.
pub proof fn lemma_decode_add_sub_immediate(insn: u32)
    requires
        insn & 0xFF80_0000 == 0x9100_0000 || insn & 0xFF80_0000 == 0xD100_0000,
    ensures
        ({
            let rd = (insn & 0x1F) as u8;
            let rn = ((insn >> 5u32) & 0x1F) as u8;
            let imm12 = (insn >> 10u32) & 0xFFF;
            let imm = if insn & 0x40_0000 == 0 {
                imm12 as u16
            } else {
                ((imm12 * 0x1000) % 0x1_0000) as u16
            };
            spec_decode_arm64(insn) == if insn & 0x4000_0000 == 0 {
                Some(Arm64Insn::AddImm { rd, rn, imm })
            } else {
                Some(Arm64Insn::SubImm { rd, rn, imm })
            }
        }),
{
    assert((insn & 0xFF80_0000 == 0x9100_0000 || insn & 0xFF80_0000 == 0xD100_0000) ==> insn
        != NOP_WORD && ((insn >> 25u32) & 0xF) & 0b0111 != 0b0101 && ((insn >> 25u32) & 0xF)
        & 0b1110 == 0b1000 && (insn >> 31u32) & 1 == 1 && (insn & 0xFF80_0000 == 0x9100_0000) == (
    insn & 0x4000_0000 == 0) && (((insn >> 22u32) & 0x3) as u8 == 1) == (insn & 0x40_0000 != 0))
        by (bit_vector);
    let imm12 = (insn >> 10u32) & 0xFFF;
    assert(imm12 <= 0xFFF) by (bit_vector)
        requires
            imm12 == (insn >> 10u32) & 0xFFF,
    ;
    let i16v = imm12 as u16;
    assert(i16v <= 0xFFF ==> i16v << 12u16 == ((i16v * 0x1000) % 0x1_0000) as u16) by (bit_vector);
}

/// A 64-bit LDR or STR (unsigned offset) word loads or stores Rt at Rn plus
/// eight times its 12-bit offset field (bits [21:10]).
pub proof fn lemma_decode_load_store_unsigned_offset(insn: u32)
    requires
        insn & 0xFFC0_0000 == 0xF940_0000 || insn & 0xFFC0_0000 == 0xF900_0000,
    ensures
        ({
            let rt = (insn & 0x1F) as u8;
            let rn = ((insn >> 5u32) & 0x1F) as u8;
            let imm = (8 * ((insn >> 10u32) & 0xFFF)) as i16;
            spec_decode_arm64(insn) == if insn & 0x40_0000 != 0 {
                Some(Arm64Insn::LdrImm { rt, rn, imm })
            } else {
                Some(Arm64Insn::StrImm { rt, rn, imm })
            }
        }),
{
    assert((insn & 0xFFC0_0000 == 0xF940_0000 || insn & 0xFFC0_0000 == 0xF900_0000) ==> insn
        != NOP_WORD && ((insn >> 25u32) & 0xF) & 0b0111 != 0b0101 && ((insn >> 25u32) & 0xF)
        & 0b1110 != 0b1000 && ((insn >> 25u32) & 0xF) & 0b0101 == 0b0100 && (insn & 0xFFC0_0000
        == 0xF940_0000) == (insn & 0x40_0000 != 0)) by (bit_vector);
    let imm12 = (insn >> 10u32) & 0xFFF;
    assert(imm12 <= 0xFFF) by (bit_vector)
        requires
            imm12 == (insn >> 10u32) & 0xFFF,
    ;
}

/// A B or BL word branches by four times its 26-bit offset field, read as
/// a signed (two's complement) number.
pub proof fn lemma_decode_branch_immediate(insn: u32)
    requires
        insn & 0x7C00_0000 == 0x1400_0000,
    ensures
        ({
            let imm26 = (insn & 0x03FF_FFFF) as int;
            let offset = (4 * if imm26 < 0x0200_0000 {
                imm26
            } else {
                imm26 - 0x0400_0000
            }) as i32;
            spec_decode_arm64(insn) == if insn & 0x8000_0000 == 0 {
                Some(Arm64Insn::Branch { offset })
            } else {
                Some(Arm64Insn::BranchLink { offset })
            }
        }),
{
    assert(insn & 0x7C00_0000 == 0x1400_0000 ==> insn != NOP_WORD && ((insn >> 25u32) & 0xF)
        & 0b0111 != 0b0101 && (((insn >> 25u32) & 0xF) & 0b1110 != 0b1000 || (insn >> 31u32) & 1
        == 0) && ((insn >> 25u32) & 0xF) & 0b0101 != 0b0100 && ((insn >> 25u32) & 0xF) & 0b0110
        == 0b0010 && (insn & 0xFC00_0000 == 0x1400_0000) == (insn & 0x8000_0000 == 0) && (insn
        & 0xFC00_0000 == 0x9400_0000) == (insn & 0x8000_0000 != 0)) by (bit_vector);
    let imm26 = (insn & 0x03FF_FFFF) as i32;
    assert((insn & 0x03FF_FFFFu32) <= 0x03FF_FFFF) by (bit_vector);
    assert(imm26 == (insn & 0x03FF_FFFF) as int);
    assert(0 <= imm26 <= 0x03FF_FFFF ==> (imm26 & (1i32 << 25i32) != 0) == (imm26 >= 0x0200_0000)
        && (imm26 >= 0x0200_0000 ==> (imm26 | !0x03FF_FFFFi32) == imm26 - 0x0400_0000)) by (bit_vector);
    let x = (insn & 0x03FF_FFFF) as int;
    let expected = (4 * if x < 0x0200_0000 {
        x
    } else {
        x - 0x0400_0000
    }) as i32;
    assert(branch_offset(insn) == expected);
    if insn & 0x8000_0000 == 0 {
        assert(spec_decode_branch(insn) == Some(Arm64Insn::Branch { offset: expected }));
    } else {
        assert(spec_decode_branch(insn) == Some(Arm64Insn::BranchLink { offset: expected }));
    }
}

/// A MOVZ word (64-bit, `1101 0010 1` in bits [31:23]) decodes to MOVZ into
/// its register field, of its 16-bit immediate shifted left by 16 times its
/// two-bit hw field (bits [22:21]): by 0, 16, 32 or 48 bits.
pub proof fn lemma_decode_movz(insn: u32)
    requires
        insn & 0xFF80_0000 == 0xD280_0000,
    ensures
        spec_decode_arm64(insn) == Some(
            Arm64Insn::MovImm {
                rd: (insn & 0x1F) as u8,
                imm: (((insn >> 5u32) & 0xFFFF) as u64 as int * (if (insn >> 21u32) & 3 == 0 {
                    1int
                } else if (insn >> 21u32) & 3 == 1 {
                    0x1_0000int
                } else if (insn >> 21u32) & 3 == 2 {
                    0x1_0000_0000int
                } else {
                    0x1_0000_0000_0000int
                })) as u64,
            },
        ),
{
    assert(insn & 0xFF80_0000 == 0xD280_0000 ==> insn != NOP_WORD && ((insn >> 25u32) & 0xF) & 0b0111
        != 0b0101 && ((insn >> 25u32) & 0xF) & 0b1110 == 0b1000 && (insn >> 31u32) & 1 == 1)
        by (bit_vector);
    let imm16 = ((insn >> 5u32) & 0xFFFF) as u64;
    let hw = (insn >> 21u32) & 3;
    assert(((insn >> 5u32) & 0xFFFF) <= 0xFFFF) by (bit_vector);
    assert(imm16 <= 0xFFFF);
    assert(hw <= 3) by (bit_vector)
        requires
            hw == (insn >> 21u32) & 3,
    ;
    assert(imm16 <= 0xFFFF ==> imm16 << 0u8 == imm16 && imm16 << 16u8 == imm16 * 0x1_0000
        && imm16 << 32u8 == imm16 * 0x1_0000_0000 && imm16 << 48u8 == imm16 * 0x1_0000_0000_0000)
        by (bit_vector);
    assert(hw == 0 ==> ((hw as u8) * 16) as u8 == 0u8);
    assert(hw == 1 ==> ((hw as u8) * 16) as u8 == 16u8);
    assert(hw == 2 ==> ((hw as u8) * 16) as u8 == 32u8);
    assert(hw == 3 ==> ((hw as u8) * 16) as u8 == 48u8);
}

} // verus!
