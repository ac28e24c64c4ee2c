//! Translation of ARM64 basic blocks to x86_64 and sandboxed execution of
//! offloaded requests.
use crate::arm64::{decode_arm64, ends_block, spec_decode_arm64, Arm64Insn, JitError};
use crate::emitter::{
    finalized, insn_bytes, load_arm_reg_bytes, store_arm_reg_bytes, X86Emitter, RAX, RCX, RDI,
    X86_INT3,
};
use crate::interp::{
    execute_block, is_block_end, reg_value, run_block, start_effect, step, with_reg, word_at,
    BlockEffect,
};
use crate::le::{copy_range, read_u32_at};
use crate::protocol::{applied_registers, deltas_view, ExecutionResult, MemoryDelta, OffloadRequest};
use crate::sandbox::{byte_after_deltas, JitBlock, SessionState};
use vstd::bytes::*;
use vstd::prelude::*;
use vstd::wrapping::u64_specs;

verus! {

/// Syscall number of `write`.
pub const SYS_WRITE: u32 = 64;

/// Syscall number of `ioctl`.
pub const SYS_IOCTL: u32 = 29;

/// Syscall number of `futex`.
pub const SYS_FUTEX: u32 = 98;

/// The x86_64 code for instructions `i..n` of `code`: each decoded
/// instruction's translation, INT3 for a word that does not decode, and
/// nothing after the first branch.
pub open spec fn block_bytes(code: Seq<u8>, i: int, n: int) -> Seq<u8>
    decreases n - i,
{
    if i >= n || i < 0 {
        Seq::empty()
    } else {
        match spec_decode_arm64(word_at(code, i)) {
            Some(insn) => insn_bytes(insn) + if ends_block(insn) {
                Seq::empty()
            } else {
                block_bytes(code, i + 1, n)
            },
            None => seq![X86_INT3] + block_bytes(code, i + 1, n),
        }
    }
}

/// The number of instructions of the basic block that starts at
/// instruction `i` of `code` (of `n`): up to and including the first branch,
/// or to the end of the code.
pub open spec fn block_insn_count(code: Seq<u8>, i: int, n: int) -> nat
    decreases n - i,
{
    if i >= n || i < 0 {
        0
    } else {
        match spec_decode_arm64(word_at(code, i)) {
            Some(insn) => if ends_block(insn) {
                1
            } else {
                1 + block_insn_count(code, i + 1, n)
            },
            None => 1 + block_insn_count(code, i + 1, n),
        }
    }
}

/// A block holds no more instructions than the code it comes from.
pub proof fn lemma_block_insn_count_bound(code: Seq<u8>, i: int, n: int)
    requires
        0 <= i <= n,
    ensures
        block_insn_count(code, i, n) <= n - i,
    decreases n - i,
{
    if i < n {
        lemma_block_insn_count_bound(code, i + 1, n);
    }
}

/// `b` is the translation of the ARM64 code `code` starting at `start_pc`:
/// its instructions are those of the basic block, which ends at the first
/// branch, and its end PC is just past them.
pub open spec fn is_translation(b: JitBlock, code: Seq<u8>, start_pc: u64) -> bool {
    let n = code.len() / 4;
    let count = block_insn_count(code, 0, n as int);
    &&& b.code@ == finalized(block_bytes(code, 0, n as int))
    &&& b.arm64_insn_count == count
    &&& b.start_pc == start_pc
    &&& b.end_pc == start_pc + 4 * count
    &&& b.execution_count == 0
    &&& b.arm64_code@ == code.subrange(0, 4 * count as int)
}

/// Translates an ARM64 basic block to x86_64 machine code. Translation stops
/// after the first branch; a word that does not decode becomes INT3; the code
/// ends with RET. Fails when the code length is not a multiple of 4.
pub fn translate_block(arm64_code: &[u8], start_pc: u64) -> (r: Result<JitBlock, JitError>)
    requires
        arm64_code@.len() % 4 == 0 ==> start_pc + arm64_code@.len() <= u64::MAX,
    ensures
        arm64_code@.len() % 4 != 0 ==> r == Err::<JitBlock, JitError>(
            JitError::MisalignedCode(arm64_code@.len() as usize),
        ),
        arm64_code@.len() % 4 == 0 ==> (r matches Ok(b) && is_translation(b, arm64_code@, start_pc)),
{
    if arm64_code.len() % 4 != 0 {
        return Err(JitError::MisalignedCode(arm64_code.len()));
    }
    let mut emitter = X86Emitter::new();
    let code_len = arm64_code.len();
    let insn_count = code_len / 4;
    let ghost code = arm64_code@;
    let ghost n = insn_count as int;
    let mut i: usize = 0;
    let mut count: usize = 0;
    while i < insn_count
        invariant_except_break
            i <= n,
            count == i,
            emitter.code@ + block_bytes(code, i as int, n) == block_bytes(code, 0, n),
            i + block_insn_count(code, i as int, n) == block_insn_count(code, 0, n),
        invariant
            code == arm64_code@,
            n == insn_count,
            4 * n == code.len(),
            code_len == code.len(),
        ensures
            emitter.code@ == block_bytes(code, 0, n),
            count == block_insn_count(code, 0, n),
            count <= n,
        decreases n - i,
    {
        let offset = i * 4;
        let raw = read_u32_at(arm64_code, offset);
        assert(raw == word_at(code, i as int));
        let ghost before = emitter.code@;
        match decode_arm64(raw) {
            Ok(insn) => {
                emitter.emit_instruction(&insn);
                if is_block_end(&insn) {
                    assert(emitter.code@ =~= before + block_bytes(code, i as int, n));
                    count = i + 1;
                    break;
                }
                assert(emitter.code@ + block_bytes(code, i + 1, n) =~= before + block_bytes(
                    code,
                    i as int,
                    n,
                ));
            },
            Err(JitError::UnknownInstruction(_)) => {
                emitter.emit(X86_INT3);
                assert(emitter.code@ + block_bytes(code, i + 1, n) =~= before + block_bytes(
                    code,
                    i as int,
                    n,
                ));
            },
            Err(e) => {
                return Err(e);
            },
        }
        i = i + 1;
        count = i;
    }
    emitter.finalize();
    let arm64_code = copy_range(arm64_code, 0, 4 * count);
    let block = JitBlock {
        code: emitter.into_code(),
        arm64_insn_count: count,
        start_pc,
        end_pc: start_pc + (count as u64 * 4),
        execution_count: 0,
        arm64_code,
    };
    Ok(block)
}

/// The syscall's return value, given the registers after the block: `write`
/// returns its count (X2), every other call returns 0.
pub open spec fn syscall_return(func_id: u32, regs: Seq<u64>) -> u64 {
    if func_id == SYS_WRITE {
        regs[2]
    } else {
        0
    }
}

/// Only `write` returns a register: its count, X2. `ioctl`, `futex` and every
/// other call complete with 0, whatever the registers.
pub proof fn lemma_syscall_results(func_id: u32, regs: Seq<u64>)
    ensures
        syscall_return(SYS_WRITE, regs) == regs[2],
        syscall_return(SYS_IOCTL, regs) == 0,
        syscall_return(SYS_FUTEX, regs) == 0,
        func_id != SYS_WRITE ==> syscall_return(func_id, regs) == 0,
{
}

/// The request's block is already translated, or can be translated.
pub open spec fn executes(req: OffloadRequest, state: SessionState) -> bool {
    state.jit().contains_key(req.pc) || req.payload@.len() % 4 == 0
}

/// What translating and executing `req` needs of the session to stay within
/// its counters and the address space.
pub open spec fn can_execute(req: OffloadRequest, state: SessionState) -> bool {
    &&& state.wf()
    &&& (!state.jit().contains_key(req.pc) && req.payload@.len() % 4 == 0) ==> {
        &&& req.pc + req.payload@.len() <= u64::MAX
        &&& state.translated() + req.payload@.len() / 4 <= u64::MAX
    }
    &&& executes(req, state) ==> state.executed() < u64::MAX
}

/// The ARM64 code that runs for `req`: that of the block cached at its PC,
/// or, when none is, the payload's basic block (up to and including the
/// first branch), which is cached first.
pub open spec fn block_code(req: OffloadRequest, state: SessionState) -> Seq<u8> {
    if state.jit().contains_key(req.pc) {
        state.jit()[req.pc].arm64_code@
    } else {
        req.payload@.subrange(
            0,
            4 * block_insn_count(req.payload@, 0, (req.payload@.len() / 4) as int) as int,
        )
    }
}

/// The effect of running the request's block over the session's memory,
/// from the request's registers.
pub open spec fn block_effect(req: OffloadRequest, state: SessionState) -> BlockEffect {
    let code = block_code(req, state);
    run_block(code, 0, (code.len() / 4) as int, req.pc, state.pages(), start_effect(req.registers@))
}

/// Translates (unless cached) and executes an offloaded ARM64 block against
/// the session's shadows, returning the result and applying it to the
/// session.
///
/// The block cached at the request's PC (when there is none, the payload's
/// block is cached first) runs from the request's registers over the session's
/// memory shadow; then the syscall completes:
/// X0 becomes its return value (`write` returns its count, X2, other calls
/// 0). The result carries the final registers, the block's stores as memory
/// deltas, and the registers written by the block plus X0 as dirty. A block
/// that cannot be translated yields return value -1, no dirty register, and
/// leaves the session unchanged.
pub fn translate_and_execute_x86(req: &OffloadRequest, state: &mut SessionState) -> (r:
    ExecutionResult)
    requires
        can_execute(*req, *old(state)),
    ensures
        final(state).wf(),
        r.session_id == req.session_id,
        r.seq == req.seq,
        !executes(*req, *old(state)) ==> {
            &&& r.registers@ == req.registers@
            &&& r.memory_deltas@.len() == 0
            &&& r.return_value == -1
            &&& r.dirty_reg_bitmap == 0
            &&& *final(state) == *old(state)
        },
        executes(*req, *old(state)) ==> {
            let e = block_effect(*req, *old(state));
            let rv = syscall_return(req.func_id, e.regs);
            &&& r.registers@ == e.regs.update(0, rv)
            &&& r.return_value == rv as i64
            &&& r.dirty_reg_bitmap == e.dirty | 1
            &&& req.func_id == SYS_WRITE ==> r.return_value == e.regs[2] as i64 && r.registers@[0]
                == e.regs[2]
            &&& req.func_id != SYS_WRITE ==> r.return_value == 0 && r.registers@[0] == 0
            &&& deltas_view(r.memory_deltas@) == e.stores
            &&& final(state).regs() == applied_registers(
                old(state).regs(),
                r.registers@,
                r.dirty_reg_bitmap,
            )
            &&& forall|a: int| #[trigger]
                final(state).mem_byte(a) == byte_after_deltas(old(state).pages(), e.stores, a)
            &&& final(state).executed() == old(state).executed() + 1
            &&& final(state).pc() == old(state).pc()
            &&& final(state).spec_cache() == old(state).spec_cache()
            &&& final(state).spec_order() == old(state).spec_order()
            &&& if old(state).jit().contains_key(req.pc) {
                &&& final(state).jit() == old(state).jit()
                &&& final(state).translated() == old(state).translated()
            } else {
                &&& final(state).jit().contains_key(req.pc)
                &&& is_translation(final(state).jit()[req.pc], req.payload@, req.pc)
                &&& final(state).jit().remove(req.pc) == old(state).jit().remove(req.pc)
                &&& final(state).translated() == old(state).translated() + block_insn_count(
                    req.payload@,
                    0,
                    (req.payload@.len() / 4) as int,
                )
            }
        },
{
    // Check the JIT cache first; translate on a miss.
    let cached = state.get_jit_block(req.pc).is_some();
    if !cached {
        proof {
            lemma_block_insn_count_bound(req.payload@, 0, (req.payload@.len() / 4) as int);
        }
        match translate_block(req.payload.as_slice(), req.pc) {
            Ok(block) => {
                state.store_jit_block(req.pc, block);
                assert(state.jit().remove(req.pc) =~= old(state).jit().remove(req.pc));
            },
            Err(_) => {
                return ExecutionResult {
                    session_id: req.session_id,
                    seq: req.seq,
                    registers: req.registers,
                    memory_deltas: Vec::new(),
                    return_value: -1,
                    dirty_reg_bitmap: 0,
                };
            },
        }
    }
    // Execute in the sandbox: run the block over the register and memory
    // shadows, collecting its stores.
    let block = state.get_jit_block(req.pc).unwrap();
    let (mut result_regs, memory_deltas, mut dirty_bitmap) = execute_block(
        block.arm64_code.as_slice(),
        req.pc,
        state,
        req.registers,
    );
    // Complete the syscall: its return value goes to X0.
    if req.func_id == SYS_WRITE {
        // write(fd, buf, count) returns count.
        let count = result_regs[2];
        result_regs[0] = count;
    } else if req.func_id == SYS_IOCTL {
        // ioctl(fd, cmd, arg) succeeds.
        result_regs[0] = 0;
    } else if req.func_id == SYS_FUTEX {
        // futex(uaddr, op, val, ...) wakes up.
        result_regs[0] = 0;
    } else {
        result_regs[0] = 0;
    }
    dirty_bitmap = dirty_bitmap | 1;
    let result = ExecutionResult {
        session_id: req.session_id,
        seq: req.seq,
        registers: result_regs,
        memory_deltas,
        return_value: result_regs[0] as i64,
        dirty_reg_bitmap: dirty_bitmap,
    };
    state.apply_result(&result);
    result
}

// ---------------------------------------------------------------------------
// The translation computes what the instruction does

/// The x86_64 memory operand that a ModRM byte starts at the front of `m`,
/// without SIB byte: its register field, base register, displacement and
/// length in bytes. Mod 00 has no displacement (and base RBP is not allowed),
/// mod 01 a sign-extended 8-bit one, mod 10 a 32-bit one.
pub open spec fn x86_mem_operand(m: Seq<u8>) -> Option<(u8, u8, int, nat)> {
    if m.len() == 0 {
        None
    } else {
        let md = m[0] >> 6u8;
        let reg = (m[0] >> 3u8) & 7u8;
        let rm = m[0] & 7u8;
        if rm == 4 {
            None
        } else if md == 0 && rm != 5 {
            Some((reg, rm, 0, 1))
        } else if md == 1 && m.len() >= 2 {
            Some((reg, rm, (m[1] as i8) as int, 2))
        } else if md == 2 && m.len() >= 5 {
            Some((reg, rm, (spec_u32_from_le_bytes(m.subrange(1, 5)) as i32) as int, 5))
        } else {
            None
        }
    }
}

/// Loading or storing an ARM64 register addresses its slot in the register
/// file: the x86 code is `MOV r64, [RDI + 8 * index]` (REX.W 8B) or
/// `MOV [RDI + 8 * index], r64` (REX.W 89) with the given x86 register.
pub proof fn lemma_register_file_access(x86_reg: u8, arm_idx: u8)
    requires
        x86_reg < 8,
        arm_idx < 32,
    ensures
        ({
            let ld = load_arm_reg_bytes(x86_reg, arm_idx);
            let m = ld.subrange(2, ld.len() as int);
            &&& ld.len() >= 2
            &&& ld[0] == 0x48 && ld[1] == 0x8B
            &&& x86_mem_operand(m) == Some((x86_reg, RDI, 8 * arm_idx, m.len()))
        }),
        ({
            let st = store_arm_reg_bytes(arm_idx, x86_reg);
            let m = st.subrange(2, st.len() as int);
            &&& st.len() >= 2
            &&& st[0] == 0x48 && st[1] == 0x89
            &&& x86_mem_operand(m) == Some((x86_reg, RDI, 8 * arm_idx, m.len()))
        }),
{
    lemma_auto_spec_u32_to_from_le_bytes();
    let disp = crate::emitter::regfile_offset(arm_idx);
    assert(disp == 8 * arm_idx);
    let m = crate::emitter::modrm_disp_bytes(x86_reg, RDI, disp);
    let r = x86_reg;
    assert(r < 8 ==> (((r & 7u8) << 3u8) | 7u8) >> 6u8 == 0 && ((((r & 7u8) << 3u8) | 7u8) >> 3u8)
        & 7u8 == r && (((r & 7u8) << 3u8) | 7u8) & 7u8 == 7) by (bit_vector);
    assert(r < 8 ==> (0x40u8 | ((r & 7u8) << 3u8) | 7u8) >> 6u8 == 1 && ((0x40u8 | ((r & 7u8)
        << 3u8) | 7u8) >> 3u8) & 7u8 == r && (0x40u8 | ((r & 7u8) << 3u8) | 7u8) & 7u8 == 7)
        by (bit_vector);
    assert(r < 8 ==> (0x80u8 | ((r & 7u8) << 3u8) | 7u8) >> 6u8 == 2 && ((0x80u8 | ((r & 7u8)
        << 3u8) | 7u8) >> 3u8) & 7u8 == r && (0x80u8 | ((r & 7u8) << 3u8) | 7u8) & 7u8 == 7)
        by (bit_vector);
    assert(7u8 & 7u8 == 7u8) by (bit_vector);
    if disp == 0 {
        assert(m[0] == ((x86_reg & 7u8) << 3u8) | 7u8);
        assert(m[0] >> 6u8 == 0);
        assert(x86_mem_operand(m) == Some((x86_reg, RDI, 0int, 1nat)));
    } else if disp <= 127 {
        let d = disp as u8;
        assert(d <= 127 ==> (d as i8) as int == d as int);
        assert(x86_mem_operand(m) == Some((x86_reg, RDI, disp as int, 2nat)));
    } else {
        assert(m.subrange(1, 5) =~= spec_u32_to_le_bytes(disp as u32));
        assert(0 < disp <= 248);
        assert((disp as u32) as i32 == disp);
        assert(x86_mem_operand(m) == Some((x86_reg, RDI, disp as int, 5nat)));
    }
    let ld = load_arm_reg_bytes(x86_reg, arm_idx);
    assert(ld.subrange(2, ld.len() as int) =~= m);
    let st = store_arm_reg_bytes(arm_idx, x86_reg);
    assert(st.subrange(2, st.len() as int) =~= m);
}

/// A 32-bit x86 immediate, sign-extended to 64 bits.
pub open spec fn sign_extend32(x: u32) -> u64 {
    if x < 0x8000_0000 {
        x as u64
    } else {
        (x + 0xFFFF_FFFF_0000_0000int) as u64
    }
}

/// What the x86_64 instruction bytes `ops` leave in RAX, from RAX = `rax`
/// and RCX = `rcx`, for the operations the translator uses: ADD, SUB, AND,
/// OR and XOR RAX, RCX (opcodes 01, 29, 21, 09, 31 with ModRM C8), IMUL RAX,
/// RCX (0F AF C1), SHL and SHR RAX, CL (D3 with ModRM E0 and E8; the count is
/// CL modulo 64), and ADD and SUB RAX, imm32 (05 and 2D; the immediate is
/// sign-extended). All arithmetic wraps; `None` for anything else.
pub open spec fn x86_rax_after(ops: Seq<u8>, rax: u64, rcx: u64) -> Option<u64> {
    if ops =~= seq![0x48u8, 0x01u8, 0xC8u8] {
        Some(u64_specs::wrapping_add(rax, rcx))
    } else if ops =~= seq![0x48u8, 0x29u8, 0xC8u8] {
        Some(u64_specs::wrapping_sub(rax, rcx))
    } else if ops =~= seq![0x48u8, 0x21u8, 0xC8u8] {
        Some(rax & rcx)
    } else if ops =~= seq![0x48u8, 0x09u8, 0xC8u8] {
        Some(rax | rcx)
    } else if ops =~= seq![0x48u8, 0x31u8, 0xC8u8] {
        Some(rax ^ rcx)
    } else if ops =~= seq![0x48u8, 0x0Fu8, 0xAFu8, 0xC1u8] {
        Some(u64_specs::wrapping_mul(rax, rcx))
    } else if ops =~= seq![0x48u8, 0xD3u8, 0xE0u8] {
        Some(u64_specs::wrapping_shl(rax, (rcx % 64) as u32))
    } else if ops =~= seq![0x48u8, 0xD3u8, 0xE8u8] {
        Some(u64_specs::wrapping_shr(rax, (rcx % 64) as u32))
    } else if ops.len() == 6 && ops[0] == 0x48 && ops[1] == 0x05 {
        Some(u64_specs::wrapping_add(rax, sign_extend32(spec_u32_from_le_bytes(ops.subrange(2, 6)))))
    } else if ops.len() == 6 && ops[0] == 0x48 && ops[1] == 0x2D {
        Some(u64_specs::wrapping_sub(rax, sign_extend32(spec_u32_from_le_bytes(ops.subrange(2, 6)))))
    } else {
        None
    }
}

/// The destination and operand registers of an ARM64 instruction that the
/// translator computes in RAX from Xn (in RAX) and Xm (in RCX).
pub open spec fn rax_rcx_operands(insn: Arm64Insn) -> Option<(u8, u8, u8)> {
    match insn {
        Arm64Insn::AddReg { rd, rn, rm } | Arm64Insn::SubReg { rd, rn, rm }
        | Arm64Insn::AndReg { rd, rn, rm } | Arm64Insn::OrrReg { rd, rn, rm }
        | Arm64Insn::EorReg { rd, rn, rm } | Arm64Insn::Mul { rd, rn, rm }
        | Arm64Insn::Lsl { rd, rn, rm } | Arm64Insn::Lsr { rd, rn, rm } => Some((rd, rn, rm)),
        _ => None,
    }
}

/// The destination, operand register and immediate of an ARM64 ADD or SUB
/// (immediate).
pub open spec fn rax_imm_operands(insn: Arm64Insn) -> Option<(u8, u8, u16)> {
    match insn {
        Arm64Insn::AddImm { rd, rn, imm } | Arm64Insn::SubImm { rd, rn, imm } => Some((rd, rn, imm)),
        _ => None,
    }
}

proof fn lemma_modrm_constants()
    ensures
        crate::emitter::modrm_reg_byte(RCX, RAX) == 0xC8u8,
        crate::emitter::modrm_reg_byte(RAX, RCX) == 0xC1u8,
        crate::emitter::modrm_reg_byte(4, RAX) == 0xE0u8,
        crate::emitter::modrm_reg_byte(5, RAX) == 0xE8u8,
{
    assert(0xC0u8 | ((1u8 & 7u8) << 3u8) | (0u8 & 7u8) == 0xC8u8) by (bit_vector);
    assert(0xC0u8 | ((0u8 & 7u8) << 3u8) | (1u8 & 7u8) == 0xC1u8) by (bit_vector);
    assert(0xC0u8 | ((4u8 & 7u8) << 3u8) | (0u8 & 7u8) == 0xE0u8) by (bit_vector);
    assert(0xC0u8 | ((5u8 & 7u8) << 3u8) | (0u8 & 7u8) == 0xE8u8) by (bit_vector);
}

/// The x86_64 code for an ARM64 register operation (ADD, SUB, AND, ORR, EOR,
/// MUL, LSL, LSR) loads Xn into RAX and Xm into RCX, runs one x86 operation
/// and stores RAX into Xd; read as x86, that operation leaves in RAX exactly
/// the value the ARM64 instruction writes to Xd.
pub proof fn lemma_translated_register_op(
    insn: Arm64Insn,
    pc: u64,
    pages: Map<u64, Seq<u8>>,
    e: BlockEffect,
    rd: u8,
    rn: u8,
    rm: u8,
)
    requires
        rax_rcx_operands(insn) == Some((rd, rn, rm)),
    ensures
        ({
            let pre = load_arm_reg_bytes(RAX, rn) + load_arm_reg_bytes(RCX, rm);
            let post = store_arm_reg_bytes(rd, RAX);
            let b = insn_bytes(insn);
            let ops = b.subrange(pre.len() as int, b.len() - post.len());
            &&& b == pre + ops + post
            &&& match x86_rax_after(ops, reg_value(e.regs, rn), reg_value(e.regs, rm)) {
                Some(v) => step(insn, pc, pages, e) == Some(with_reg(e, rd, v)),
                None => false,
            }
        }),
{
    lemma_modrm_constants();
    let pre = load_arm_reg_bytes(RAX, rn) + load_arm_reg_bytes(RCX, rm);
    let post = store_arm_reg_bytes(rd, RAX);
    let b = insn_bytes(insn);
    let ops = b.subrange(pre.len() as int, b.len() - post.len());
    let mid = match insn {
        Arm64Insn::AddReg { .. } => seq![0x48u8, 0x01u8, 0xC8u8],
        Arm64Insn::SubReg { .. } => seq![0x48u8, 0x29u8, 0xC8u8],
        Arm64Insn::AndReg { .. } => seq![0x48u8, 0x21u8, 0xC8u8],
        Arm64Insn::OrrReg { .. } => seq![0x48u8, 0x09u8, 0xC8u8],
        Arm64Insn::EorReg { .. } => seq![0x48u8, 0x31u8, 0xC8u8],
        Arm64Insn::Mul { .. } => seq![0x48u8, 0x0Fu8, 0xAFu8, 0xC1u8],
        Arm64Insn::Lsl { .. } => seq![0x48u8, 0xD3u8, 0xE0u8],
        _ => seq![0x48u8, 0xD3u8, 0xE8u8],
    };
    assert(b =~= pre + mid + post);
    assert(ops =~= mid);
}

/// The x86_64 code for an ARM64 ADD or SUB (immediate) loads Xn into RAX,
/// runs one x86 operation and stores RAX into Xd; read as x86, that operation
/// leaves in RAX exactly the value the ARM64 instruction writes to Xd.
pub proof fn lemma_translated_immediate_op(
    insn: Arm64Insn,
    pc: u64,
    pages: Map<u64, Seq<u8>>,
    e: BlockEffect,
    rd: u8,
    rn: u8,
    imm: u16,
    rcx: u64,
)
    requires
        rax_imm_operands(insn) == Some((rd, rn, imm)),
    ensures
        ({
            let pre = load_arm_reg_bytes(RAX, rn);
            let post = store_arm_reg_bytes(rd, RAX);
            let b = insn_bytes(insn);
            let ops = b.subrange(pre.len() as int, b.len() - post.len());
            &&& b == pre + ops + post
            &&& match x86_rax_after(ops, reg_value(e.regs, rn), rcx) {
                Some(v) => step(insn, pc, pages, e) == Some(with_reg(e, rd, v)),
                None => false,
            }
        }),
{
    lemma_auto_spec_u32_to_from_le_bytes();
    let pre = load_arm_reg_bytes(RAX, rn);
    let post = store_arm_reg_bytes(rd, RAX);
    let b = insn_bytes(insn);
    let ops = b.subrange(pre.len() as int, b.len() - post.len());
    let imm_bytes = spec_u32_to_le_bytes((imm as i32) as u32);
    assert((imm as i32) as u32 == imm as u32);
    let opcode: u8 = match insn {
        Arm64Insn::AddImm { .. } => 0x05u8,
        _ => 0x2Du8,
    };
    let mid = seq![0x48u8, opcode] + imm_bytes;
    assert(b =~= pre + mid + post);
    assert(ops =~= mid);
    assert(ops.subrange(2, 6) =~= imm_bytes);
    assert(!(ops =~= seq![0x48u8, 0x01u8, 0xC8u8]));
    assert(!(ops =~= seq![0x48u8, 0x29u8, 0xC8u8]));
    assert(!(ops =~= seq![0x48u8, 0x21u8, 0xC8u8]));
    assert(!(ops =~= seq![0x48u8, 0x09u8, 0xC8u8]));
    assert(!(ops =~= seq![0x48u8, 0x31u8, 0xC8u8]));
    assert(!(ops =~= seq![0x48u8, 0x0Fu8, 0xAFu8, 0xC1u8]));
    assert(!(ops =~= seq![0x48u8, 0xD3u8, 0xE0u8]));
    assert(!(ops =~= seq![0x48u8, 0xD3u8, 0xE8u8]));
    assert(sign_extend32(imm as u32) == imm as u64);
}

/// The x86_64 code for ARM64 MOV Xd, Xn loads Xn into RAX and stores RAX
/// into Xd; for MOVZ it is `MOV RAX, imm64` (REX.W B8 and the eight
/// little-endian bytes of a value) then the store of RAX into Xd, and that
/// value is what the ARM64 instruction writes to Xd.
pub proof fn lemma_translated_moves(insn: Arm64Insn, pc: u64, pages: Map<u64, Seq<u8>>, e: BlockEffect)
    ensures
        insn matches Arm64Insn::Mov { rd, rn } ==> {
            &&& insn_bytes(insn) == load_arm_reg_bytes(RAX, rn) + store_arm_reg_bytes(rd, RAX)
            &&& step(insn, pc, pages, e) == Some(with_reg(e, rd, reg_value(e.regs, rn)))
        },
        insn matches Arm64Insn::MovImm { rd, imm } ==> {
            let b = insn_bytes(insn);
            let post = store_arm_reg_bytes(rd, RAX);
            &&& b.len() == 10 + post.len()
            &&& b.subrange(10, b.len() as int) == post
            &&& b[0] == 0x48 && b[1] == 0xB8
            &&& step(insn, pc, pages, e) == Some(
                with_reg(e, rd, spec_u64_from_le_bytes(b.subrange(2, 10))),
            )
        },
{
    lemma_auto_spec_u64_to_from_le_bytes();
    if let Arm64Insn::MovImm { rd, imm } = insn {
        let b = insn_bytes(insn);
        let post = store_arm_reg_bytes(rd, RAX);
        assert(0xB8u8 + (RAX & 7u8) == 0xB8u8) by (bit_vector);
        assert(b.subrange(2, 10) =~= spec_u64_to_le_bytes(imm));
        assert(b.subrange(10, b.len() as int) =~= post);
    }
}

} // verus!
