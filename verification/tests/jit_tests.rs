use phantom_core::arm64::{decode_arm64, Arm64Insn, JitError};
use phantom_core::emitter::{rex_for_regs, X86Emitter};
use phantom_core::jit::{translate_and_execute_x86, translate_block};
use phantom_core::protocol::OffloadRequest;
use phantom_core::sandbox::SessionState;

#[test]
fn test_decode_nop() {
    let insn = decode_arm64(0xD503201F).unwrap();
    assert!(matches!(insn, Arm64Insn::Nop));
}

#[test]
fn test_decode_ret() {
    let insn = decode_arm64(0xD65F03C0).unwrap();
    assert!(matches!(insn, Arm64Insn::Ret));
}

#[test]
fn test_emitter_nop() {
    let mut emitter = X86Emitter::new();
    emitter.emit_instruction(&Arm64Insn::Nop);
    assert_eq!(emitter.code, vec![0x90]);
}

#[test]
fn test_emitter_ret() {
    let mut emitter = X86Emitter::new();
    emitter.emit_instruction(&Arm64Insn::Ret);
    assert_eq!(emitter.code, vec![0xC3]);
}

#[test]
fn test_translate_nop_block() {
    let arm64 = [
        0x1F, 0x20, 0x03, 0xD5, // NOP
        0x1F, 0x20, 0x03, 0xD5, // NOP
        0xC0, 0x03, 0x5F, 0xD6, // RET
    ];
    let block = translate_block(&arm64, 0x1000).unwrap();
    assert_eq!(block.arm64_insn_count, 3);
    assert_eq!(block.start_pc, 0x1000);
    assert!(block.code.contains(&0x90));
    assert!(block.code.contains(&0xC3));
}

#[test]
fn test_execute_write_syscall() {
    let mut state = SessionState::new();
    let req = OffloadRequest {
        session_id: 1,
        seq: 1,
        func_id: 64,
        flags: 0,
        payload: vec![
            0x1F, 0x20, 0x03, 0xD5, // NOP
            0xC0, 0x03, 0x5F, 0xD6, // RET
        ],
        registers: {
            let mut r = [0u64; 31];
            r[0] = 1;
            r[1] = 0x7000;
            r[2] = 42;
            r
        },
        pc: 0x4000,
    };

    let result = translate_and_execute_x86(&req, &mut state);
    assert_eq!(result.return_value, 42);
    assert_eq!(result.registers[0], 42);
    assert!(result.dirty_reg_bitmap & 1 != 0);
}

#[test]
fn decode_add_immediate_and_movz() {
    // ADD X0, X1, #1
    assert!(matches!(decode_arm64(0x91000420).unwrap(), Arm64Insn::AddImm { rd: 0, rn: 1, imm: 1 }));
    // ADD X0, X1, #1, LSL #12 keeps the low 16 bits of the shifted value
    assert!(matches!(
        decode_arm64(0x91400420).unwrap(),
        Arm64Insn::AddImm { rd: 0, rn: 1, imm: 0x1000 }
    ));
    // MOVZ X3, #0x1234, LSL #16
    match decode_arm64(0xD2A24683).unwrap() {
        Arm64Insn::MovImm { rd, imm } => {
            assert_eq!(rd, 3);
            assert_eq!(imm, 0x1234_0000);
        }
        _ => panic!("expected MOVZ"),
    }
}

#[test]
fn decode_register_class() {
    // MUL X2, X3, X4 (MADD X2, X3, X4, XZR)
    assert!(matches!(decode_arm64(0x9B047C62).unwrap(), Arm64Insn::Mul { rd: 2, rn: 3, rm: 4 }));
    // UDIV X0, X1, X2
    assert!(matches!(decode_arm64(0x9AC20820).unwrap(), Arm64Insn::UDiv { rd: 0, rn: 1, rm: 2 }));
    // LSLV X0, X1, X2 / LSRV X0, X1, X2
    assert!(matches!(decode_arm64(0x9AC22020).unwrap(), Arm64Insn::Lsl { rd: 0, rn: 1, rm: 2 }));
    assert!(matches!(decode_arm64(0x9AC22420).unwrap(), Arm64Insn::Lsr { rd: 0, rn: 1, rm: 2 }));
    // AND / ORR / EOR X0, X1, X2 (shifted register)
    assert!(matches!(decode_arm64(0x8A020020).unwrap(), Arm64Insn::AndReg { rd: 0, rn: 1, rm: 2 }));
    assert!(matches!(decode_arm64(0xAA020020).unwrap(), Arm64Insn::OrrReg { rd: 0, rn: 1, rm: 2 }));
    assert!(matches!(decode_arm64(0xCA020020).unwrap(), Arm64Insn::EorReg { rd: 0, rn: 1, rm: 2 }));
}

#[test]
fn decode_load_store_and_branches() {
    // LDR X0, [X1, #16]
    assert!(matches!(decode_arm64(0xF9400820).unwrap(), Arm64Insn::LdrImm { rt: 0, rn: 1, imm: 16 }));
    // STR X0, [X1, #8]
    assert!(matches!(decode_arm64(0xF9000420).unwrap(), Arm64Insn::StrImm { rt: 0, rn: 1, imm: 8 }));
    // B #-4 and BL #8
    assert!(matches!(decode_arm64(0x17FFFFFF).unwrap(), Arm64Insn::Branch { offset: -4 }));
    assert!(matches!(decode_arm64(0x94000002).unwrap(), Arm64Insn::BranchLink { offset: 8 }));
    // BR X3
    assert!(matches!(decode_arm64(0xD61F0060).unwrap(), Arm64Insn::BranchReg { rn: 3 }));
}

#[test]
fn decode_unknown_word() {
    match decode_arm64(0x0000_0000) {
        Err(JitError::UnknownInstruction(w)) => assert_eq!(w, 0),
        _ => panic!("expected an unknown instruction"),
    }
}

#[test]
fn emitter_encodings() {
    let mut e = X86Emitter::new();
    e.emit_instruction(&Arm64Insn::AddImm { rd: 1, rn: 2, imm: 5 });
    // MOV RAX, [RDI+16]; ADD RAX, 5; MOV [RDI+8], RAX
    assert_eq!(
        e.code,
        vec![0x48, 0x8B, 0x47, 0x10, 0x48, 0x05, 5, 0, 0, 0, 0x48, 0x89, 0x47, 0x08]
    );

    let mut e = X86Emitter::new();
    e.emit_instruction(&Arm64Insn::Mov { rd: 0, rn: 20 });
    // X20 is at offset 160, beyond a disp8: disp32 is used; X0 is at offset 0.
    assert_eq!(e.code, vec![0x48, 0x8B, 0x87, 160, 0, 0, 0, 0x48, 0x89, 0x07]);

    let mut e = X86Emitter::new();
    e.emit_instruction(&Arm64Insn::Branch { offset: -8 });
    assert_eq!(e.code, vec![0xE9, 0xF8, 0xFF, 0xFF, 0xFF]);

    let mut e = X86Emitter::new();
    e.emit_instruction(&Arm64Insn::MovImm { rd: 0, imm: 0x0102 });
    assert_eq!(
        e.code,
        vec![0x48, 0xB8, 0x02, 0x01, 0, 0, 0, 0, 0, 0, 0x48, 0x89, 0x07]
    );

    let mut e = X86Emitter::new();
    e.emit_instruction(&Arm64Insn::EorReg { rd: 0, rn: 0, rm: 1 });
    assert_eq!(
        e.code,
        vec![0x48, 0x8B, 0x07, 0x48, 0x8B, 0x4F, 0x08, 0x48, 0x31, 0xC8, 0x48, 0x89, 0x07]
    );
}

#[test]
fn emitter_finalize_adds_ret_once() {
    let mut e = X86Emitter::new();
    e.finalize();
    assert_eq!(e.code, vec![0xC3]);
    e.finalize();
    assert_eq!(e.code, vec![0xC3]);
    e.emit(0x90);
    e.finalize();
    assert_eq!(e.into_code(), vec![0xC3, 0x90, 0xC3]);
}

#[test]
fn rex_prefixes() {
    assert_eq!(rex_for_regs(0, 1), 0x48);
    assert_eq!(rex_for_regs(6, 1), 0x49);
    assert_eq!(rex_for_regs(0, 7), 0x4C);
    assert_eq!(rex_for_regs(7, 6), 0x4D);
}

#[test]
fn translate_stops_at_branch_and_traps_unknown() {
    let arm64 = [
        0x00, 0x00, 0x00, 0x00, // unknown: INT3
        0xC0, 0x03, 0x5F, 0xD6, // RET: ends the block
        0x1F, 0x20, 0x03, 0xD5, // NOP after the branch: not translated
    ];
    let block = translate_block(&arm64, 0x2000).unwrap();
    assert_eq!(block.code, vec![0xCC, 0xC3]);
    // The block ends at the RET: two instructions.
    assert_eq!(block.arm64_insn_count, 2);
    assert_eq!(block.end_pc, 0x2000 + 8);
    assert_eq!(block.execution_count, 0);
}

#[test]
fn translate_rejects_misaligned_code() {
    match translate_block(&[0x1F, 0x20, 0x03], 0) {
        Err(JitError::MisalignedCode(n)) => assert_eq!(n, 3),
        _ => panic!("expected a misaligned-code error"),
    }
}

#[test]
fn execute_caches_translation_and_reports_failure() {
    let mut state = SessionState::new();
    let mut req = OffloadRequest {
        session_id: 5,
        seq: 9,
        func_id: 29,
        flags: 0,
        payload: vec![0xC0, 0x03, 0x5F, 0xD6],
        registers: [7u64; 31],
        pc: 0x8000,
    };
    let r = translate_and_execute_x86(&req, &mut state);
    assert_eq!(r.return_value, 0);
    assert_eq!(r.registers[0], 0);
    assert_eq!(r.registers[1], 7);
    assert_eq!(state.register_shadow[0], 0);
    assert_eq!(state.register_shadow[1], 0);
    assert!(state.get_jit_block(0x8000).is_some());
    assert_eq!(state.instructions_translated, 1);
    assert_eq!(state.instructions_executed, 1);

    // A misaligned block at a new PC cannot be translated.
    req.pc = 0x9000;
    req.payload = vec![1, 2, 3];
    let r = translate_and_execute_x86(&req, &mut state);
    assert_eq!(r.return_value, -1);
    assert_eq!(r.dirty_reg_bitmap, 0);
    assert_eq!(r.registers, [7u64; 31]);
    assert_eq!(state.instructions_executed, 1);

    // The cached PC executes without looking at the payload again.
    req.pc = 0x8000;
    let r = translate_and_execute_x86(&req, &mut state);
    assert_eq!(r.return_value, 0);
    assert_eq!(state.instructions_translated, 1);
    assert_eq!(state.instructions_executed, 2);
}

#[test]
fn translate_counts_only_the_basic_block() {
    let arm64 = [
        0xC0, 0x03, 0x5F, 0xD6, // RET
        0x1F, 0x20, 0x03, 0xD5, // NOP past the end of the block
    ];
    let b = translate_block(&arm64, 0x2000).unwrap();
    assert_eq!(b.code, vec![0xC3]);
    assert_eq!(b.arm64_insn_count, 1);
    assert_eq!(b.end_pc, 0x2004);
    // Without a branch the block runs to the end of the code.
    let b = translate_block(&[0x1F, 0x20, 0x03, 0xD5, 0x1F, 0x20, 0x03, 0xD5], 0x10).unwrap();
    assert_eq!(b.arm64_insn_count, 2);
    assert_eq!(b.end_pc, 0x18);
}

#[test]
fn decode_64bit_add_sub_register_and_sub_immediate() {
    assert!(matches!(decode_arm64(0x8B020020).unwrap(), Arm64Insn::AddReg { rd: 0, rn: 1, rm: 2 }));
    assert!(matches!(decode_arm64(0xCB020020).unwrap(), Arm64Insn::SubReg { rd: 0, rn: 1, rm: 2 }));
    assert!(matches!(decode_arm64(0x91001020).unwrap(), Arm64Insn::AddImm { rd: 0, rn: 1, imm: 4 }));
    assert!(matches!(decode_arm64(0xD1001020).unwrap(), Arm64Insn::SubImm { rd: 0, rn: 1, imm: 4 }));
    // SUB X0, X1, #4095, LSL #12 keeps the low 16 bits of the shifted value
    assert!(matches!(
        decode_arm64(0xD17FFC20).unwrap(),
        Arm64Insn::SubImm { rd: 0, rn: 1, imm: 0xF000 }
    ));
    // ADD X0, X1, X2, LSL #3 has a shift the translator does not model.
    assert!(matches!(decode_arm64(0x8B020C20), Err(JitError::UnknownInstruction(0x8B020C20))));
    // The logical group goes by its opc field alone: AND X0, X1, X2, LSL #3
    // and BIC X0, X1, X2 decode as AND.
    assert!(matches!(decode_arm64(0x8A020C20).unwrap(), Arm64Insn::AndReg { rd: 0, rn: 1, rm: 2 }));
    assert!(matches!(decode_arm64(0x8A220020).unwrap(), Arm64Insn::AndReg { rd: 0, rn: 1, rm: 2 }));
    // ANDS is not decoded.
    assert!(matches!(decode_arm64(0xEA020020), Err(JitError::UnknownInstruction(_))));
    // MOV X3, X4 (ORR X3, XZR, X4) decodes as ORR.
    assert!(matches!(decode_arm64(0xAA0403E3).unwrap(), Arm64Insn::OrrReg { rd: 3, rn: 31, rm: 4 }));
    // A multiply with XZR as addend decodes as MUL, bit 15 aside.
    assert!(matches!(decode_arm64(0x9B04FC62).unwrap(), Arm64Insn::Mul { rd: 2, rn: 3, rm: 4 }));
}

#[test]
fn decode_register_offset_and_unscaled_load_store() {
    assert!(matches!(decode_arm64(0xF8626820).unwrap(), Arm64Insn::LdrReg { rt: 0, rn: 1, rm: 2 }));
    assert!(matches!(decode_arm64(0xF8226820).unwrap(), Arm64Insn::StrReg { rt: 0, rn: 1, rm: 2 }));
    // LDUR X0, [X1, #-8] / STUR X0, [X1, #16] are not decoded.
    assert!(matches!(decode_arm64(0xF85F8020), Err(JitError::UnknownInstruction(0xF85F8020))));
    assert!(matches!(decode_arm64(0xF8010020), Err(JitError::UnknownInstruction(0xF8010020))));
    assert!(matches!(decode_arm64(0xF8400020), Err(JitError::UnknownInstruction(_))));
    // RET X5 and BR X30; BR ignores bits [4:0].
    assert!(matches!(decode_arm64(0xD65F00A0).unwrap(), Arm64Insn::Ret));
    assert!(matches!(decode_arm64(0xD61F03C0).unwrap(), Arm64Insn::BranchReg { rn: 30 }));
    assert!(matches!(decode_arm64(0xD61F03C5).unwrap(), Arm64Insn::BranchReg { rn: 30 }));
}

fn request(func_id: u32, payload: Vec<u8>, registers: [u64; 31]) -> OffloadRequest {
    OffloadRequest { session_id: 1, seq: 1, func_id, flags: 0, payload, registers, pc: 0x4000 }
}

fn words(ws: &[u32]) -> Vec<u8> {
    ws.iter().flat_map(|w| w.to_le_bytes()).collect()
}

#[test]
fn execute_runs_the_block_then_the_syscall() {
    let mut state = SessionState::new();
    // MOVZ X1, #5; RET under ioctl
    let req = request(29, vec![0xA1, 0x00, 0x80, 0xD2, 0xC0, 0x03, 0x5F, 0xD6], [0; 31]);
    let res = translate_and_execute_x86(&req, &mut state);
    assert_eq!(res.registers[1], 5);
    assert_eq!(res.dirty_reg_bitmap, 0b11);
    assert_eq!(res.registers[0], 0);
    assert_eq!(res.return_value, 0);
    assert!(res.memory_deltas.is_empty());
    assert_eq!(state.register_shadow[1], 5);
}

#[test]
fn execute_arithmetic_and_write_count() {
    let mut state = SessionState::new();
    let mut regs = [0u64; 31];
    regs[3] = 40;
    regs[4] = 2;
    // ADD X2, X3, X4; SUB X5, X3, #1; MUL X6, X3, X4; UDIV X7, X3, XZR; RET
    let code = words(&[0x8B040062, 0xD1000465, 0x9B047C66, 0x9ADF0867, 0xD65F03C0]);
    let res = translate_and_execute_x86(&request(64, code, regs), &mut state);
    assert_eq!(res.registers[2], 42);
    assert_eq!(res.registers[5], 39);
    assert_eq!(res.registers[6], 80);
    assert_eq!(res.registers[7], 0);
    // write returns its count, X2 after the block.
    assert_eq!(res.return_value, 42);
    assert_eq!(res.registers[0], 42);
    assert_eq!(res.dirty_reg_bitmap, (1 << 0) | (1 << 2) | (1 << 5) | (1 << 6) | (1 << 7));
    // The block is cached with its five instructions.
    assert_eq!(state.get_jit_block(0x4000).unwrap().arm64_insn_count, 5);
}

#[test]
fn execute_stores_and_loads_through_the_memory_shadow() {
    let mut state = SessionState::new();
    state.write_memory(0x8000, &[1, 0, 0, 0, 0, 0, 0, 0]);
    let mut regs = [0u64; 31];
    regs[1] = 0x8000;
    regs[2] = 0x1122_3344_5566_7788;
    // LDR X3, [X1]; STR X2, [X1, #8]; LDR X4, [X1, #8]; B #0
    let code = words(&[0xF9400023, 0xF9000422, 0xF9400424, 0x14000000]);
    let res = translate_and_execute_x86(&request(98, code, regs), &mut state);
    assert_eq!(res.registers[3], 1);
    assert_eq!(res.registers[4], 0x1122_3344_5566_7788);
    assert_eq!(res.memory_deltas.len(), 1);
    assert_eq!(res.memory_deltas[0].address, 0x8008);
    assert_eq!(res.memory_deltas[0].data, 0x1122_3344_5566_7788u64.to_le_bytes().to_vec());
    assert_eq!(state.read_memory(0x8008, 8), 0x1122_3344_5566_7788u64.to_le_bytes().to_vec());
    assert_eq!(res.dirty_reg_bitmap, (1 << 0) | (1 << 3) | (1 << 4));
}

#[test]
fn execute_stops_at_branch_trap_and_fault() {
    // BL #8 links X30 to the next instruction and ends the block.
    let mut state = SessionState::new();
    let code = words(&[0x94000002, 0xD28000A1]);
    let res = translate_and_execute_x86(&request(1, code, [0; 31]), &mut state);
    assert_eq!(res.registers[30], 0x4004);
    assert_eq!(res.registers[1], 0);
    // An unknown word traps: what follows does not run.
    let mut state = SessionState::new();
    let code = words(&[0xD28000A1, 0x0000_0000, 0xD28000C2]);
    let res = translate_and_execute_x86(&request(1, code, [0; 31]), &mut state);
    assert_eq!(res.registers[1], 5);
    assert_eq!(res.registers[2], 0);
    // A load at the end of the address space faults and stops the block.
    let mut state = SessionState::new();
    let mut regs = [0u64; 31];
    regs[1] = u64::MAX - 3;
    let code = words(&[0xF9400023, 0xD28000A5]);
    let res = translate_and_execute_x86(&request(1, code, regs), &mut state);
    assert_eq!(res.registers[3], 0);
    assert_eq!(res.registers[5], 0);
    assert_eq!(res.dirty_reg_bitmap, 1);
}

#[test]
fn execute_runs_the_cached_block() {
    let mut state = SessionState::new();
    // MOVZ X1, #5; RET; NOP
    let first = request(1, words(&[0xD28000A1, 0xD65F03C0, 0xD503201F]), [0; 31]);
    let res = translate_and_execute_x86(&first, &mut state);
    assert_eq!(res.registers[1], 5);
    let block = state.get_jit_block(0x4000).unwrap();
    assert_eq!(block.arm64_code, words(&[0xD28000A1, 0xD65F03C0]));
    // A later request at the same PC runs the cached block, not its payload.
    let second = request(1, words(&[0xD28000C1, 0xD65F03C0]), [0; 31]);
    let res = translate_and_execute_x86(&second, &mut state);
    assert_eq!(res.registers[1], 5);
    assert_eq!(state.instructions_translated, 2);
}
