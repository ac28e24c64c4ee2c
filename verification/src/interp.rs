//! Sandboxed execution of decoded ARM64 instructions over a session's
//! register and memory shadows.
//!
//! Register 31 reads as zero and ignores writes (XZR; no stack pointer is
//! shadowed). Loads and stores move eight little-endian bytes; an access that
//! would run past the end of the 64-bit address space faults. Stores are
//! collected as memory deltas, and later loads see them.
use crate::arm64::{decode_arm64, ends_block, spec_decode_arm64, Arm64Insn};
use crate::le::{copy_range, read_u32_at, read_u64_at, u64_le};
use crate::protocol::{deltas_view, MemoryDelta};
use crate::sandbox::{byte_after_deltas, overlay_byte, SessionState};
use vstd::bytes::*;
use vstd::prelude::*;
use vstd::wrapping::u64_specs;

verus! {

/// What running (part of) a block has done so far: the registers X0-X30,
/// the stores made, in order, as (address, bytes), and the bitmap of the
/// registers written.
pub struct BlockEffect {
    pub regs: Seq<u64>,
    pub stores: Seq<(u64, Seq<u8>)>,
    pub dirty: u32,
}

/// The effect before the first instruction: the given registers, no store,
/// no register written.
pub open spec fn start_effect(regs: Seq<u64>) -> BlockEffect {
    BlockEffect { regs, stores: Seq::empty(), dirty: 0 }
}

/// The value of register `r`: X0-X30 from `regs`, zero for register 31.
pub open spec fn reg_value(regs: Seq<u64>, r: u8) -> u64 {
    if r < 31 {
        regs[r as int]
    } else {
        0
    }
}

/// `regs` after writing `v` to register `r` (a write to register 31 is lost).
pub open spec fn set_reg(regs: Seq<u64>, r: u8, v: u64) -> Seq<u64> {
    if r < 31 {
        regs.update(r as int, v)
    } else {
        regs
    }
}

/// `dirty` with register `r` marked as written.
pub open spec fn mark_dirty(dirty: u32, r: u8) -> u32 {
    if r < 31 {
        dirty | (1u32 << (r as u32))
    } else {
        dirty
    }
}

/// The effect after writing `v` to register `r`.
pub open spec fn with_reg(e: BlockEffect, r: u8, v: u64) -> BlockEffect {
    BlockEffect { regs: set_reg(e.regs, r, v), stores: e.stores, dirty: mark_dirty(e.dirty, r) }
}

/// The effect after storing the eight little-endian bytes of `v` at `addr`.
pub open spec fn with_store(e: BlockEffect, addr: u64, v: u64) -> BlockEffect {
    BlockEffect { regs: e.regs, stores: e.stores.push((addr, spec_u64_to_le_bytes(v))), dirty: e.dirty }
}

/// An eight-byte access at `addr` stays within the address space.
pub open spec fn access_fits(addr: u64) -> bool {
    addr + 8 <= u64::MAX
}

/// The little-endian `u64` at `addr` of the memory `pages` after `stores`.
pub open spec fn load_u64(pages: Map<u64, Seq<u8>>, stores: Seq<(u64, Seq<u8>)>, addr: u64) -> u64 {
    spec_u64_from_le_bytes(Seq::new(8, |j: int| byte_after_deltas(pages, stores, addr + j)))
}

/// The effect of a load of register `rt` from `addr`, or `None` when the
/// access faults.
pub open spec fn load_step(pages: Map<u64, Seq<u8>>, e: BlockEffect, rt: u8, addr: u64) -> Option<BlockEffect> {
    if access_fits(addr) {
        Some(with_reg(e, rt, load_u64(pages, e.stores, addr)))
    } else {
        None
    }
}

/// The effect of a store of register `rt` to `addr`, or `None` when the
/// access faults.
pub open spec fn store_step(e: BlockEffect, rt: u8, addr: u64) -> Option<BlockEffect> {
    if access_fits(addr) {
        Some(with_store(e, addr, reg_value(e.regs, rt)))
    } else {
        None
    }
}

/// UDIV: division by zero gives zero.
pub open spec fn udiv(x: u64, y: u64) -> u64 {
    if y == 0 {
        0
    } else {
        x / y
    }
}

/// The effect of one instruction at `pc`, or `None` when it faults. All
/// arithmetic wraps; shifts take their amount modulo 64; BL links X30 to
/// the next instruction; the other branches only end the block.
pub open spec fn step(insn: Arm64Insn, pc: u64, pages: Map<u64, Seq<u8>>, e: BlockEffect) -> Option<BlockEffect> {
    let x = e.regs;
    match insn {
        Arm64Insn::AddReg { rd, rn, rm } => Some(
            with_reg(e, rd, u64_specs::wrapping_add(reg_value(x, rn), reg_value(x, rm))),
        ),
        Arm64Insn::AddImm { rd, rn, imm } => Some(
            with_reg(e, rd, u64_specs::wrapping_add(reg_value(x, rn), imm as u64)),
        ),
        Arm64Insn::SubReg { rd, rn, rm } => Some(
            with_reg(e, rd, u64_specs::wrapping_sub(reg_value(x, rn), reg_value(x, rm))),
        ),
        Arm64Insn::SubImm { rd, rn, imm } => Some(
            with_reg(e, rd, u64_specs::wrapping_sub(reg_value(x, rn), imm as u64)),
        ),
        Arm64Insn::Mul { rd, rn, rm } => Some(
            with_reg(e, rd, u64_specs::wrapping_mul(reg_value(x, rn), reg_value(x, rm))),
        ),
        Arm64Insn::UDiv { rd, rn, rm } => Some(
            with_reg(e, rd, udiv(reg_value(x, rn), reg_value(x, rm))),
        ),
        Arm64Insn::AndReg { rd, rn, rm } => Some(
            with_reg(e, rd, reg_value(x, rn) & reg_value(x, rm)),
        ),
        Arm64Insn::OrrReg { rd, rn, rm } => Some(
            with_reg(e, rd, reg_value(x, rn) | reg_value(x, rm)),
        ),
        Arm64Insn::EorReg { rd, rn, rm } => Some(
            with_reg(e, rd, reg_value(x, rn) ^ reg_value(x, rm)),
        ),
        Arm64Insn::Lsl { rd, rn, rm } => Some(
            with_reg(
                e,
                rd,
                u64_specs::wrapping_shl(reg_value(x, rn), (reg_value(x, rm) % 64) as u32),
            ),
        ),
        Arm64Insn::Lsr { rd, rn, rm } => Some(
            with_reg(
                e,
                rd,
                u64_specs::wrapping_shr(reg_value(x, rn), (reg_value(x, rm) % 64) as u32),
            ),
        ),
        Arm64Insn::LdrImm { rt, rn, imm } => load_step(
            pages,
            e,
            rt,
            u64_specs::wrapping_add_signed(reg_value(x, rn), imm as i64),
        ),
        Arm64Insn::LdrReg { rt, rn, rm } => load_step(
            pages,
            e,
            rt,
            u64_specs::wrapping_add(reg_value(x, rn), reg_value(x, rm)),
        ),
        Arm64Insn::StrImm { rt, rn, imm } => store_step(
            e,
            rt,
            u64_specs::wrapping_add_signed(reg_value(x, rn), imm as i64),
        ),
        Arm64Insn::StrReg { rt, rn, rm } => store_step(
            e,
            rt,
            u64_specs::wrapping_add(reg_value(x, rn), reg_value(x, rm)),
        ),
        Arm64Insn::BranchLink { .. } => Some(with_reg(e, 30, u64_specs::wrapping_add(pc, 4))),
        Arm64Insn::Branch { .. } | Arm64Insn::BranchReg { .. } | Arm64Insn::Ret | Arm64Insn::Nop => Some(e),
        Arm64Insn::Mov { rd, rn } => Some(with_reg(e, rd, reg_value(x, rn))),
        Arm64Insn::MovImm { rd, imm } => Some(with_reg(e, rd, imm)),
    }
}

/// The `i`-th little-endian instruction word of `code`.
pub open spec fn word_at(code: Seq<u8>, i: int) -> u32 {
    spec_u32_from_le_bytes(code.subrange(4 * i, 4 * i + 4))
}

/// The PC of instruction `i` of a block that starts at `start`.
pub open spec fn insn_pc(start: u64, i: int) -> u64 {
    u64_specs::wrapping_add(start, (4 * i) as u64)
}

/// The effect of running instructions `i..n` of `code` from `e`: each
/// decoded instruction in turn, stopping after the first branch, at a word
/// that does not decode (its translation traps) and at a faulting access.
pub open spec fn run_block(
    code: Seq<u8>,
    i: int,
    n: int,
    start_pc: u64,
    pages: Map<u64, Seq<u8>>,
    e: BlockEffect,
) -> BlockEffect
    decreases n - i,
{
    if i >= n || i < 0 {
        e
    } else {
        match spec_decode_arm64(word_at(code, i)) {
            None => e,
            Some(insn) => match step(insn, insn_pc(start_pc, i), pages, e) {
                None => e,
                Some(e2) => if ends_block(insn) {
                    e2
                } else {
                    run_block(code, i + 1, n, start_pc, pages, e2)
                },
            },
        }
    }
}

/// Every store lies within the address space.
pub open spec fn stores_fit(stores: Seq<(u64, Seq<u8>)>) -> bool {
    forall|i: int| 0 <= i < stores.len() ==> #[trigger] stores[i].0 + stores[i].1.len() <= u64::MAX
}

/// The effect held by the executable state.
pub open spec fn effect_of(regs: Seq<u64>, stores: Seq<MemoryDelta>, dirty: u32) -> BlockEffect {
    BlockEffect { regs, stores: deltas_view(stores), dirty }
}

/// A step keeps every store within the address space.
proof fn lemma_step_keeps_stores_fit(insn: Arm64Insn, pc: u64, pages: Map<u64, Seq<u8>>, e: BlockEffect)
    requires
        stores_fit(e.stores),
        step(insn, pc, pages, e) is Some,
    ensures
        stores_fit(step(insn, pc, pages, e)->0.stores),
{
    lemma_auto_spec_u64_to_from_le_bytes();
    let s1 = step(insn, pc, pages, e)->0.stores;
    assert forall|k: int| 0 <= k < s1.len() implies #[trigger] s1[k].0 + s1[k].1.len() <= u64::MAX by {
        if k < e.stores.len() {
            assert(s1[k] == e.stores[k]);
        }
    }
}

/// A load reads back what the last store to the same address wrote.
pub proof fn lemma_load_after_store(
    pages: Map<u64, Seq<u8>>,
    stores: Seq<(u64, Seq<u8>)>,
    addr: u64,
    v: u64,
)
    requires
        access_fits(addr),
    ensures
        load_u64(pages, stores.push((addr, spec_u64_to_le_bytes(v))), addr) == v,
{
    lemma_auto_spec_u64_to_from_le_bytes();
    let s2 = stores.push((addr, spec_u64_to_le_bytes(v)));
    assert(s2.drop_last() =~= stores);
    let bytes = Seq::new(8, |j: int| byte_after_deltas(pages, s2, addr + j));
    assert(bytes =~= spec_u64_to_le_bytes(v));
}

// ---------------------------------------------------------------------------
// Execution

fn reg_get(regs: &[u64; 31], r: u8) -> (v: u64)
    ensures
        v == reg_value(regs@, r),
{
    if r < 31 {
        regs[r as usize]
    } else {
        0
    }
}

fn reg_put(regs: &mut [u64; 31], dirty: &mut u32, r: u8, v: u64)
    ensures
        final(regs)@ == set_reg(old(regs)@, r, v),
        *final(dirty) == mark_dirty(*old(dirty), r),
{
    if r < 31 {
        regs[r as usize] = v;
        *dirty = *dirty | (1u32 << (r as u32));
    }
}

/// The little-endian `u64` at `addr` of the session's memory after `stores`.
fn load_word(state: &SessionState, stores: &Vec<MemoryDelta>, addr: u64) -> (v: u64)
    requires
        access_fits(addr),
    ensures
        v == load_u64(state.pages(), deltas_view(stores@), addr),
{
    let ghost ds = deltas_view(stores@);
    let mut bytes = state.read_memory(addr, 8);
    let mut k: usize = 0;
    while k < stores.len()
        invariant
            k <= stores@.len(),
            ds == deltas_view(stores@),
            access_fits(addr),
            bytes@.len() == 8,
            forall|j: int|
                0 <= j < 8 ==> #[trigger] bytes@[j] == byte_after_deltas(
                    state.pages(),
                    ds.subrange(0, k as int),
                    addr + j,
                ),
        decreases stores@.len() - k,
    {
        let d = &stores[k];
        assert(ds[k as int] == (d.address, d.data@));
        let ghost before = bytes@;
        let mut j: usize = 0;
        while j < 8
            invariant
                j <= 8,
                k < stores@.len(),
                d == stores@[k as int],
                access_fits(addr),
                bytes@.len() == 8,
                forall|m: int|
                    0 <= m < 8 ==> #[trigger] bytes@[m] == if m < j {
                        overlay_byte(before[m], d.address as int, d.data@, addr + m)
                    } else {
                        before[m]
                    },
            decreases 8 - j,
        {
            let a = addr + j as u64;
            if d.address <= a && a - d.address < d.data.len() as u64 {
                bytes[j] = d.data[(a - d.address) as usize];
            }
            j = j + 1;
        }
        proof {
            let s1 = ds.subrange(0, k + 1);
            assert(s1.drop_last() =~= ds.subrange(0, k as int));
            assert(s1.last() == ds[k as int]);
        }
        k = k + 1;
    }
    assert(ds.subrange(0, k as int) =~= ds);
    let v = read_u64_at(bytes.as_slice(), 0);
    assert(bytes@.subrange(0, 8) =~= Seq::new(
        8,
        |j: int| byte_after_deltas(state.pages(), ds, addr + j),
    ));
    v
}

/// Records a store of the eight little-endian bytes of `v` at `addr`.
fn store_word(stores: &mut Vec<MemoryDelta>, addr: u64, v: u64)
    ensures
        deltas_view(final(stores)@) == deltas_view(old(stores)@).push((addr, spec_u64_to_le_bytes(v))),
{
    let b = u64_le(v);
    let data = copy_range(&b, 0, 8);
    assert(data@ =~= spec_u64_to_le_bytes(v));
    stores.push(MemoryDelta { address: addr, data });
    assert(deltas_view(stores@) =~= deltas_view(old(stores)@).push((addr, spec_u64_to_le_bytes(v))));
}

/// Loads register `rt` from `addr`; fails when the access faults.
fn exec_load(
    state: &SessionState,
    regs: &mut [u64; 31],
    stores: &Vec<MemoryDelta>,
    dirty: &mut u32,
    rt: u8,
    addr: u64,
) -> (ok: bool)
    ensures
        match load_step(state.pages(), effect_of(old(regs)@, stores@, *old(dirty)), rt, addr) {
            Some(e2) => ok && effect_of(final(regs)@, stores@, *final(dirty)) == e2,
            None => !ok && final(regs)@ == old(regs)@ && *final(dirty) == *old(dirty),
        },
{
    if addr <= u64::MAX - 8 {
        let v = load_word(state, stores, addr);
        reg_put(regs, dirty, rt, v);
        true
    } else {
        false
    }
}

/// Stores register `rt` to `addr`; fails when the access faults.
fn exec_store(regs: &[u64; 31], stores: &mut Vec<MemoryDelta>, rt: u8, addr: u64) -> (ok: bool)
    ensures
        match store_step(effect_of(regs@, old(stores)@, 0), rt, addr) {
            Some(e2) => ok && deltas_view(final(stores)@) == e2.stores,
            None => !ok && final(stores)@ == old(stores)@,
        },
{
    if addr <= u64::MAX - 8 {
        let v = reg_get(regs, rt);
        store_word(stores, addr, v);
        true
    } else {
        false
    }
}

/// Executes one instruction at `pc`; returns false, changing nothing, when
/// it faults.
fn exec_insn(
    insn: &Arm64Insn,
    pc: u64,
    state: &SessionState,
    regs: &mut [u64; 31],
    stores: &mut Vec<MemoryDelta>,
    dirty: &mut u32,
) -> (ok: bool)
    ensures
        match step(*insn, pc, state.pages(), effect_of(old(regs)@, old(stores)@, *old(dirty))) {
            Some(e2) => ok && effect_of(final(regs)@, final(stores)@, *final(dirty)) == e2,
            None => !ok && final(regs)@ == old(regs)@ && final(stores)@ == old(stores)@
                && *final(dirty) == *old(dirty),
        },
{
    match insn {
        Arm64Insn::AddReg { rd, rn, rm } => {
            let v = reg_get(regs, *rn).wrapping_add(reg_get(regs, *rm));
            reg_put(regs, dirty, *rd, v);
            true
        },
        Arm64Insn::AddImm { rd, rn, imm } => {
            let v = reg_get(regs, *rn).wrapping_add(*imm as u64);
            reg_put(regs, dirty, *rd, v);
            true
        },
        Arm64Insn::SubReg { rd, rn, rm } => {
            let v = reg_get(regs, *rn).wrapping_sub(reg_get(regs, *rm));
            reg_put(regs, dirty, *rd, v);
            true
        },
        Arm64Insn::SubImm { rd, rn, imm } => {
            let v = reg_get(regs, *rn).wrapping_sub(*imm as u64);
            reg_put(regs, dirty, *rd, v);
            true
        },
        Arm64Insn::Mul { rd, rn, rm } => {
            let v = reg_get(regs, *rn).wrapping_mul(reg_get(regs, *rm));
            reg_put(regs, dirty, *rd, v);
            true
        },
        Arm64Insn::UDiv { rd, rn, rm } => {
            let x = reg_get(regs, *rn);
            let y = reg_get(regs, *rm);
            let v = if y == 0 {
                0
            } else {
                x / y
            };
            reg_put(regs, dirty, *rd, v);
            true
        },
        Arm64Insn::AndReg { rd, rn, rm } => {
            let v = reg_get(regs, *rn) & reg_get(regs, *rm);
            reg_put(regs, dirty, *rd, v);
            true
        },
        Arm64Insn::OrrReg { rd, rn, rm } => {
            let v = reg_get(regs, *rn) | reg_get(regs, *rm);
            reg_put(regs, dirty, *rd, v);
            true
        },
        Arm64Insn::EorReg { rd, rn, rm } => {
            let v = reg_get(regs, *rn) ^ reg_get(regs, *rm);
            reg_put(regs, dirty, *rd, v);
            true
        },
        Arm64Insn::Lsl { rd, rn, rm } => {
            let amount = (reg_get(regs, *rm) % 64) as u32;
            let v = reg_get(regs, *rn).wrapping_shl(amount);
            reg_put(regs, dirty, *rd, v);
            true
        },
        Arm64Insn::Lsr { rd, rn, rm } => {
            let amount = (reg_get(regs, *rm) % 64) as u32;
            let v = reg_get(regs, *rn).wrapping_shr(amount);
            reg_put(regs, dirty, *rd, v);
            true
        },
        Arm64Insn::LdrImm { rt, rn, imm } => {
            let addr = reg_get(regs, *rn).wrapping_add_signed(*imm as i64);
            exec_load(state, regs, stores, dirty, *rt, addr)
        },
        Arm64Insn::LdrReg { rt, rn, rm } => {
            let addr = reg_get(regs, *rn).wrapping_add(reg_get(regs, *rm));
            exec_load(state, regs, stores, dirty, *rt, addr)
        },
        Arm64Insn::StrImm { rt, rn, imm } => {
            let addr = reg_get(regs, *rn).wrapping_add_signed(*imm as i64);
            exec_store(regs, stores, *rt, addr)
        },
        Arm64Insn::StrReg { rt, rn, rm } => {
            let addr = reg_get(regs, *rn).wrapping_add(reg_get(regs, *rm));
            exec_store(regs, stores, *rt, addr)
        },
        Arm64Insn::BranchLink { .. } => {
            reg_put(regs, dirty, 30, pc.wrapping_add(4));
            true
        },
        Arm64Insn::Branch { .. } | Arm64Insn::BranchReg { .. } | Arm64Insn::Ret | Arm64Insn::Nop => {
            true
        },
        Arm64Insn::Mov { rd, rn } => {
            let v = reg_get(regs, *rn);
            reg_put(regs, dirty, *rd, v);
            true
        },
        Arm64Insn::MovImm { rd, imm } => {
            reg_put(regs, dirty, *rd, *imm);
            true
        },
    }
}

/// Whether a decoded instruction ends its basic block.
pub fn is_block_end(insn: &Arm64Insn) -> (r: bool)
    ensures
        r == ends_block(*insn),
{
    match insn {
        Arm64Insn::Branch { .. } | Arm64Insn::BranchLink { .. } | Arm64Insn::BranchReg { .. }
        | Arm64Insn::Ret => true,
        _ => false,
    }
}

/// Runs the basic block in `code` (whole little-endian words; a trailing
/// partial word is ignored) from the registers `regs` over the session's
/// memory, which it does not change: returns the final registers, the
/// stores made, in order, and the bitmap of the registers written.
pub fn execute_block(code: &[u8], start_pc: u64, state: &SessionState, regs: [u64; 31]) -> (r: (
    [u64; 31],
    Vec<MemoryDelta>,
    u32,
))
    ensures
        effect_of(r.0@, r.1@, r.2) == run_block(
            code@,
            0,
            (code@.len() / 4) as int,
            start_pc,
            state.pages(),
            start_effect(regs@),
        ),
        stores_fit(deltas_view(r.1@)),
{
    let len = code.len();
    let n = len / 4;
    let ghost full = run_block(code@, 0, n as int, start_pc, state.pages(), start_effect(regs@));
    let mut regs = regs;
    let mut stores: Vec<MemoryDelta> = Vec::new();
    let mut dirty: u32 = 0;
    let mut i: usize = 0;
    assert(deltas_view(stores@) =~= Seq::<(u64, Seq<u8>)>::empty());
    while i < n
        invariant_except_break
            i <= n,
            run_block(code@, i as int, n as int, start_pc, state.pages(), effect_of(regs@, stores@, dirty))
                == full,
        invariant
            n == code@.len() / 4,
            len == code@.len(),
            4 * n <= len,
            stores_fit(deltas_view(stores@)),
        ensures
            effect_of(regs@, stores@, dirty) == full,
        decreases n - i,
    {
        let raw = read_u32_at(code, 4 * i);
        assert(raw == word_at(code@, i as int));
        match decode_arm64(raw) {
            Ok(insn) => {
                let pc = start_pc.wrapping_add((4 * i) as u64);
                let ghost e0 = effect_of(regs@, stores@, dirty);
                let ok = exec_insn(&insn, pc, state, &mut regs, &mut stores, &mut dirty);
                if !ok {
                    break;
                }
                proof {
                    lemma_step_keeps_stores_fit(insn, pc, state.pages(), e0);
                }
                if is_block_end(&insn) {
                    break;
                }
            },
            Err(_) => {
                break;
            },
        }
        i = i + 1;
    }
    (regs, stores, dirty)
}

} // verus!
