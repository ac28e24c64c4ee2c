use phantom_core::predictor::{SpeculationTable, OUTPUT_SIZE, PREDICTION_COUNT};
use phantom_core::protocol::{ExecutionResult, MemoryDelta, OffloadRequest, FLAG_SPECULATIVE};
use phantom_core::sandbox::{JitBlock, SessionState, MAX_SPECULATIVE_ENTRIES, PAGE_SIZE};

fn result_with(seq: u32, rv: i64) -> ExecutionResult {
    ExecutionResult {
        session_id: 1,
        seq,
        registers: [0; 31],
        memory_deltas: vec![],
        return_value: rv,
        dirty_reg_bitmap: 0,
    }
}

#[test]
fn test_memory_read_write() {
    let mut state = SessionState::new();
    let data = vec![0xDE, 0xAD, 0xBE, 0xEF];
    state.write_memory(0x1000, &data);
    let read_back = state.read_memory(0x1000, 4);
    assert_eq!(read_back, data);
}

#[test]
fn test_memory_cross_page() {
    let mut state = SessionState::new();
    let addr = PAGE_SIZE as u64 - 2;
    let data = vec![1, 2, 3, 4];
    state.write_memory(addr, &data);
    let read_back = state.read_memory(addr, 4);
    assert_eq!(read_back, data);
}

#[test]
fn test_speculative_cache_lru() {
    let mut state = SessionState::new();
    for i in 0..MAX_SPECULATIVE_ENTRIES as u32 {
        state.store_speculative(i, result_with(i, i as i64));
    }
    state.store_speculative(999, result_with(999, 999));
    assert!(state.check_speculative_cache(0).is_none());
    assert!(state.check_speculative_cache(999).is_some());
}

#[test]
fn untouched_memory_reads_zero_and_writes_stay_local() {
    let mut state = SessionState::new();
    assert_eq!(state.read_memory(0x5000, 3), vec![0, 0, 0]);
    state.write_memory(0x5001, &[7]);
    assert_eq!(state.read_memory(0x5000, 3), vec![0, 7, 0]);
    assert_eq!(state.memory_shadow.len(), 1);
    // A write spanning three pages.
    let big: Vec<u8> = (0..(2 * PAGE_SIZE + 10)).map(|i| (i % 251) as u8).collect();
    state.write_memory(0x10000 - 5, &big);
    assert_eq!(state.read_memory(0x10000 - 5, big.len()), big);
    assert_eq!(state.read_memory(0x10000 - 6, 1), vec![0]);
    assert_eq!(state.stats().memory_pages, 5);
}

#[test]
fn memory_deltas_skip_all_zero_regions() {
    let mut state = SessionState::new();
    state.write_memory(0x100, &[0, 5]);
    let deltas = state.compute_memory_deltas(&[(0x100, 2), (0x200, 4), (0x101, 1)]);
    assert_eq!(deltas.len(), 2);
    assert_eq!(deltas[0].address, 0x100);
    assert_eq!(deltas[0].data, vec![0, 5]);
    assert_eq!(deltas[1].address, 0x101);
    assert_eq!(deltas[1].data, vec![5]);
}

#[test]
fn apply_result_updates_dirty_registers_and_memory() {
    let mut state = SessionState::new();
    let mut regs = [9u64; 31];
    regs[4] = 44;
    let result = ExecutionResult {
        session_id: 1,
        seq: 1,
        registers: regs,
        memory_deltas: vec![
            MemoryDelta { address: 0x20, data: vec![1, 2, 3] },
            MemoryDelta { address: 0x21, data: vec![9] },
        ],
        return_value: 0,
        dirty_reg_bitmap: 1 << 4,
    };
    state.apply_result(&result);
    assert_eq!(state.register_shadow[4], 44);
    assert_eq!(state.register_shadow[3], 0);
    assert_eq!(state.read_memory(0x20, 3), vec![1, 9, 3]);
    assert_eq!(state.instructions_executed, 1);
}

#[test]
fn speculative_results_are_taken_once() {
    let mut state = SessionState::new();
    state.store_speculative(5, result_with(5, 50));
    state.store_speculative(6, result_with(6, 60));
    assert_eq!(state.check_speculative_cache(5).unwrap().return_value, 50);
    assert!(state.check_speculative_cache(5).is_none());
    assert_eq!(state.stats().speculative_cache_size, 1);
    // Storing again under the same number replaces the result.
    state.store_speculative(6, result_with(6, 61));
    assert_eq!(state.check_speculative_cache(6).unwrap().return_value, 61);
}

#[test]
fn jit_cache_counts_instructions() {
    let mut state = SessionState::new();
    assert!(state.get_jit_block(0x10).is_none());
    state.store_jit_block(
        0x10,
        JitBlock {
            code: vec![0xC3],
            arm64_insn_count: 4,
            start_pc: 0x10,
            end_pc: 0x20,
            execution_count: 0,
            arm64_code: vec![0; 16],
        },
    );
    assert_eq!(state.get_jit_block(0x10).unwrap().end_pc, 0x20);
    let s = state.stats();
    assert_eq!(s.instructions_translated, 4);
    assert_eq!(s.jit_cache_entries, 1);
}

#[test]
fn speculation_table_predictions() {
    let mut table = SpeculationTable::new();
    let req = OffloadRequest {
        session_id: 3,
        seq: 100,
        func_id: 29,
        flags: 0,
        payload: vec![1],
        registers: [42; 31],
        pc: 0x8005,
    };
    table.observe(&req);
    // Class 0x8005 % 128 = 5 now predicts the observed call.
    let preds = table.predictions(&req, &[5, 2, 127, 1]);
    assert_eq!(preds.len(), PREDICTION_COUNT);
    assert_eq!(preds[0].seq, 101);
    assert_eq!(preds[1].seq, 102);
    assert_eq!(preds[2].seq, 103);
    assert_eq!((preds[0].func_id, preds[0].pc), (29, 0x8005));
    assert_eq!((preds[1].func_id, preds[1].pc), (98, 0x200));
    assert_eq!((preds[2].func_id, preds[2].pc), (0, 127 * 0x100));
    assert_eq!(preds[0].flags, FLAG_SPECULATIVE);
    assert!(preds[0].payload.is_empty());
    assert_eq!(preds[1].registers, [42; 31]);
    assert_eq!(table.predictions(&req, &[OUTPUT_SIZE - 1]).len(), 1);
    table.clear_history();
}

#[test]
fn restoring_a_held_seq_keeps_the_cache_within_capacity() {
    let mut state = SessionState::new();
    state.store_speculative(0, result_with(0, 0));
    state.store_speculative(0, result_with(0, 1));
    for i in 1..=255u32 {
        state.store_speculative(i, result_with(i, i as i64));
    }
    state.store_speculative(1000, result_with(1000, 1000));
    state.store_speculative(1001, result_with(1001, 1001));
    assert_eq!(state.stats().speculative_cache_size, MAX_SPECULATIVE_ENTRIES);
    assert_eq!(state.speculative_order.len(), MAX_SPECULATIVE_ENTRIES);
}

#[test]
fn restoring_a_seq_makes_it_most_recent() {
    let mut state = SessionState::new();
    for q in 0..=254u32 {
        state.store_speculative(q, result_with(q, q as i64));
    }
    state.store_speculative(0, result_with(0, -7));
    state.store_speculative(1000, result_with(1000, 1000));
    state.store_speculative(1001, result_with(1001, 1001));
    // Seq 1 is now the least recently stored and goes first.
    assert!(state.check_speculative_cache(1).is_none());
    assert_eq!(state.check_speculative_cache(0).unwrap().return_value, -7);
    assert!(state.check_speculative_cache(1001).is_some());
}

#[test]
fn memory_pages_are_aligned_and_full_size() {
    let mut state = SessionState::new();
    state.write_memory(0x1234_5FFE, &[1, 2, 3, 4]);
    assert_eq!(state.memory_shadow.len(), 2);
    for (base, page) in state.memory_shadow.iter() {
        assert_eq!(base % PAGE_SIZE as u64, 0);
        assert_eq!(page.len(), PAGE_SIZE);
    }
}
