//! The sandboxed execution state of a session: register shadow, paged memory
//! shadow, JIT translation cache and speculative result cache.
use crate::protocol::{applied_registers, bit_set, deltas_view, ExecutionResult, MemoryDelta};
use std::collections::HashMap;
use vstd::prelude::*;

verus! {

broadcast use vstd::std_specs::hash::group_hash_axioms;

/// Page size of the memory shadow (4 KiB).
pub const PAGE_SIZE: usize = 4096;

/// Cache line size for delta compression (64 bytes).
pub const CACHE_LINE_SIZE: usize = 64;

/// Speculative cache entries kept before eviction.
pub const MAX_SPECULATIVE_ENTRIES: usize = 256;

/// A translated ARM64 basic block: its x86_64 machine code.
#[derive(Debug, Clone)]
pub struct JitBlock {
    /// The x86_64 machine code bytes.
    pub code: Vec<u8>,
    /// Number of ARM64 instructions in the block.
    pub arm64_insn_count: usize,
    /// The ARM64 PC where the block starts.
    pub start_pc: u64,
    /// The ARM64 PC where the block ends (exclusive).
    pub end_pc: u64,
    /// How many times the block has been executed.
    pub execution_count: u64,
    /// The block's ARM64 instructions, as little-endian words.
    pub arm64_code: Vec<u8>,
}

/// Session counters, for diagnostics.
#[derive(Debug, Clone, Copy)]
pub struct SessionStats {
    pub instructions_translated: u64,
    pub instructions_executed: u64,
    pub jit_cache_entries: usize,
    pub memory_pages: usize,
    pub speculative_cache_size: usize,
}

/// The complete execution state of one offloaded session.
#[derive(Debug)]
pub struct SessionState {
    /// Shadow copy of ARM64 registers X0-X30.
    pub register_shadow: [u64; 31],
    /// Shadow copy of the ARM64 program counter.
    pub pc_shadow: u64,
    /// Virtual memory shadow: page-aligned address to page data.
    pub memory_shadow: HashMap<u64, Vec<u8>>,
    /// JIT translation cache: ARM64 PC to translated block.
    pub jit_cache: HashMap<u64, JitBlock>,
    /// Speculative execution results, by predicted sequence number.
    pub speculative_cache: HashMap<u32, ExecutionResult>,
    /// Insertion order of the speculative entries, oldest first.
    pub speculative_order: Vec<u32>,
    /// Total instructions translated in this session.
    pub instructions_translated: u64,
    /// Total blocks executed in this session.
    pub instructions_executed: u64,
}

/// The page that holds address `a`.
pub open spec fn page_base(a: int) -> int {
    a - a % 4096
}

/// The byte at `a` after writing `data` at `address` over a memory whose
/// byte there was `before`.
pub open spec fn overlay_byte(before: u8, address: int, data: Seq<u8>, a: int) -> u8 {
    if address <= a < address + data.len() {
        data[a - address]
    } else {
        before
    }
}

/// The byte at address `a` of a paged memory: the page's byte when the page
/// is present (and long enough), zero otherwise (and outside the 64-bit
/// address space).
pub open spec fn page_byte(pages: Map<u64, Seq<u8>>, a: int) -> u8 {
    let b = page_base(a) as u64;
    if 0 <= a <= u64::MAX && pages.contains_key(b) && a % 4096 < pages[b].len() {
        pages[b][a % 4096]
    } else {
        0
    }
}

/// The byte at `a` after applying `deltas` in order over a paged memory.
pub open spec fn byte_after_deltas(pages: Map<u64, Seq<u8>>, deltas: Seq<(u64, Seq<u8>)>, a: int) -> u8
    decreases deltas.len(),
{
    if deltas.len() == 0 {
        page_byte(pages, a)
    } else {
        overlay_byte(
            byte_after_deltas(pages, deltas.drop_last(), a),
            deltas.last().0 as int,
            deltas.last().1,
            a,
        )
    }
}

/// `s` without any occurrence of `x`, order kept.
pub open spec fn without(s: Seq<u32>, x: u32) -> Seq<u32>
    decreases s.len(),
{
    if s.len() == 0 {
        s
    } else if s.last() == x {
        without(s.drop_last(), x)
    } else {
        without(s.drop_last(), x).push(s.last())
    }
}

/// Whether some byte of `s` is non-zero.
pub open spec fn any_nonzero(s: Seq<u8>) -> bool {
    exists|i: int| 0 <= i < s.len() && s[i] != 0
}

impl SessionState {
    // -----------------------------------------------------------------------
    // The model

    /// The register shadow.
    pub open spec fn regs(self) -> Seq<u64> {
        self.register_shadow@
    }

    /// The program counter shadow.
    pub open spec fn pc(self) -> u64 {
        self.pc_shadow
    }

    /// The shadow pages, by base address.
    pub open spec fn pages(self) -> Map<u64, Seq<u8>> {
        self.memory_shadow@.map_values(|p: Vec<u8>| p@)
    }

    /// The translation cache.
    pub open spec fn jit(self) -> Map<u64, JitBlock> {
        self.jit_cache@
    }

    /// The speculative results, by sequence number.
    pub open spec fn spec_cache(self) -> Map<u32, ExecutionResult> {
        self.speculative_cache@
    }

    /// The order in which speculative results were stored, oldest first.
    pub open spec fn spec_order(self) -> Seq<u32> {
        self.speculative_order@
    }

    /// Instructions translated so far.
    pub open spec fn translated(self) -> u64 {
        self.instructions_translated
    }

    /// Blocks executed so far.
    pub open spec fn executed(self) -> u64 {
        self.instructions_executed
    }

    /// The byte at address `a` of the session's memory.
    pub open spec fn mem_byte(self, a: int) -> u8 {
        page_byte(self.pages(), a)
    }

    /// `size` bytes of memory starting at `address`.
    pub open spec fn mem_range(self, address: int, size: nat) -> Seq<u8> {
        Seq::new(size, |i: int| self.mem_byte(address + i))
    }

    /// Every shadow page is keyed by a page-aligned address and holds
    /// exactly one page of bytes.
    pub open spec fn pages_full(self) -> bool {
        forall|k: u64| #[trigger]
            self.pages().contains_key(k) ==> k % 4096 == 0 && self.pages()[k].len() == PAGE_SIZE
    }

    /// The speculative cache lists each result exactly once in its eviction
    /// order and holds at most `MAX_SPECULATIVE_ENTRIES` results.
    pub open spec fn speculation_ok(self) -> bool {
        self.exact_order() && self.spec_cache().len() <= MAX_SPECULATIVE_ENTRIES
    }

    /// The state's internal invariant.
    pub open spec fn wf(self) -> bool {
        self.pages_full() && self.speculation_ok()
    }

    /// Every delta of `deltas` lies within the address space.
    pub open spec fn deltas_fit(deltas: Seq<(u64, Seq<u8>)>) -> bool {
        forall|i: int| 0 <= i < deltas.len() ==> #[trigger] deltas[i].0 + deltas[i].1.len() <= u64::MAX
    }

    /// The deltas of the watched regions that hold a non-zero byte, in order.
    pub open spec fn watched_deltas(self, watched: Seq<(u64, usize)>) -> Seq<(u64, Seq<u8>)>
        decreases watched.len(),
    {
        if watched.len() == 0 {
            Seq::empty()
        } else {
            let (addr, size) = watched.last();
            let data = self.mem_range(addr as int, size as nat);
            let rest = self.watched_deltas(watched.drop_last());
            if any_nonzero(data) {
                rest.push((addr, data))
            } else {
                rest
            }
        }
    }

    /// Whether storing a result for `seq` evicts the least recently stored
    /// one: `seq` is not held and the cache is full.
    pub open spec fn store_evicts(self, seq: u32) -> bool {
        &&& !self.spec_cache().contains_key(seq)
        &&& self.spec_cache().len() >= MAX_SPECULATIVE_ENTRIES
        &&& self.spec_order().len() > 0
    }

    /// The speculative results after storing `result` for `seq`.
    pub open spec fn stored_cache(self, seq: u32, result: ExecutionResult) -> Map<
        u32,
        ExecutionResult,
    > {
        if self.store_evicts(seq) {
            self.spec_cache().remove(self.spec_order()[0]).insert(seq, result)
        } else {
            self.spec_cache().insert(seq, result)
        }
    }

    /// The eviction order after storing a result for `seq`: `seq` moves to
    /// the most recent end, and an evicted result leaves the oldest end.
    pub open spec fn stored_order(self, seq: u32) -> Seq<u32> {
        if self.spec_cache().contains_key(seq) {
            without(self.spec_order(), seq).push(seq)
        } else if self.store_evicts(seq) {
            self.spec_order().drop_first().push(seq)
        } else {
            self.spec_order().push(seq)
        }
    }

    /// The eviction order lists each speculative result exactly once.
    pub open spec fn exact_order(self) -> bool {
        self.spec_order().no_duplicates() && self.spec_cache().dom() == self.spec_order().to_set()
    }

    /// Everything but memory is the same in both states.
    pub open spec fn same_but_memory(self, other: Self) -> bool {
        &&& self.regs() == other.regs()
        &&& self.pc() == other.pc()
        &&& self.jit() == other.jit()
        &&& self.spec_cache() == other.spec_cache()
        &&& self.spec_order() == other.spec_order()
        &&& self.translated() == other.translated()
        &&& self.executed() == other.executed()
    }

    /// Everything but the speculative cache is the same in both states.
    pub open spec fn same_but_speculation(self, other: Self) -> bool {
        &&& self.regs() == other.regs()
        &&& self.pc() == other.pc()
        &&& self.pages() == other.pages()
        &&& self.jit() == other.jit()
        &&& self.translated() == other.translated()
        &&& self.executed() == other.executed()
    }

    // -----------------------------------------------------------------------
    // Construction

    /// A blank session.
    pub fn new() -> (s: Self)
        ensures
            s.wf(),
            s.regs() == Seq::new(31, |i: int| 0u64),
            s.pc() == 0,
            s.pages() == Map::<u64, Seq<u8>>::empty(),
            s.jit() == Map::<u64, JitBlock>::empty(),
            s.spec_cache() == Map::<u32, ExecutionResult>::empty(),
            s.spec_order() == Seq::<u32>::empty(),
            s.translated() == 0,
            s.executed() == 0,
    {
        let s = SessionState {
            register_shadow: [0u64; 31],
            pc_shadow: 0,
            memory_shadow: HashMap::with_capacity(1024),
            jit_cache: HashMap::with_capacity(512),
            speculative_cache: HashMap::with_capacity(MAX_SPECULATIVE_ENTRIES),
            speculative_order: Vec::with_capacity(MAX_SPECULATIVE_ENTRIES),
            instructions_translated: 0,
            instructions_executed: 0,
        };
        assert(s.regs() =~= Seq::new(31, |i: int| 0u64));
        assert(s.spec_order().to_set() =~= s.spec_cache().dom());
        assert(s.pages() =~= Map::<u64, Seq<u8>>::empty());
        s
    }

    // -----------------------------------------------------------------------
    // Speculative cache

    /// Takes the pre-computed speculative result for `seq`, if there is one.
    pub fn check_speculative_cache(&mut self, seq: u32) -> (r: Option<ExecutionResult>)
        requires
            old(self).wf(),
        ensures
            final(self).wf(),
            final(self).same_but_speculation(*old(self)),
            if old(self).spec_cache().contains_key(seq) {
                &&& r == Some(old(self).spec_cache()[seq])
                &&& final(self).spec_cache() == old(self).spec_cache().remove(seq)
                &&& final(self).spec_order() == without(old(self).spec_order(), seq)
            } else {
                &&& r is None
                &&& final(self).spec_cache() == old(self).spec_cache()
                &&& final(self).spec_order() == old(self).spec_order()
            },
    {
        match self.speculative_cache.remove(&seq) {
            Some(result) => {
                let kept = order_without(&self.speculative_order, seq);
                self.speculative_order = kept;
                proof {
                    lemma_check_keeps_exact_order(*old(self), *self, seq);
                    assert(self.pages() == old(self).pages()) by {
                        assert(self.memory_shadow@ == old(self).memory_shadow@);
                    }
                }
                Some(result)
            },
            None => {
                proof {
                    assert(self.speculative_cache@ =~= old(self).speculative_cache@);
                    lemma_wf_frame(*self, *old(self));
                }
                None
            },
        }
    }

    /// Stores a speculative result for `seq`, which becomes the most
    /// recently stored. A result already held for `seq` is replaced; else,
    /// when the cache already holds `MAX_SPECULATIVE_ENTRIES` results, the
    /// least recently stored one is evicted first.
    pub fn store_speculative(&mut self, seq: u32, result: ExecutionResult)
        requires
            old(self).wf(),
        ensures
            final(self).wf(),
            final(self).same_but_speculation(*old(self)),
            final(self).spec_cache() == old(self).stored_cache(seq, result),
            final(self).spec_order() == old(self).stored_order(seq),
    {
        let ghost before = *self;
        if self.speculative_cache.contains_key(&seq) {
            let kept = order_without(&self.speculative_order, seq);
            self.speculative_order = kept;
        } else if self.speculative_cache.len() >= MAX_SPECULATIVE_ENTRIES
            && self.speculative_order.len() > 0 {
            let oldest_seq = self.speculative_order[0];
            self.speculative_cache.remove(&oldest_seq);
            self.speculative_order.remove(0);
            assert(self.spec_order() =~= before.spec_order().drop_first());
        }
        self.speculative_cache.insert(seq, result);
        self.speculative_order.push(seq);
        proof {
            assert(self.spec_cache() =~= before.stored_cache(seq, result));
            assert(self.spec_order() =~= before.stored_order(seq));
            lemma_speculative_capacity(before, *self, seq, result);
            assert(self.pages() == before.pages()) by {
                assert(self.memory_shadow@ == before.memory_shadow@);
            }
        }
    }

    // -----------------------------------------------------------------------
    // Applying results

    /// Applies an execution result to the session: dirty registers take the
    /// result's values, the memory deltas are written in order, and one more
    /// execution is counted.
    pub fn apply_result(&mut self, result: &ExecutionResult)
        requires
            old(self).wf(),
            old(self).executed() < u64::MAX,
            Self::deltas_fit(deltas_view(result.memory_deltas@)),
        ensures
            final(self).wf(),
            final(self).regs() == applied_registers(
                old(self).regs(),
                result.registers@,
                result.dirty_reg_bitmap,
            ),
            forall|a: int| #[trigger]
                final(self).mem_byte(a) == byte_after_deltas(
                    old(self).pages(),
                    deltas_view(result.memory_deltas@),
                    a,
                ),
            final(self).executed() == old(self).executed() + 1,
            final(self).pc() == old(self).pc(),
            final(self).jit() == old(self).jit(),
            final(self).spec_cache() == old(self).spec_cache(),
            final(self).spec_order() == old(self).spec_order(),
            final(self).translated() == old(self).translated(),
    {
        let ghost shadow0 = self.register_shadow@;
        let mut i: usize = 0;
        while i < 31
            invariant
                i <= 31,
                forall|j: int|
                    0 <= j < 31 ==> #[trigger] self.register_shadow@[j] == if j < i && bit_set(
                        result.dirty_reg_bitmap,
                        j,
                    ) {
                        result.registers@[j]
                    } else {
                        shadow0[j]
                    },
                self.memory_shadow == old(self).memory_shadow,
                self.jit_cache == old(self).jit_cache,
                self.speculative_cache == old(self).speculative_cache,
                self.speculative_order == old(self).speculative_order,
                self.pc_shadow == old(self).pc_shadow,
                self.instructions_translated == old(self).instructions_translated,
                self.instructions_executed == old(self).instructions_executed,
            decreases 31 - i,
        {
            if result.dirty_reg_bitmap & (1u32 << (i as u32)) != 0 {
                self.register_shadow[i] = result.registers[i];
            }
            i = i + 1;
        }
        assert(self.regs() =~= applied_registers(shadow0, result.registers@, result.dirty_reg_bitmap));
        proof {
            lemma_wf_frame(*self, *old(self));
        }
        let ghost ds = deltas_view(result.memory_deltas@);
        let ghost start = *self;
        assert(start.pages() == old(self).pages());
        let mut k: usize = 0;
        while k < result.memory_deltas.len()
            invariant
                k <= ds.len(),
                ds == deltas_view(result.memory_deltas@),
                Self::deltas_fit(ds),
                self.wf(),
                self.same_but_memory(start),
                forall|a: int| #[trigger]
                    self.mem_byte(a) == byte_after_deltas(start.pages(), ds.subrange(0, k as int), a),
            decreases ds.len() - k,
        {
            let delta = &result.memory_deltas[k];
            assert(ds[k as int] == (delta.address, delta.data@));
            assert(ds[k as int].0 + ds[k as int].1.len() <= u64::MAX);
            let ghost before = *self;
            self.write_memory(delta.address, delta.data.as_slice());
            proof {
                assert(ds.subrange(0, k + 1).drop_last() =~= ds.subrange(0, k as int));
                assert forall|a: int| #[trigger]
                    self.mem_byte(a) == byte_after_deltas(start.pages(), ds.subrange(0, k + 1), a) by {
                    assert(before.mem_byte(a) == byte_after_deltas(start.pages(), ds.subrange(0, k as int), a));
                }
            }
            k = k + 1;
        }
        assert(ds.subrange(0, k as int) =~= ds);
        let ghost before_count = *self;
        self.instructions_executed = self.instructions_executed + 1;
        proof {
            lemma_wf_frame(*self, before_count);
            assert forall|a: int| #[trigger]
                self.mem_byte(a) == byte_after_deltas(old(self).pages(), ds, a) by {
                assert(before_count.mem_byte(a) == byte_after_deltas(start.pages(), ds.subrange(0, k as int), a));
            }
        }
    }

    // -----------------------------------------------------------------------
    // Memory shadow

    /// Reads `size` bytes of the memory shadow at `address`; bytes of pages
    /// never written read as zero.
    pub fn read_memory(&self, address: u64, size: usize) -> (r: Vec<u8>)
        requires
            address + size <= u64::MAX,
        ensures
            r@ == self.mem_range(address as int, size as nat),
    {
        let mut result = zeroed(size);
        let mut offset: usize = 0;
        let mut addr: u64 = address;
        while offset < size
            invariant
                offset <= size,
                addr == address + offset,
                address + size <= u64::MAX,
                result@.len() == size,
                forall|i: int|
                    0 <= i < size ==> #[trigger] result@[i] == if i < offset {
                        self.mem_byte(address + i)
                    } else {
                        0u8
                    },
            decreases size - offset,
        {
            let base = page_of(addr);
            let page_offset = (addr - base) as usize;
            let room = PAGE_SIZE - page_offset;
            let bytes_in_page = if room < size - offset {
                room
            } else {
                size - offset
            };
            proof {
                lemma_in_page(addr as int, bytes_in_page as int);
            }
            let ghost before = result@;
            match self.memory_shadow.get(&base) {
                Some(page_data) => {
                    proof {
                        assert(self.pages().contains_key(base));
                        assert(self.pages()[base] == page_data@);
                    }
                    let src_end = if page_offset + bytes_in_page < page_data.len() {
                        page_offset + bytes_in_page
                    } else {
                        page_data.len()
                    };
                    let copy_len = if src_end > page_offset {
                        src_end - page_offset
                    } else {
                        0
                    };
                    let mut j: usize = 0;
                    while j < copy_len
                        invariant
                            j <= copy_len,
                            copy_len <= bytes_in_page,
                            page_offset + bytes_in_page <= PAGE_SIZE,
                            copy_len == 0 || page_offset + copy_len <= page_data@.len(),
                            offset + bytes_in_page <= size,
                            result@.len() == size,
                            forall|i: int|
                                0 <= i < size ==> #[trigger] result@[i] == if offset <= i < offset + j {
                                    page_data@[page_offset + i - offset]
                                } else {
                                    before[i]
                                },
                        decreases copy_len - j,
                    {
                        result[offset + j] = page_data[page_offset + j];
                        j = j + 1;
                    }
                    proof {
                        assert forall|i: int| 0 <= i < size implies #[trigger] result@[i] == if i
                            < offset + bytes_in_page {
                            self.mem_byte(address + i)
                        } else {
                            0u8
                        } by {
                            if offset <= i < offset + bytes_in_page {
                                assert((address + i) % 4096 == page_offset + (i - offset));
                                assert(page_base(address + i) == base);
                            }
                        }
                    }
                },
                None => {
                    proof {
                        assert(!self.pages().contains_key(base));
                        assert forall|i: int| 0 <= i < size implies #[trigger] result@[i] == if i
                            < offset + bytes_in_page {
                            self.mem_byte(address + i)
                        } else {
                            0u8
                        } by {
                            if offset <= i < offset + bytes_in_page {
                                assert(page_base(address + i) == base);
                            }
                        }
                    }
                },
            }
            offset = offset + bytes_in_page;
            addr = addr + bytes_in_page as u64;
        }
        assert(result@ =~= self.mem_range(address as int, size as nat));
        result
    }

    /// Writes `data` to the memory shadow at `address`, creating zeroed pages
    /// on demand.
    #[verifier::rlimit(40)]
    pub fn write_memory(&mut self, address: u64, data: &[u8])
        requires
            old(self).pages_full(),
            address + data@.len() <= u64::MAX,
        ensures
            final(self).pages_full(),
            final(self).speculation_ok() == old(self).speculation_ok(),
            final(self).same_but_memory(*old(self)),
            forall|a: int| #[trigger]
                final(self).mem_byte(a) == overlay_byte(old(self).mem_byte(a), address as int, data@, a),
    {
        let dlen = data.len();
        let mut offset: usize = 0;
        let mut addr: u64 = address;
        while offset < data.len()
            invariant
                dlen == data@.len(),
                offset <= data@.len(),
                addr == address + offset,
                address + data@.len() <= u64::MAX,
                self.pages_full(),
                self.same_but_memory(*old(self)),
                self.speculative_cache == old(self).speculative_cache,
                self.speculative_order == old(self).speculative_order,
                forall|a: int| #[trigger]
                    self.mem_byte(a) == overlay_byte(
                        old(self).mem_byte(a),
                        address as int,
                        data@.subrange(0, offset as int),
                        a,
                    ),
            decreases data@.len() - offset,
        {
            let base = page_of(addr);
            let page_offset = (addr - base) as usize;
            let room = PAGE_SIZE - page_offset;
            let bytes_in_page = if room < data.len() - offset {
                room
            } else {
                data.len() - offset
            };
            proof {
                lemma_in_page(addr as int, bytes_in_page as int);
            }
            let ghost before = *self;
            let mut page = match self.memory_shadow.remove(&base) {
                Some(p) => {
                    proof {
                        assert(before.pages().contains_key(base));
                        assert(before.pages()[base] == p@);
                    }
                    p
                },
                None => {
                    proof {
                        assert(!before.pages().contains_key(base));
                    }
                    zeroed(PAGE_SIZE)
                },
            };
            let ghost page0 = page@;
            assert(page0.len() == PAGE_SIZE);
            assert forall|i: int| 0 <= i < PAGE_SIZE implies #[trigger] page0[i] == before.mem_byte(
                base + i,
            ) by {
                lemma_page_of(base + i, base as int);
            }
            let mut j: usize = 0;
            while j < bytes_in_page
                invariant
                    j <= bytes_in_page,
                    page_offset + bytes_in_page <= PAGE_SIZE,
                    offset + bytes_in_page <= data@.len(),
                    dlen == data@.len(),
                    page@.len() == page0.len(),
                    page0.len() == PAGE_SIZE,
                    forall|i: int|
                        0 <= i < page0.len() ==> #[trigger] page@[i] == if page_offset <= i
                            < page_offset + j {
                            data@[offset + i - page_offset]
                        } else {
                            page0[i]
                        },
                decreases bytes_in_page - j,
            {
                page[page_offset + j] = data[offset + j];
                j = j + 1;
            }
            self.memory_shadow.insert(base, page);
            proof {
                assert(self.pages() =~= before.pages().insert(base, page@));
                assert forall|k: u64| #[trigger] self.pages().contains_key(k) implies k % 4096 == 0
                    && self.pages()[k].len() == PAGE_SIZE by {
                    if k != base {
                        assert(before.pages().contains_key(k));
                    }
                }
                assert forall|a: int| #[trigger]
                    self.mem_byte(a) == overlay_byte(
                        old(self).mem_byte(a),
                        address as int,
                        data@.subrange(0, offset + bytes_in_page),
                        a,
                    ) by {
                    lemma_page_of(a, base as int);
                    assert(before.mem_byte(a) == overlay_byte(
                        old(self).mem_byte(a),
                        address as int,
                        data@.subrange(0, offset as int),
                        a,
                    ));
                    if page_base(a) == base as int {
                        assert(page0[a % 4096] == before.mem_byte(a));
                    } else if 0 <= a <= u64::MAX {
                        assert(page_base(a) as u64 != base);
                    }
                }
            }
            offset = offset + bytes_in_page;
            addr = addr + bytes_in_page as u64;
        }
        assert(data@.subrange(0, offset as int) =~= data@);
    }

    /// Memory deltas for the watched regions that hold a non-zero byte.
    pub fn compute_memory_deltas(&self, watched_addresses: &[(u64, usize)]) -> (r: Vec<MemoryDelta>)
        requires
            forall|i: int|
                0 <= i < watched_addresses@.len() ==> #[trigger] watched_addresses@[i].0
                    + watched_addresses@[i].1 <= u64::MAX,
        ensures
            deltas_view(r@) == self.watched_deltas(watched_addresses@),
    {
        let mut deltas: Vec<MemoryDelta> = Vec::new();
        let mut i: usize = 0;
        while i < watched_addresses.len()
            invariant
                i <= watched_addresses@.len(),
                forall|j: int|
                    0 <= j < watched_addresses@.len() ==> #[trigger] watched_addresses@[j].0
                        + watched_addresses@[j].1 <= u64::MAX,
                deltas_view(deltas@) == self.watched_deltas(watched_addresses@.subrange(0, i as int)),
            decreases watched_addresses@.len() - i,
        {
            let (addr, size) = watched_addresses[i];
            assert(watched_addresses@[i as int] == (addr, size));
            let data = self.read_memory(addr, size);
            let nonzero = any_nonzero_byte(&data);
            let ghost before = deltas@;
            if nonzero {
                deltas.push(MemoryDelta { address: addr, data });
                assert(deltas_view(deltas@) =~= deltas_view(before).push(deltas@.last()@));
            }
            proof {
                let w = watched_addresses@.subrange(0, i + 1);
                assert(w.drop_last() =~= watched_addresses@.subrange(0, i as int));
                assert(w.last() == (addr, size));
            }
            i = i + 1;
        }
        assert(watched_addresses@.subrange(0, i as int) =~= watched_addresses@);
        deltas
    }

    // -----------------------------------------------------------------------
    // JIT cache

    /// The translated block for `pc`, if there is one.
    pub fn get_jit_block(&self, pc: u64) -> (r: Option<&JitBlock>)
        ensures
            match r {
                Some(b) => self.jit().contains_key(pc) && *b == self.jit()[pc],
                None => !self.jit().contains_key(pc),
            },
    {
        self.jit_cache.get(&pc)
    }

    /// Stores a translated block for `pc`, counting its instructions.
    pub fn store_jit_block(&mut self, pc: u64, block: JitBlock)
        requires
            old(self).translated() + block.arm64_insn_count <= u64::MAX,
        ensures
            final(self).jit() == old(self).jit().insert(pc, block),
            final(self).translated() == old(self).translated() + block.arm64_insn_count,
            final(self).regs() == old(self).regs(),
            final(self).pc() == old(self).pc(),
            final(self).pages() == old(self).pages(),
            final(self).spec_cache() == old(self).spec_cache(),
            final(self).spec_order() == old(self).spec_order(),
            final(self).executed() == old(self).executed(),
    {
        self.instructions_translated = self.instructions_translated + block.arm64_insn_count as u64;
        self.jit_cache.insert(pc, block);
    }

    /// The session counters.
    pub fn stats(&self) -> (s: SessionStats)
        ensures
            s.instructions_translated == self.translated(),
            s.instructions_executed == self.executed(),
            s.jit_cache_entries == self.jit().len(),
            s.memory_pages == self.pages().len(),
            s.speculative_cache_size == self.spec_cache().len(),
    {
        proof {
            assert(self.pages().dom() =~= self.memory_shadow@.dom());
        }
        SessionStats {
            instructions_translated: self.instructions_translated,
            instructions_executed: self.instructions_executed,
            jit_cache_entries: self.jit_cache.len(),
            memory_pages: self.memory_shadow.len(),
            speculative_cache_size: self.speculative_cache.len(),
        }
    }
}

impl Default for SessionState {
    fn default() -> (s: Self)
        ensures
            s.wf(),
            s.regs() == Seq::new(31, |i: int| 0u64),
            s.pc() == 0,
            s.pages() == Map::<u64, Seq<u8>>::empty(),
            s.jit() == Map::<u64, JitBlock>::empty(),
            s.spec_cache() == Map::<u32, ExecutionResult>::empty(),
            s.spec_order() == Seq::<u32>::empty(),
            s.translated() == 0,
            s.executed() == 0,
    {
        Self::new()
    }
}

/// The page-aligned base of `addr`.
fn page_of(addr: u64) -> (b: u64)
    ensures
        b == page_base(addr as int),
        b % 4096 == 0,
        b <= addr < b + 4096,
{
    assert(addr & !4095u64 == addr - addr % 4096) by (bit_vector);
    addr & !(PAGE_SIZE as u64 - 1)
}

/// The invariant only depends on the pages and the speculative cache.
proof fn lemma_wf_frame(a: SessionState, b: SessionState)
    requires
        b.wf(),
        a.memory_shadow@ == b.memory_shadow@,
        a.speculative_cache@ == b.speculative_cache@,
        a.speculative_order@ == b.speculative_order@,
    ensures
        a.wf(),
        a.pages() == b.pages(),
{
    assert(a.pages() == b.pages());
    assert(a.spec_cache() == b.spec_cache());
    assert(a.spec_order() == b.spec_order());
}

proof fn lemma_in_page(addr: int, n: int)
    requires
        0 <= addr,
        0 <= n <= 4096 - addr % 4096,
    ensures
        forall|a: int| addr <= a < addr + n ==> page_base(a) == page_base(addr) && #[trigger] (a % 4096) == addr % 4096 + (a - addr),
{
}

proof fn lemma_page_of(a: int, b: int)
    requires
        b % 4096 == 0,
        0 <= b,
    ensures
        (page_base(a) == b) <==> (b <= a < b + 4096),
        page_base(a) == b ==> a % 4096 == a - b,
{
}

/// `order` without any occurrence of `seq`, order kept.
fn order_without(order: &Vec<u32>, seq: u32) -> (r: Vec<u32>)
    ensures
        r@ == without(order@, seq),
{
    let mut kept: Vec<u32> = Vec::with_capacity(order.len());
    let mut i: usize = 0;
    while i < order.len()
        invariant
            i <= order@.len(),
            kept@ == without(order@.subrange(0, i as int), seq),
        decreases order@.len() - i,
    {
        let s = order[i];
        if s != seq {
            kept.push(s);
        }
        proof {
            assert(order@.subrange(0, i + 1).drop_last() =~= order@.subrange(0, i as int));
        }
        i = i + 1;
    }
    assert(order@.subrange(0, i as int) =~= order@);
    kept
}

/// Whether `s` has a non-zero byte.
fn any_nonzero_byte(s: &Vec<u8>) -> (r: bool)
    ensures
        r == any_nonzero(s@),
{
    let mut i: usize = 0;
    while i < s.len()
        invariant
            i <= s@.len(),
            forall|j: int| 0 <= j < i ==> s@[j] == 0,
        decreases s@.len() - i,
    {
        if s[i] != 0 {
            return true;
        }
        i = i + 1;
    }
    false
}

/// A vector of `n` zero bytes.
fn zeroed(n: usize) -> (r: Vec<u8>)
    ensures
        r@.len() == n,
        forall|i: int| 0 <= i < n ==> #[trigger] r@[i] == 0,
{
    let mut r: Vec<u8> = Vec::with_capacity(n);
    let mut i: usize = 0;
    while i < n
        invariant
            i <= n,
            r@.len() == i,
            forall|j: int| 0 <= j < i ==> #[trigger] r@[j] == 0,
        decreases n - i,
    {
        r.push(0);
        i = i + 1;
    }
    r
}

/// What `without` keeps: the elements other than `x`, each as often as before.
proof fn lemma_without(s: Seq<u32>, x: u32)
    ensures
        forall|k: u32| #[trigger] without(s, x).contains(k) <==> (s.contains(k) && k != x),
        s.no_duplicates() ==> without(s, x).no_duplicates(),
    decreases s.len(),
{
    if s.len() > 0 {
        let p = s.drop_last();
        lemma_without(p, x);
        let w = without(p, x);
        assert(s =~= p.push(s.last()));
        assert forall|k: u32| #[trigger] without(s, x).contains(k) <==> (s.contains(k) && k != x) by {
            lemma_push_contains(p, s.last(), k);
            if s.last() != x {
                lemma_push_contains(w, s.last(), k);
            }
        }
        if s.no_duplicates() {
            assert(p.no_duplicates());
            if s.last() != x {
                assert(!w.contains(s.last())) by {
                    if p.contains(s.last()) {
                        let j = choose|j: int| 0 <= j < p.len() && p[j] == s.last();
                        assert(s[j] == s[s.len() - 1]);
                    }
                }
                let ws = without(s, x);
                assert forall|i: int, j: int| 0 <= i < ws.len() && 0 <= j < ws.len() && i != j implies ws[i]
                    != ws[j] by {
                    if i < w.len() && j == w.len() {
                        assert(w.contains(w[i]));
                    } else if j < w.len() && i == w.len() {
                        assert(w.contains(w[j]));
                    }
                }
            }
        }
    }
}

proof fn lemma_push_contains(q: Seq<u32>, e: u32, k: u32)
    ensures
        q.push(e).contains(k) <==> (q.contains(k) || k == e),
{
    if q.contains(k) {
        let i = choose|i: int| 0 <= i < q.len() && q[i] == k;
        assert(q.push(e)[i] == k);
    }
    if k == e {
        assert(q.push(e)[q.len() as int] == k);
    }
    if q.push(e).contains(k) && k != e {
        let i = choose|i: int| 0 <= i < q.push(e).len() && q.push(e)[i] == k;
        assert(q[i] == k);
    }
}

/// Reading back a written range gives the written bytes.
pub proof fn lemma_read_after_write(
    before: SessionState,
    after: SessionState,
    address: int,
    data: Seq<u8>,
)
    requires
        forall|a: int| #[trigger]
            after.mem_byte(a) == overlay_byte(before.mem_byte(a), address, data, a),
    ensures
        after.mem_range(address, data.len()) == data,
{
    assert(after.mem_range(address, data.len()) =~= data);
}

/// A write leaves every byte outside the written range as it was.
pub proof fn lemma_write_preserves_rest(
    before: SessionState,
    after: SessionState,
    address: int,
    data: Seq<u8>,
    a: int,
)
    requires
        forall|x: int| #[trigger]
            after.mem_byte(x) == overlay_byte(before.mem_byte(x), address, data, x),
        !(address <= a < address + data.len()),
    ensures
        after.mem_byte(a) == before.mem_byte(a),
{
    assert(after.mem_byte(a) == overlay_byte(before.mem_byte(a), address, data, a));
}

/// A fresh session's memory reads as zero everywhere.
pub proof fn lemma_fresh_memory_is_zero(s: SessionState, address: int, size: nat)
    requires
        s.pages() == Map::<u64, Seq<u8>>::empty(),
    ensures
        s.mem_range(address, size) == Seq::new(size, |i: int| 0u8),
{
    assert(s.mem_range(address, size) =~= Seq::new(size, |i: int| 0u8));
}

/// A stored translation is found again at its PC, replacing any earlier
/// one there; the blocks at every other PC stay as they were.
pub proof fn lemma_store_then_get_jit_block(
    before: SessionState,
    after: SessionState,
    pc: u64,
    block: JitBlock,
    other: u64,
)
    requires
        after.jit() == before.jit().insert(pc, block),
    ensures
        after.jit().contains_key(pc),
        after.jit()[pc] == block,
        other != pc ==> after.jit().contains_key(other) == before.jit().contains_key(other),
        other != pc && before.jit().contains_key(other) ==> after.jit()[other] == before.jit()[other],
{
}

/// A stored speculative result is found again by its sequence number.
pub proof fn lemma_store_then_check(
    before: SessionState,
    after: SessionState,
    seq: u32,
    result: ExecutionResult,
)
    requires
        after.spec_cache() == before.stored_cache(seq, result),
    ensures
        after.spec_cache().contains_key(seq),
        after.spec_cache()[seq] == result,
{
}

/// Taking a speculative result keeps each remaining result listed exactly
/// once in the eviction order, and the cache no bigger.
pub proof fn lemma_check_keeps_exact_order(before: SessionState, after: SessionState, seq: u32)
    requires
        before.exact_order(),
        before.spec_cache().contains_key(seq),
        after.spec_cache() == before.spec_cache().remove(seq),
        after.spec_order() == without(before.spec_order(), seq),
    ensures
        after.exact_order(),
        after.spec_cache().len() < before.spec_cache().len(),
{
    lemma_without(before.spec_order(), seq);
    assert(after.spec_cache().dom() =~= after.spec_order().to_set()) by {
        assert forall|k: u32| after.spec_cache().dom().contains(k) <==> after.spec_order().to_set().contains(k) by {
            assert(before.spec_cache().dom().contains(k) == before.spec_order().to_set().contains(k));
        }
    }
}

/// The speculative cache holds at most `MAX_SPECULATIVE_ENTRIES` results,
/// each listed exactly once in the eviction order: every store keeps it so,
/// whether `seq` is already held (its result is replaced and it becomes the
/// most recent), the cache has room, or the cache is full (the least
/// recently stored result is evicted).
pub proof fn lemma_speculative_capacity(
    before: SessionState,
    after: SessionState,
    seq: u32,
    result: ExecutionResult,
)
    requires
        before.speculation_ok(),
        after.spec_cache() == before.stored_cache(seq, result),
        after.spec_order() == before.stored_order(seq),
    ensures
        after.speculation_ok(),
{
    let c = before.spec_cache();
    let o = before.spec_order();
    o.unique_seq_to_set();
    assert(c.len() == o.len());
    let held = c.contains_key(seq);
    let evicts = before.store_evicts(seq);
    let o1 = if held {
        without(o, seq)
    } else if evicts {
        o.drop_first()
    } else {
        o
    };
    let c1 = if held {
        c.remove(seq)
    } else if evicts {
        c.remove(o[0])
    } else {
        c
    };
    lemma_without(o, seq);
    if held {
        assert forall|x: u32| c1.dom().contains(x) <==> o1.to_set().contains(x) by {
            assert(o1.contains(x) == (o.contains(x) && x != seq));
            assert(o.to_set().contains(x) == c.dom().contains(x));
        }
        assert(c1.dom() =~= o1.to_set());
        assert(after.spec_cache() =~= c1.insert(seq, result));
    } else if evicts {
        assert(o1.no_duplicates());
        assert forall|x: u32| c1.dom().contains(x) <==> o1.to_set().contains(x) by {
            if o1.to_set().contains(x) {
                let i = choose|i: int| 0 <= i < o1.len() && o1[i] == x;
                assert(o[i + 1] == x);
                assert(o.to_set().contains(x));
            }
            if c1.dom().contains(x) {
                assert(o.to_set().contains(x));
                let i = choose|i: int| 0 <= i < o.len() && o[i] == x;
                assert(i != 0);
                assert(o1[i - 1] == x);
            }
        }
        assert(c1.dom() =~= o1.to_set());
        assert(after.spec_cache() == c1.insert(seq, result));
    } else {
        assert(after.spec_cache() == c1.insert(seq, result));
    }
    assert(c1.dom() == o1.to_set());
    assert(o1.no_duplicates());
    assert(!o1.to_set().contains(seq));
    let o2 = o1.push(seq);
    assert(o2.no_duplicates()) by {
        assert forall|i: int, j: int| 0 <= i < o2.len() && 0 <= j < o2.len() && i != j implies o2[i]
            != o2[j] by {
            if i < o1.len() && j == o1.len() {
                assert(o1.to_set().contains(o1[i]));
            } else if j < o1.len() && i == o1.len() {
                assert(o1.to_set().contains(o1[j]));
            }
        }
    }
    assert(after.spec_cache().dom() =~= o2.to_set()) by {
        assert forall|x: u32| after.spec_cache().dom().contains(x) <==> o2.to_set().contains(x) by {
            if o2.to_set().contains(x) && x != seq {
                let i = choose|i: int| 0 <= i < o2.len() && o2[i] == x;
                assert(o1[i] == x);
                assert(o1.to_set().contains(x));
            }
            if after.spec_cache().dom().contains(x) && x != seq {
                assert(o1.to_set().contains(x));
                let i = choose|i: int| 0 <= i < o1.len() && o1[i] == x;
                assert(o2[i] == x);
            }
            if x == seq {
                assert(o2[o1.len() as int] == seq);
            }
        }
    }
    o2.unique_seq_to_set();
    o1.unique_seq_to_set();
    assert(after.spec_order() == o2);
    if held {
        assert(after.spec_cache().dom() =~= c.dom());
    }
}

} // verus!
