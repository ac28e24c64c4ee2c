//! XOR-based forward error correction: two parity packets per block of eight
//! data packets, each parity covering one half of the block.
use crate::le::copy_range;
use vstd::prelude::*;

verus! {

/// Number of data packets per FEC block.
pub const FEC_BLOCK_SIZE: usize = 8;

/// Number of parity packets per FEC block.
pub const FEC_PARITY_COUNT: usize = 2;

/// Number of data packets covered by one parity packet.
pub const FEC_HALF: usize = 4;

// ---------------------------------------------------------------------------
// XOR over zero-padded byte strings

/// Byte `j` of `p` as seen when `p` is zero-padded to any length.
pub open spec fn pad_byte(p: Seq<u8>, j: int) -> u8 {
    if 0 <= j < p.len() {
        p[j]
    } else {
        0
    }
}

/// `p` zero-padded (or cut) to length `n`.
pub open spec fn padded(p: Seq<u8>, n: nat) -> Seq<u8> {
    Seq::new(n, |j: int| pad_byte(p, j))
}

/// A run of `n` zero bytes.
pub open spec fn zeros(n: nat) -> Seq<u8> {
    Seq::new(n, |j: int| 0u8)
}

/// Byte-wise XOR of two strings, the shorter one zero-padded.
pub open spec fn xor_pair(a: Seq<u8>, b: Seq<u8>) -> Seq<u8> {
    let n = if a.len() >= b.len() {
        a.len()
    } else {
        b.len()
    };
    Seq::new(n, |j: int| pad_byte(a, j) ^ pad_byte(b, j))
}

/// `init` XORed with each of `pkts` in turn.
pub open spec fn xor_fold(init: Seq<u8>, pkts: Seq<Seq<u8>>) -> Seq<u8>
    decreases pkts.len(),
{
    if pkts.len() == 0 {
        init
    } else {
        xor_pair(xor_fold(init, pkts.drop_last()), pkts.last())
    }
}

/// Byte `j` of the XOR of all of `pkts`, each zero-padded.
pub open spec fn xor_column(pkts: Seq<Seq<u8>>, j: int) -> u8
    decreases pkts.len(),
{
    if pkts.len() == 0 {
        0
    } else {
        xor_column(pkts.drop_last(), j) ^ pad_byte(pkts.last(), j)
    }
}

/// The length of the longest of `pkts` (0 for none).
pub open spec fn max_len(pkts: Seq<Seq<u8>>) -> nat
    decreases pkts.len(),
{
    if pkts.len() == 0 {
        0
    } else {
        let m = max_len(pkts.drop_last());
        if m >= pkts.last().len() {
            m
        } else {
            pkts.last().len()
        }
    }
}

/// The parity packet of one group: the XOR of its packets, starting from
/// `size` zero bytes.
pub open spec fn group_parity(group: Seq<Seq<u8>>, size: nat) -> Seq<u8> {
    xor_fold(zeros(size), group)
}

/// The two parity packets of a full block.
pub open spec fn block_parities(block: Seq<Seq<u8>>, size: nat) -> Seq<Seq<u8>> {
    seq![group_parity(block.subrange(0, 4), size), group_parity(block.subrange(4, 8), size)]
}

/// The byte strings held by a sequence of vectors.
pub open spec fn vecs_view(v: Seq<Vec<u8>>) -> Seq<Seq<u8>> {
    v.map_values(|p: Vec<u8>| p@)
}

proof fn lemma_xor_pair_pad(a: Seq<u8>, b: Seq<u8>, j: int)
    ensures
        pad_byte(xor_pair(a, b), j) == pad_byte(a, j) ^ pad_byte(b, j),
{
    assert(0u8 ^ 0u8 == 0u8) by (bit_vector);
}

/// What a fold of XORs is, byte by byte, and how long it is.
pub proof fn lemma_xor_fold(init: Seq<u8>, pkts: Seq<Seq<u8>>)
    ensures
        xor_fold(init, pkts).len() == if init.len() >= max_len(pkts) {
            init.len()
        } else {
            max_len(pkts)
        },
        forall|j: int| #[trigger]
            pad_byte(xor_fold(init, pkts), j) == pad_byte(init, j) ^ xor_column(pkts, j),
    decreases pkts.len(),
{
    if pkts.len() == 0 {
        assert forall|j: int| #[trigger]
            pad_byte(xor_fold(init, pkts), j) == pad_byte(init, j) ^ xor_column(pkts, j) by {
            let x = pad_byte(init, j);
            assert(x ^ 0u8 == x) by (bit_vector);
        }
    } else {
        lemma_xor_fold(init, pkts.drop_last());
        assert forall|j: int| #[trigger]
            pad_byte(xor_fold(init, pkts), j) == pad_byte(init, j) ^ xor_column(pkts, j) by {
            lemma_xor_pair_pad(xor_fold(init, pkts.drop_last()), pkts.last(), j);
            let x = pad_byte(init, j);
            let y = xor_column(pkts.drop_last(), j);
            let z = pad_byte(pkts.last(), j);
            assert((x ^ y) ^ z == x ^ (y ^ z)) by (bit_vector);
        }
    }
}

/// Each packet is at most as long as the longest one.
pub proof fn lemma_max_len(pkts: Seq<Seq<u8>>, k: int)
    requires
        0 <= k < pkts.len(),
    ensures
        pkts[k].len() <= max_len(pkts),
    decreases pkts.len(),
{
    if k < pkts.len() - 1 {
        lemma_max_len(pkts.drop_last(), k);
    }
}

proof fn lemma_xor_cancel4(a: u8, b: u8, c: u8, d: u8)
    ensures
        ((((0u8 ^ a) ^ b) ^ c) ^ d) ^ (((0u8 ^ b) ^ c) ^ d) == a,
        ((((0u8 ^ a) ^ b) ^ c) ^ d) ^ (((0u8 ^ a) ^ c) ^ d) == b,
        ((((0u8 ^ a) ^ b) ^ c) ^ d) ^ (((0u8 ^ a) ^ b) ^ d) == c,
        ((((0u8 ^ a) ^ b) ^ c) ^ d) ^ (((0u8 ^ a) ^ b) ^ c) == d,
{
    assert(((((0u8 ^ a) ^ b) ^ c) ^ d) ^ (((0u8 ^ b) ^ c) ^ d) == a) by (bit_vector);
    assert(((((0u8 ^ a) ^ b) ^ c) ^ d) ^ (((0u8 ^ a) ^ c) ^ d) == b) by (bit_vector);
    assert(((((0u8 ^ a) ^ b) ^ c) ^ d) ^ (((0u8 ^ a) ^ b) ^ d) == c) by (bit_vector);
    assert(((((0u8 ^ a) ^ b) ^ c) ^ d) ^ (((0u8 ^ a) ^ b) ^ c) == d) by (bit_vector);
}

/// Single-loss recovery: XORing a group's parity with the three packets that
/// arrived gives back the lost packet, zero-padded to the parity's length,
/// and that length is at least the lost packet's.
pub proof fn lemma_recover_single_loss(group: Seq<Seq<u8>>, size: nat, m: int)
    requires
        group.len() == 4,
        0 <= m < 4,
    ensures
        xor_fold(group_parity(group, size), group.remove(m)) == padded(
            group[m],
            group_parity(group, size).len(),
        ),
        group[m].len() <= group_parity(group, size).len(),
{
    let parity = group_parity(group, size);
    let others = group.remove(m);
    lemma_xor_fold(zeros(size), group);
    lemma_xor_fold(parity, others);
    lemma_max_len(group, m);
    assert forall|k: int| 0 <= k < 3 implies #[trigger] others[k].len() <= parity.len() by {
        if k < m {
            lemma_max_len(group, k);
        } else {
            lemma_max_len(group, k + 1);
        }
    }
    assert(max_len(others) <= parity.len()) by {
        lemma_max_len_bound(others, parity.len());
    }
    let rec = xor_fold(parity, others);
    assert forall|j: int| 0 <= j < parity.len() implies #[trigger] rec[j] == pad_byte(group[m], j) by {
        assert(pad_byte(rec, j) == rec[j]);
        assert(pad_byte(zeros(size), j) == 0u8);
        let a = pad_byte(group[0], j);
        let b = pad_byte(group[1], j);
        let c = pad_byte(group[2], j);
        let d = pad_byte(group[3], j);
        lemma_xor_column4(group, j);
        lemma_xor_column3(others, j);
        let p = pad_byte(parity, j);
        assert(p == 0u8 ^ ((((0u8 ^ a) ^ b) ^ c) ^ d));
        assert(0u8 ^ ((((0u8 ^ a) ^ b) ^ c) ^ d) == (((0u8 ^ a) ^ b) ^ c) ^ d) by (bit_vector);
        assert(pad_byte(rec, j) == p ^ xor_column(others, j));
        lemma_xor_cancel4(a, b, c, d);
        if m == 0 {
            assert(others[0] == group[1] && others[1] == group[2] && others[2] == group[3]);
        } else if m == 1 {
            assert(others[0] == group[0] && others[1] == group[2] && others[2] == group[3]);
        } else if m == 2 {
            assert(others[0] == group[0] && others[1] == group[1] && others[2] == group[3]);
        } else {
            assert(others[0] == group[0] && others[1] == group[1] && others[2] == group[2]);
        }
    }
    assert(rec =~= padded(group[m], parity.len()));
}

proof fn lemma_xor_column3(s: Seq<Seq<u8>>, j: int)
    requires
        s.len() == 3,
    ensures
        xor_column(s, j) == ((0u8 ^ pad_byte(s[0], j)) ^ pad_byte(s[1], j)) ^ pad_byte(s[2], j),
{
    let s2 = s.drop_last();
    let s1 = s2.drop_last();
    let s0 = s1.drop_last();
    assert(s0.len() == 0);
    assert(xor_column(s0, j) == 0u8);
    assert(xor_column(s1, j) == 0u8 ^ pad_byte(s[0], j));
    assert(xor_column(s2, j) == (0u8 ^ pad_byte(s[0], j)) ^ pad_byte(s[1], j));
}

proof fn lemma_xor_column4(s: Seq<Seq<u8>>, j: int)
    requires
        s.len() == 4,
    ensures
        xor_column(s, j) == (((0u8 ^ pad_byte(s[0], j)) ^ pad_byte(s[1], j)) ^ pad_byte(s[2], j))
            ^ pad_byte(s[3], j),
{
    lemma_xor_column3(s.drop_last(), j);
}

proof fn lemma_max_len_bound(pkts: Seq<Seq<u8>>, n: nat)
    requires
        forall|k: int| 0 <= k < pkts.len() ==> #[trigger] pkts[k].len() <= n,
    ensures
        max_len(pkts) <= n,
    decreases pkts.len(),
{
    if pkts.len() > 0 {
        assert forall|k: int| 0 <= k < pkts.drop_last().len() implies #[trigger] pkts.drop_last()[k].len()
            <= n by {
            assert(pkts.drop_last()[k] == pkts[k]);
        }
        lemma_max_len_bound(pkts.drop_last(), n);
        assert(pkts.last().len() <= n);
    }
}

/// XORs `src` into `dst` byte by byte; `dst` is first zero-extended if `src`
/// is longer.
pub fn xor_into(dst: &mut Vec<u8>, src: &[u8])
    ensures
        final(dst)@ == xor_pair(old(dst)@, src@),
{
    let ghost d0 = dst@;
    while dst.len() < src.len()
        invariant
            d0.len() <= dst@.len(),
            forall|j: int| 0 <= j < dst@.len() ==> #[trigger] dst@[j] == pad_byte(d0, j),
            dst@.len() <= src@.len() || dst@.len() == d0.len(),
        decreases src@.len() - dst@.len(),
    {
        dst.push(0);
    }
    let ghost d1 = dst@;
    let mut i: usize = 0;
    while i < src.len()
        invariant
            i <= src@.len(),
            src@.len() <= dst@.len(),
            dst@.len() == d1.len(),
            forall|j: int| 0 <= j < dst@.len() ==> #[trigger] d1[j] == pad_byte(d0, j),
            forall|j: int|
                0 <= j < dst@.len() ==> #[trigger] dst@[j] == if j < i {
                    pad_byte(d0, j) ^ pad_byte(src@, j)
                } else {
                    d1[j]
                },
        decreases src@.len() - i,
    {
        let v = dst[i] ^ src[i];
        dst[i] = v;
        i = i + 1;
    }
    assert forall|j: int| 0 <= j < dst@.len() implies #[trigger] dst@[j] == pad_byte(d0, j)
        ^ pad_byte(src@, j) by {
        if j >= src@.len() {
            let x = d1[j];
            assert(x ^ 0u8 == x) by (bit_vector);
        }
    }
    assert(dst@ =~= xor_pair(d0, src@));
}

// ---------------------------------------------------------------------------
// Encoder

/// XOR-based FEC encoder: accumulates data packets and produces the two
/// parity packets when a block is complete.
#[derive(Debug)]
pub struct FecEncoder {
    /// Buffer of data packets in the current block.
    block_buffer: Vec<Vec<u8>>,
    /// Maximum packet size seen in this block (for padding).
    max_packet_size: usize,
}

impl FecEncoder {
    /// The packets of the current, unfinished block.
    pub closed spec fn pending(self) -> Seq<Seq<u8>> {
        vecs_view(self.block_buffer@)
    }

    /// The longest packet length of the current block.
    pub closed spec fn max_size(self) -> nat {
        self.max_packet_size as nat
    }

    /// The encoder holds an unfinished block and knows its longest packet.
    pub closed spec fn wf(self) -> bool {
        &&& self.block_buffer@.len() < FEC_BLOCK_SIZE
        &&& self.max_packet_size as nat == max_len(vecs_view(self.block_buffer@))
    }

    /// An encoder with an empty block.
    pub fn new() -> (e: Self)
        ensures
            e.wf(),
            e.pending() == Seq::<Seq<u8>>::empty(),
            e.max_size() == 0,
    {
        let e = FecEncoder { block_buffer: Vec::with_capacity(FEC_BLOCK_SIZE), max_packet_size: 0 };
        assert(vecs_view(e.block_buffer@) =~= Seq::<Seq<u8>>::empty());
        e
    }

    /// Adds a data packet to the current block. When the block reaches eight
    /// packets, returns its two parity packets (first half, second half),
    /// each as long as the longest packet of the block, and starts a new
    /// block; otherwise returns `None`.
    pub fn add_packet(&mut self, data: &[u8]) -> (r: Option<Vec<Vec<u8>>>)
        requires
            old(self).wf(),
        ensures
            final(self).wf(),
            ({
                let block = old(self).pending().push(data@);
                let size = if old(self).max_size() >= data@.len() {
                    old(self).max_size()
                } else {
                    data@.len()
                };
                if block.len() == FEC_BLOCK_SIZE {
                    &&& r matches Some(p) && vecs_view(p@) == block_parities(block, size)
                    &&& size == max_len(block)
                    &&& final(self).pending() == Seq::<Seq<u8>>::empty()
                    &&& final(self).max_size() == 0
                } else {
                    &&& r is None
                    &&& final(self).pending() == block
                    &&& final(self).max_size() == size
                }
            }),
    {
        let ghost block = old(self).pending().push(data@);
        if data.len() > self.max_packet_size {
            self.max_packet_size = data.len();
        }
        let copy = copy_range(data, 0, data.len());
        assert(copy@ =~= data@);
        self.block_buffer.push(copy);
        assert(vecs_view(self.block_buffer@) =~= block);
        assert(block.drop_last() =~= old(self).pending());
        if self.block_buffer.len() == FEC_BLOCK_SIZE {
            let parities = self.generate_parity();
            self.block_buffer.clear();
            self.max_packet_size = 0;
            assert(vecs_view(self.block_buffer@) =~= Seq::<Seq<u8>>::empty());
            Some(parities)
        } else {
            None
        }
    }

    /// The two parity packets of the current full block:
    /// XOR of packets 0-3 and XOR of packets 4-7, from `max_packet_size` zeros.
    fn generate_parity(&self) -> (r: Vec<Vec<u8>>)
        requires
            self.block_buffer@.len() == FEC_BLOCK_SIZE,
        ensures
            vecs_view(r@) == block_parities(vecs_view(self.block_buffer@), self.max_packet_size as nat),
    {
        let ghost block = vecs_view(self.block_buffer@);
        let ghost size = self.max_packet_size as nat;
        let parity1 = self.xor_group(0);
        let parity2 = self.xor_group(FEC_HALF);
        let mut r: Vec<Vec<u8>> = Vec::with_capacity(FEC_PARITY_COUNT);
        r.push(parity1);
        r.push(parity2);
        assert(vecs_view(r@) =~= block_parities(block, size));
        r
    }

    /// The XOR of packets `start..start + 4`, from `max_packet_size` zeros.
    fn xor_group(&self, start: usize) -> (r: Vec<u8>)
        requires
            self.block_buffer@.len() == FEC_BLOCK_SIZE,
            start == 0 || start == 4,
        ensures
            r@ == group_parity(
                vecs_view(self.block_buffer@).subrange(start as int, start + 4),
                self.max_packet_size as nat,
            ),
    {
        let ghost block = vecs_view(self.block_buffer@);
        let mut parity = zero_vec(self.max_packet_size);
        let mut i: usize = start;
        while i < start + FEC_HALF
            invariant
                start == 0 || start == 4,
                start <= i <= start + 4,
                self.block_buffer@.len() == 8,
                block == vecs_view(self.block_buffer@),
                parity@ == xor_fold(
                    zeros(self.max_packet_size as nat),
                    block.subrange(start as int, i as int),
                ),
            decreases start + 4 - i,
        {
            xor_into(&mut parity, self.block_buffer[i].as_slice());
            proof {
                assert(block.subrange(start as int, i + 1).drop_last() =~= block.subrange(
                    start as int,
                    i as int,
                ));
                assert(block.subrange(start as int, i + 1).last() == self.block_buffer@[i as int]@);
            }
            i = i + 1;
        }
        parity
    }

    /// Completes a partial block with zero packets (of the longest length
    /// seen, at least one byte) and returns its parity packets; `None` when
    /// no packet is pending.
    pub fn flush(&mut self) -> (r: Option<Vec<Vec<u8>>>)
        requires
            old(self).wf(),
        ensures
            final(self).wf(),
            final(self).pending() == Seq::<Seq<u8>>::empty(),
            final(self).max_size() == 0,
            ({
                let n = old(self).pending().len();
                let size = old(self).max_size();
                let fill = if size >= 1 {
                    size
                } else {
                    1
                };
                if n == 0 {
                    r is None
                } else {
                    r matches Some(p) && vecs_view(p@) == block_parities(
                        old(self).pending() + Seq::new((8 - n) as nat, |k: int| zeros(fill)),
                        size,
                    )
                }
            }),
    {
        if self.block_buffer.len() == 0 {
            return None;
        }
        let ghost n = self.block_buffer@.len();
        let ghost size = self.max_packet_size as nat;
        let fill = if self.max_packet_size >= 1 {
            self.max_packet_size
        } else {
            1
        };
        let ghost padding = Seq::new((8 - n) as nat, |k: int| zeros(fill as nat));
        while self.block_buffer.len() < FEC_BLOCK_SIZE
            invariant
                n <= self.block_buffer@.len() <= 8,
                0 < n < 8,
                self.max_packet_size as nat == size,
                fill as nat >= 1,
                padding == Seq::new((8 - n) as nat, |k: int| zeros(fill as nat)),
                vecs_view(self.block_buffer@) == old(self).pending() + padding.subrange(
                    0,
                    self.block_buffer@.len() - n,
                ),
            decreases 8 - self.block_buffer@.len(),
        {
            let ghost prev = vecs_view(self.block_buffer@);
            let ghost k = self.block_buffer@.len() - n;
            let z = zero_vec(fill);
            self.block_buffer.push(z);
            assert(vecs_view(self.block_buffer@) =~= prev.push(zeros(fill as nat)));
            assert(padding.subrange(0, k + 1) =~= padding.subrange(0, k).push(zeros(fill as nat)));
            assert(vecs_view(self.block_buffer@) =~= old(self).pending() + padding.subrange(
                0,
                self.block_buffer@.len() - n,
            ));
        }
        assert(padding.subrange(0, 8 - n) =~= padding);
        let parities = self.generate_parity();
        self.block_buffer.clear();
        self.max_packet_size = 0;
        assert(vecs_view(self.block_buffer@) =~= Seq::<Seq<u8>>::empty());
        Some(parities)
    }
}

/// A vector of `n` zero bytes.
fn zero_vec(n: usize) -> (r: Vec<u8>)
    ensures
        r@ == zeros(n as nat),
{
    let mut r: Vec<u8> = Vec::with_capacity(n);
    let mut i: usize = 0;
    while i < n
        invariant
            i <= n,
            r@ == zeros(i as nat),
        decreases n - i,
    {
        r.push(0);
        i = i + 1;
        assert(r@ =~= zeros(i as nat));
    }
    r
}

// ---------------------------------------------------------------------------
// Decoder

/// What arrived of a packet: its bytes, or nothing.
pub open spec fn opt_view(p: Option<Vec<u8>>) -> Option<Seq<u8>> {
    match p {
        Some(v) => Some(v@),
        None => None,
    }
}

/// What arrived of each packet of a block.
pub open spec fn opts_view(ps: Seq<Option<Vec<u8>>>) -> Seq<Option<Seq<u8>>> {
    ps.map_values(|p: Option<Vec<u8>>| opt_view(p))
}

/// How many of `ps[lo..hi]` were lost.
pub open spec fn count_missing(ps: Seq<Option<Seq<u8>>>, lo: int, hi: int) -> nat
    decreases hi - lo,
{
    if hi <= lo {
        0
    } else {
        count_missing(ps, lo, hi - 1) + if ps[hi - 1] is None {
            1nat
        } else {
            0nat
        }
    }
}

/// The index of the last lost packet in `ps[lo..hi]` (meaningful when one is lost).
pub open spec fn last_missing(ps: Seq<Option<Seq<u8>>>, lo: int, hi: int) -> int
    decreases hi - lo,
{
    if hi <= lo {
        lo
    } else if ps[hi - 1] is None {
        hi - 1
    } else {
        last_missing(ps, lo, hi - 1)
    }
}

/// The packets of `ps[lo..hi]` that arrived, in order.
pub open spec fn arrived(ps: Seq<Option<Seq<u8>>>, lo: int, hi: int) -> Seq<Seq<u8>>
    decreases hi - lo,
{
    if hi <= lo {
        Seq::empty()
    } else {
        let rest = arrived(ps, lo, hi - 1);
        match ps[hi - 1] {
            Some(p) => rest.push(p),
            None => rest,
        }
    }
}

/// The half-block `lo..lo + 4` after recovery with `parity`: when exactly one
/// of its packets is lost, that slot gets the parity XORed with the packets
/// that arrived; otherwise nothing changes.
pub open spec fn recover_half_spec(ps: Seq<Option<Seq<u8>>>, lo: int, parity: Seq<u8>) -> Seq<
    Option<Seq<u8>>,
> {
    if count_missing(ps, lo, lo + 4) == 1 {
        ps.update(last_missing(ps, lo, lo + 4), Some(xor_fold(parity, arrived(ps, lo, lo + 4))))
    } else {
        ps
    }
}

/// A copy of what arrived of one packet.
fn clone_packet(p: &Option<Vec<u8>>) -> (r: Option<Vec<u8>>)
    ensures
        opt_view(r) == opt_view(*p),
{
    match p {
        Some(v) => {
            let c = copy_range(v.as_slice(), 0, v.len());
            assert(c@ =~= v@);
            Some(c)
        },
        None => None,
    }
}

/// XOR-based FEC decoder: recovers one lost packet per half-block.
#[derive(Debug)]
pub struct FecDecoder;

impl FecDecoder {
    /// A decoder.
    pub fn new() -> (d: Self) {
        FecDecoder
    }

    /// Recovers lost packets of a block: `packets` holds the eight slots
    /// (`None` for a lost packet) and `parities` the parity of each half.
    /// A half with exactly one lost packet gets it back; a half with more
    /// losses keeps its `None` entries.
    pub fn decode(&self, packets: &[Option<Vec<u8>>; 8], parities: &[Vec<u8>; 2]) -> (r: [Option<
        Vec<u8>,
    >; 8])
        ensures
            opts_view(r@) == recover_half_spec(
                recover_half_spec(opts_view(packets@), 0, parities@[0]@),
                4,
                parities@[1]@,
            ),
    {
        let mut result: [Option<Vec<u8>>; 8] = [
            clone_packet(&packets[0]),
            clone_packet(&packets[1]),
            clone_packet(&packets[2]),
            clone_packet(&packets[3]),
            clone_packet(&packets[4]),
            clone_packet(&packets[5]),
            clone_packet(&packets[6]),
            clone_packet(&packets[7]),
        ];
        assert(opts_view(result@) =~= opts_view(packets@));
        Self::recover_half(&mut result, 0, parities[0].as_slice());
        Self::recover_half(&mut result, 4, parities[1].as_slice());
        result
    }

    /// Recovers the one lost packet of the half-block `lo..lo + 4`, if exactly
    /// one is lost.
    fn recover_half(result: &mut [Option<Vec<u8>>; 8], lo: usize, parity: &[u8])
        requires
            lo == 0 || lo == 4,
        ensures
            opts_view(final(result)@) == recover_half_spec(opts_view(old(result)@), lo as int, parity@),
    {
        let ghost ps = opts_view(old(result)@);
        let mut missing_idx: usize = lo;
        let mut missing_count: usize = 0;
        let mut i: usize = lo;
        while i < lo + FEC_HALF
            invariant
                lo == 0 || lo == 4,
                lo <= i <= lo + 4,
                ps == opts_view(result@),
                missing_count == count_missing(ps, lo as int, i as int),
                missing_count <= i - lo,
                missing_idx == last_missing(ps, lo as int, i as int),
            decreases lo + 4 - i,
        {
            if result[i].is_none() {
                missing_idx = i;
                missing_count = missing_count + 1;
            }
            i = i + 1;
        }
        if missing_count != 1 {
            return;
        }
        proof {
            lemma_last_missing_range(ps, lo as int, lo + 4);
        }
        let missing = missing_idx;
        let mut recovered = copy_range(parity, 0, parity.len());
        assert(recovered@ =~= parity@);
        let mut j: usize = lo;
        while j < lo + FEC_HALF
            invariant
                lo == 0 || lo == 4,
                lo <= j <= lo + 4,
                ps == opts_view(result@),
                lo <= missing < lo + 4,
                ps[missing as int] is None,
                recovered@ == xor_fold(parity@, arrived(ps, lo as int, j as int)),
            decreases lo + 4 - j,
        {
            if j != missing {
                match &result[j] {
                    Some(data) => {
                        assert(ps[j as int] == Some(data@));
                        xor_into(&mut recovered, data.as_slice());
                        assert(arrived(ps, lo as int, j + 1) == arrived(ps, lo as int, j as int).push(
                            data@,
                        ));
                        assert(arrived(ps, lo as int, j + 1).drop_last() =~= arrived(
                            ps,
                            lo as int,
                            j as int,
                        ));
                    },
                    None => {},
                }
            }
            j = j + 1;
        }
        result[missing] = Some(recovered);
        assert(opts_view(result@) =~= recover_half_spec(ps, lo as int, parity@));
    }
}

/// What arrived of a sent block: each slot is lost or holds the packet sent there.
pub open spec fn arrived_from(sent: Seq<Seq<u8>>, received: Seq<Option<Seq<u8>>>) -> bool {
    &&& sent.len() == 8
    &&& received.len() == 8
    &&& forall|k: int| 0 <= k < 8 ==> (#[trigger] received[k] matches Some(p) ==> p == sent[k])
}

/// The one lost slot of the half `lo..lo + 4`, when exactly one is lost.
pub open spec fn single_loss(received: Seq<Option<Seq<u8>>>, lo: int, m: int) -> bool {
    &&& lo <= m < lo + 4
    &&& received[m] is None
    &&& forall|k: int| lo <= k < lo + 4 && k != m ==> #[trigger] received[k] is Some
}

proof fn lemma_half_single_loss(
    sent: Seq<Seq<u8>>,
    received: Seq<Option<Seq<u8>>>,
    lo: int,
    m: int,
    i: int,
)
    requires
        arrived_from(sent, received),
        lo == 0 || lo == 4,
        single_loss(received, lo, m),
        lo <= i <= lo + 4,
    ensures
        count_missing(received, lo, i) == if m < i {
            1nat
        } else {
            0nat
        },
        m < i ==> last_missing(received, lo, i) == m,
        arrived(received, lo, i) == if m < i {
            sent.subrange(lo, i).remove(m - lo)
        } else {
            sent.subrange(lo, i)
        },
    decreases i - lo,
{
    if i > lo {
        lemma_half_single_loss(sent, received, lo, m, i - 1);
        if i - 1 != m {
            assert(received[i - 1] == Some(sent[i - 1]));
        }
        if m < i - 1 {
            assert(sent.subrange(lo, i).remove(m - lo) =~= sent.subrange(lo, i - 1).remove(m - lo).push(
                sent[i - 1],
            ));
        } else if m == i - 1 {
            assert(sent.subrange(lo, i).remove(m - lo) =~= sent.subrange(lo, i - 1));
        } else {
            assert(sent.subrange(lo, i) =~= sent.subrange(lo, i - 1).push(sent[i - 1]));
        }
    } else {
        assert(sent.subrange(lo, i) =~= Seq::<Seq<u8>>::empty());
    }
}

/// Decoding a block encoded by [`FecEncoder`]: every packet that arrived is
/// returned as is; in a half with exactly one lost packet, that packet comes
/// back zero-padded to its parity's length (which is at least its own);
/// a half with two or more losses keeps all its lost slots empty.
pub proof fn lemma_decode_recovers(
    sent: Seq<Seq<u8>>,
    size: nat,
    received: Seq<Option<Seq<u8>>>,
    decoded: Seq<Option<Seq<u8>>>,
)
    requires
        arrived_from(sent, received),
        decoded == recover_half_spec(
            recover_half_spec(received, 0, block_parities(sent, size)[0]),
            4,
            block_parities(sent, size)[1],
        ),
    ensures
        decoded.len() == 8,
        forall|k: int| 0 <= k < 8 && (#[trigger] received[k]) is Some ==> decoded[k] == received[k],
        forall|h: int, m: int|
            (h == 0 || h == 4) && #[trigger] single_loss(received, h, m) ==> {
                &&& decoded[m] == Some(padded(sent[m], block_parities(sent, size)[h / 4].len()))
                &&& sent[m].len() <= block_parities(sent, size)[h / 4].len()
            },
        count_missing(received, 0, 4) >= 2 ==> forall|k: int|
            0 <= k < 4 && #[trigger] received[k] is None ==> decoded[k] is None,
        count_missing(received, 4, 8) >= 2 ==> forall|k: int|
            4 <= k < 8 && #[trigger] received[k] is None ==> decoded[k] is None,
{
    let p = block_parities(sent, size);
    let first = recover_half_spec(received, 0, p[0]);
    if count_missing(received, 0, 4) == 1 {
        lemma_last_missing_range(received, 0, 4);
    }
    assert(first.len() == 8);
    assert(forall|k: int| 4 <= k < 8 ==> first[k] == received[k]);
    assert(forall|k: int| 0 <= k < 8 && received[k] is Some ==> first[k] == received[k]);
    lemma_count_missing_same(first, received, 4, 8);
    lemma_arrived_same(first, received, 4, 8);
    lemma_last_missing_same(first, received, 4, 8);
    if count_missing(first, 4, 8) == 1 {
        lemma_last_missing_range(first, 4, 8);
    }
    assert(decoded.len() == 8);
    assert(forall|k: int| 0 <= k < 4 ==> decoded[k] == first[k]);
    assert(forall|k: int| 0 <= k < 8 && received[k] is Some ==> decoded[k] == received[k]);
    assert forall|h: int, m: int|
        (h == 0 || h == 4) && #[trigger] single_loss(received, h, m) implies {
        &&& decoded[m] == Some(padded(sent[m], p[h / 4].len()))
        &&& sent[m].len() <= p[h / 4].len()
    } by {
        lemma_half_single_loss(sent, received, h, m, h + 4);
        lemma_recover_single_loss(sent.subrange(h, h + 4), size, m - h);
        assert(sent.subrange(h, h + 4)[m - h] == sent[m]);
        if h == 0 {
            assert(first[m] == Some(xor_fold(p[0], arrived(received, 0, 4))));
            assert(decoded[m] == first[m]);
        } else {
            assert(decoded[m] == Some(xor_fold(p[1], arrived(first, 4, 8))));
        }
    }
}

proof fn lemma_count_missing_same(a: Seq<Option<Seq<u8>>>, b: Seq<Option<Seq<u8>>>, lo: int, hi: int)
    requires
        forall|k: int| lo <= k < hi ==> a[k] == b[k],
    ensures
        count_missing(a, lo, hi) == count_missing(b, lo, hi),
    decreases hi - lo,
{
    if hi > lo {
        lemma_count_missing_same(a, b, lo, hi - 1);
    }
}

proof fn lemma_arrived_same(a: Seq<Option<Seq<u8>>>, b: Seq<Option<Seq<u8>>>, lo: int, hi: int)
    requires
        forall|k: int| lo <= k < hi ==> a[k] == b[k],
    ensures
        arrived(a, lo, hi) == arrived(b, lo, hi),
    decreases hi - lo,
{
    if hi > lo {
        lemma_arrived_same(a, b, lo, hi - 1);
    }
}

proof fn lemma_last_missing_same(a: Seq<Option<Seq<u8>>>, b: Seq<Option<Seq<u8>>>, lo: int, hi: int)
    requires
        forall|k: int| lo <= k < hi ==> a[k] == b[k],
    ensures
        last_missing(a, lo, hi) == last_missing(b, lo, hi),
    decreases hi - lo,
{
    if hi > lo {
        lemma_last_missing_same(a, b, lo, hi - 1);
    }
}

proof fn lemma_last_missing_range(ps: Seq<Option<Seq<u8>>>, lo: int, hi: int)
    requires
        lo <= hi,
        count_missing(ps, lo, hi) >= 1,
    ensures
        lo <= last_missing(ps, lo, hi) < hi,
        ps[last_missing(ps, lo, hi)] is None,
    decreases hi - lo,
{
    if ps[hi - 1] is None {
    } else {
        lemma_last_missing_range(ps, lo, hi - 1);
    }
}

} // verus!
