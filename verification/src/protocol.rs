//! The binary wire format: request parsing, response serialization and
//! register delta compression.
use crate::le::{copy_range, push_all, push_u16, push_u32, push_u64, read_u16_at, read_u32_at, read_u64_at, u16_le};
use vstd::bytes::*;
use vstd::prelude::*;

verus! {

/// Protocol header size in bytes.
pub const HEADER_SIZE: usize = 16;

/// Maximum payload size.
pub const MAX_PAYLOAD: usize = 65000;

/// Flag: this packet is FEC parity.
pub const FLAG_FEC_PARITY: u16 = 0x0001;

/// Flag: this is a speculative pre-execution hint.
pub const FLAG_SPECULATIVE: u16 = 0x0002;

/// Flag: this is a NACK packet.
pub const FLAG_NACK: u16 = 0x0004;

/// Flag: the response contains delta-compressed data.
pub const FLAG_DELTA: u16 = 0x0008;

/// Number of ARM64 general-purpose registers carried in a packet (X0-X30).
pub const NUM_REGISTERS: usize = 31;

/// Size of the register block that follows the header in a full request.
pub const REGISTERS_SIZE: usize = 248;

/// Size of the program counter that follows the register block.
pub const PC_SIZE: usize = 8;

/// An I/O error of std.
#[verifier::external_type_specification]
#[verifier::external_body]
pub struct ExIoError(std::io::Error);

/// Why a packet could not be decoded.
#[derive(Debug)]
pub enum ProtocolError {
    /// The packet is shorter than needed: (got, need).
    PacketTooShort(usize, usize),
    /// The header's payload length disagrees with the packet: (header says, got).
    PayloadMismatch(u32, usize),
    /// Reading the packet failed.
    Io(std::io::Error),
}

/// An offload request from the Android proxy.
#[derive(Debug, Clone)]
pub struct OffloadRequest {
    pub session_id: u32,
    pub seq: u32,
    pub func_id: u32,
    pub flags: u16,
    pub payload: Vec<u8>,
    /// ARM64 general-purpose registers X0-X30.
    pub registers: [u64; 31],
    /// Program counter at the time of interception.
    pub pc: u64,
}

/// A memory region that was modified during execution.
#[derive(Debug, Clone)]
pub struct MemoryDelta {
    pub address: u64,
    pub data: Vec<u8>,
}

/// The result of executing a translated block on the PC.
#[derive(Debug, Clone)]
pub struct ExecutionResult {
    pub session_id: u32,
    pub seq: u32,
    pub registers: [u64; 31],
    pub memory_deltas: Vec<MemoryDelta>,
    pub return_value: i64,
    /// Bit N set means register N was modified.
    pub dirty_reg_bitmap: u32,
}

/// The mathematical content of an [`OffloadRequest`].
pub struct RequestView {
    pub session_id: u32,
    pub seq: u32,
    pub func_id: u32,
    pub flags: u16,
    pub payload: Seq<u8>,
    pub registers: Seq<u64>,
    pub pc: u64,
}

impl View for OffloadRequest {
    type V = RequestView;

    open spec fn view(&self) -> RequestView {
        RequestView {
            session_id: self.session_id,
            seq: self.seq,
            func_id: self.func_id,
            flags: self.flags,
            payload: self.payload@,
            registers: self.registers@,
            pc: self.pc,
        }
    }
}

impl View for MemoryDelta {
    type V = (u64, Seq<u8>);

    open spec fn view(&self) -> (u64, Seq<u8>) {
        (self.address, self.data@)
    }
}

/// The views of a sequence of memory deltas.
pub open spec fn deltas_view(ds: Seq<MemoryDelta>) -> Seq<(u64, Seq<u8>)> {
    ds.map_values(|d: MemoryDelta| d@)
}

/// Whether bit `i` of `bits` is set.
pub open spec fn bit_set(bits: u32, i: int) -> bool {
    bits & (1u32 << (i as u32)) != 0
}

// ---------------------------------------------------------------------------
// Little-endian fields of a byte sequence

/// The little-endian `u16` at `pos`.
pub open spec fn u16_field(data: Seq<u8>, pos: int) -> u16 {
    spec_u16_from_le_bytes(data.subrange(pos, pos + 2))
}

/// The little-endian `u32` at `pos`.
pub open spec fn u32_field(data: Seq<u8>, pos: int) -> u32 {
    spec_u32_from_le_bytes(data.subrange(pos, pos + 4))
}

/// The little-endian `u64` at `pos`.
pub open spec fn u64_field(data: Seq<u8>, pos: int) -> u64 {
    spec_u64_from_le_bytes(data.subrange(pos, pos + 8))
}

// ---------------------------------------------------------------------------
// Requests

/// What a packet decodes to: the header fields, then either the full body
/// (registers, PC and payload) or, for a packet too short to carry the
/// registers, a lightweight control request whose payload is whatever of the
/// declared payload follows the header.
pub open spec fn spec_parse_request(data: Seq<u8>) -> Result<RequestView, ProtocolError> {
    if data.len() < HEADER_SIZE {
        Err(ProtocolError::PacketTooShort(data.len() as usize, HEADER_SIZE))
    } else {
        let payload_len = u16_field(data, 14) as int;
        let session_id = u32_field(data, 0);
        let seq = u32_field(data, 4);
        let func_id = u32_field(data, 8);
        let flags = u16_field(data, 12);
        if data.len() - HEADER_SIZE < REGISTERS_SIZE + PC_SIZE + payload_len {
            let end = if data.len() < HEADER_SIZE + payload_len {
                data.len() as int
            } else {
                HEADER_SIZE + payload_len
            };
            Ok(
                RequestView {
                    session_id,
                    seq,
                    func_id,
                    flags,
                    payload: data.subrange(HEADER_SIZE as int, end),
                    registers: Seq::new(31, |i: int| 0u64),
                    pc: 0,
                },
            )
        } else {
            Ok(
                RequestView {
                    session_id,
                    seq,
                    func_id,
                    flags,
                    payload: data.subrange(272, 272 + payload_len),
                    registers: Seq::new(31, |i: int| u64_field(data, 16 + 8 * i)),
                    pc: u64_field(data, 264),
                },
            )
        }
    }
}

/// Parses a raw UDP packet into an [`OffloadRequest`].
pub fn parse_request(data: &[u8]) -> (r: Result<OffloadRequest, ProtocolError>)
    ensures
        match r {
            Ok(req) => spec_parse_request(data@) == Ok::<RequestView, ProtocolError>(req@),
            Err(e) => spec_parse_request(data@) == Err::<RequestView, ProtocolError>(e),
        },
{
    if data.len() < HEADER_SIZE {
        return Err(ProtocolError::PacketTooShort(data.len(), HEADER_SIZE));
    }
    let session_id = read_u32_at(data, 0);
    let seq = read_u32_at(data, 4);
    let func_id = read_u32_at(data, 8);
    let flags = read_u16_at(data, 12);
    let payload_len = read_u16_at(data, 14) as u32;

    let expected_body = REGISTERS_SIZE + PC_SIZE + payload_len as usize;
    let remaining = data.len() - HEADER_SIZE;

    if remaining < expected_body {
        // A packet without register data is a lightweight control packet
        // (NACK, keepalive): keep what there is of its payload.
        let payload_start = HEADER_SIZE;
        let payload_end = if data.len() < payload_start + payload_len as usize {
            data.len()
        } else {
            payload_start + payload_len as usize
        };
        let payload = copy_range(data, payload_start, payload_end);
        let req = OffloadRequest {
            session_id,
            seq,
            func_id,
            flags,
            payload,
            registers: [0u64; 31],
            pc: 0,
        };
        assert(req@.registers =~= Seq::new(31, |i: int| 0u64));
        return Ok(req);
    }
    let mut registers = [0u64; 31];
    let mut i: usize = 0;
    while i < NUM_REGISTERS
        invariant
            i <= 31,
            data@.len() >= 272,
            forall|j: int| 0 <= j < i ==> registers@[j] == u64_field(data@, 16 + 8 * j),
        decreases 31 - i,
    {
        registers[i] = read_u64_at(data, HEADER_SIZE + 8 * i);
        i = i + 1;
    }
    let pc = read_u64_at(data, 264);
    let pos: usize = HEADER_SIZE + REGISTERS_SIZE + PC_SIZE;
    let payload = copy_range(data, pos, pos + payload_len as usize);
    let req = OffloadRequest { session_id, seq, func_id, flags, payload, registers, pc };
    assert(req@.registers =~= Seq::new(31, |j: int| u64_field(data@, 16 + 8 * j)));
    Ok(req)
}

/// The 31 registers of a request, each as eight little-endian bytes.
pub open spec fn registers_bytes(regs: Seq<u64>) -> Seq<u8> {
    Seq::new(REGISTERS_SIZE as nat, |k: int| spec_u64_to_le_bytes(regs[k / 8])[k % 8])
}

/// A request laid out as a packet: the header (session, sequence number,
/// function, flags, payload length), the registers, the PC and the payload,
/// every integer little-endian.
pub open spec fn request_bytes(v: RequestView) -> Seq<u8> {
    spec_u32_to_le_bytes(v.session_id) + spec_u32_to_le_bytes(v.seq) + spec_u32_to_le_bytes(
        v.func_id,
    ) + spec_u16_to_le_bytes(v.flags) + spec_u16_to_le_bytes(v.payload.len() as u16)
        + registers_bytes(v.registers) + spec_u64_to_le_bytes(v.pc) + v.payload
}

proof fn lemma_div_mod8(i: int, j: int)
    requires
        0 <= j < 8,
    ensures
        (8 * i + j) / 8 == i,
        (8 * i + j) % 8 == j,
{
    assert((8 * i + j) / 8 == i && (8 * i + j) % 8 == j) by (nonlinear_arith)
        requires
            0 <= j < 8,
    ;
}

/// Parsing a request laid out as the protocol specifies gives it back,
/// whatever bytes follow it in the packet.
pub proof fn lemma_parse_request_roundtrip(v: RequestView, trailing: Seq<u8>)
    requires
        v.payload.len() <= u16::MAX,
        v.registers.len() == NUM_REGISTERS,
    ensures
        spec_parse_request(request_bytes(v) + trailing) == Ok::<RequestView, ProtocolError>(v),
{
    lemma_auto_spec_u16_to_from_le_bytes();
    lemma_auto_spec_u32_to_from_le_bytes();
    lemma_auto_spec_u64_to_from_le_bytes();
    let d = request_bytes(v) + trailing;
    let plen = v.payload.len();
    assert(d.len() == 272 + plen + trailing.len());
    assert(d.subrange(0, 4) =~= spec_u32_to_le_bytes(v.session_id));
    assert(d.subrange(4, 8) =~= spec_u32_to_le_bytes(v.seq));
    assert(d.subrange(8, 12) =~= spec_u32_to_le_bytes(v.func_id));
    assert(d.subrange(12, 14) =~= spec_u16_to_le_bytes(v.flags));
    assert(d.subrange(14, 16) =~= spec_u16_to_le_bytes(plen as u16));
    assert(u16_field(d, 14) as int == plen);
    assert(d.subrange(264, 272) =~= spec_u64_to_le_bytes(v.pc));
    assert(d.subrange(272, 272 + plen as int) =~= v.payload);
    assert forall|i: int| 0 <= i < 31 implies #[trigger] u64_field(d, 16 + 8 * i) == v.registers[i] by {
        let w = d.subrange(16 + 8 * i, 16 + 8 * i + 8);
        assert forall|j: int| 0 <= j < 8 implies #[trigger] w[j] == spec_u64_to_le_bytes(
            v.registers[i],
        )[j] by {
            lemma_div_mod8(i, j);
            assert(w[j] == registers_bytes(v.registers)[8 * i + j]);
        }
        assert(w =~= spec_u64_to_le_bytes(v.registers[i]));
    }
    let regs = Seq::new(31, |i: int| u64_field(d, 16 + 8 * i));
    assert(regs =~= v.registers);
}

// ---------------------------------------------------------------------------
// Responses

/// The encodings of the dirty registers among the first `n`, in register order.
pub open spec fn dirty_register_bytes(regs: Seq<u64>, bitmap: u32, n: nat) -> Seq<u8>
    decreases n,
{
    if n == 0 {
        Seq::empty()
    } else {
        dirty_register_bytes(regs, bitmap, (n - 1) as nat) + if bit_set(bitmap, n - 1) {
            spec_u64_to_le_bytes(regs[n - 1])
        } else {
            Seq::empty()
        }
    }
}

/// The encoding of each delta: address, length and data.
pub open spec fn delta_list_bytes(ds: Seq<(u64, Seq<u8>)>) -> Seq<u8>
    decreases ds.len(),
{
    if ds.len() == 0 {
        Seq::empty()
    } else {
        let d = ds.last();
        delta_list_bytes(ds.drop_last()) + spec_u64_to_le_bytes(d.0) + spec_u32_to_le_bytes(
            d.1.len() as u32,
        ) + d.1
    }
}

/// The payload of a response: return value, dirty bitmap, dirty registers,
/// delta count and deltas.
pub open spec fn response_payload(r: ExecutionResult) -> Seq<u8> {
    spec_u64_to_le_bytes(r.return_value as u64) + spec_u32_to_le_bytes(r.dirty_reg_bitmap)
        + dirty_register_bytes(r.registers@, r.dirty_reg_bitmap, 31) + spec_u32_to_le_bytes(
        r.memory_deltas@.len() as u32,
    ) + delta_list_bytes(deltas_view(r.memory_deltas@))
}

/// The full response packet: header (function id 0, `FLAG_DELTA`, payload
/// length truncated to 16 bits) followed by the payload.
pub open spec fn response_bytes(r: ExecutionResult) -> Seq<u8> {
    let payload = response_payload(r);
    spec_u32_to_le_bytes(r.session_id) + spec_u32_to_le_bytes(r.seq) + spec_u32_to_le_bytes(0)
        + spec_u16_to_le_bytes(FLAG_DELTA) + spec_u16_to_le_bytes(payload.len() as u16) + payload
}

/// How many of the bits `0..i` of `bitmap` are set.
pub open spec fn bits_below(bitmap: u32, i: int) -> int
    decreases i,
{
    if i <= 0 {
        0
    } else {
        bits_below(bitmap, i - 1) + if bit_set(bitmap, i - 1) {
            1int
        } else {
            0int
        }
    }
}

/// The dirty registers among the first `n` take eight bytes per set bit, and
/// register `i` sits after those of the set bits below it.
proof fn lemma_dirty_register_layout(regs: Seq<u64>, bitmap: u32, n: nat)
    requires
        n <= regs.len(),
    ensures
        dirty_register_bytes(regs, bitmap, n).len() == 8 * bits_below(bitmap, n as int),
        forall|i: int|
            0 <= i < n && bit_set(bitmap, i) ==> #[trigger] dirty_register_bytes(regs, bitmap, n).subrange(
                8 * bits_below(bitmap, i),
                8 * bits_below(bitmap, i) + 8,
            ) == spec_u64_to_le_bytes(regs[i]),
    decreases n,
{
    lemma_auto_spec_u64_to_from_le_bytes();
    if n > 0 {
        let m = (n - 1) as nat;
        lemma_dirty_register_layout(regs, bitmap, m);
        let prev = dirty_register_bytes(regs, bitmap, m);
        let cur = dirty_register_bytes(regs, bitmap, n);
        assert forall|i: int|
            0 <= i < n && bit_set(bitmap, i) implies #[trigger] dirty_register_bytes(regs, bitmap, n).subrange(
                8 * bits_below(bitmap, i),
                8 * bits_below(bitmap, i) + 8,
            ) == spec_u64_to_le_bytes(regs[i]) by {
            if i < m {
                lemma_bits_below_mono(bitmap, i + 1, m as int);
                lemma_bits_below_mono(bitmap, i, i + 1);
                assert(bits_below(bitmap, i + 1) == bits_below(bitmap, i) + 1);
                assert(cur.subrange(8 * bits_below(bitmap, i), 8 * bits_below(bitmap, i) + 8)
                    =~= prev.subrange(8 * bits_below(bitmap, i), 8 * bits_below(bitmap, i) + 8));
            } else {
                assert(cur.subrange(8 * bits_below(bitmap, i), 8 * bits_below(bitmap, i) + 8)
                    =~= spec_u64_to_le_bytes(regs[i]));
            }
        }
    }
}

proof fn lemma_bits_below_mono(bitmap: u32, i: int, j: int)
    requires
        i <= j,
    ensures
        0 <= bits_below(bitmap, i) <= bits_below(bitmap, j),
    decreases j - i, if i > 0 { i } else { 0 },
{
    if i < j {
        lemma_bits_below_mono(bitmap, i, j - 1);
    } else if i > 0 {
        lemma_bits_below_mono(bitmap, i - 1, i - 1);
    }
}

/// A response carries its dirty registers in increasing register order:
/// after the 16-byte header, the return value and the bitmap, the register
/// of each set bit `i` (of the 31) is the eight little-endian bytes that
/// follow those of the set bits below `i`; the delta count comes right after
/// the last of them.
pub proof fn lemma_response_register_order(r: ExecutionResult, i: int)
    requires
        0 <= i < 31,
        bit_set(r.dirty_reg_bitmap, i),
    ensures
        ({
            let pos = 28 + 8 * bits_below(r.dirty_reg_bitmap, i);
            response_bytes(r).subrange(pos, pos + 8) == spec_u64_to_le_bytes(r.registers@[i])
        }),
        ({
            let end = 28 + 8 * bits_below(r.dirty_reg_bitmap, 31);
            response_bytes(r).subrange(end, end + 4) == spec_u32_to_le_bytes(
                r.memory_deltas@.len() as u32,
            )
        }),
{
    lemma_auto_spec_u16_to_from_le_bytes();
    lemma_auto_spec_u32_to_from_le_bytes();
    lemma_auto_spec_u64_to_from_le_bytes();
    let bm = r.dirty_reg_bitmap;
    lemma_dirty_register_layout(r.registers@, bm, 31);
    let d = dirty_register_bytes(r.registers@, bm, 31);
    let payload = response_payload(r);
    let head = spec_u32_to_le_bytes(r.session_id) + spec_u32_to_le_bytes(r.seq) + spec_u32_to_le_bytes(0)
        + spec_u16_to_le_bytes(FLAG_DELTA) + spec_u16_to_le_bytes(payload.len() as u16)
        + spec_u64_to_le_bytes(r.return_value as u64) + spec_u32_to_le_bytes(bm);
    let tail = spec_u32_to_le_bytes(r.memory_deltas@.len() as u32) + delta_list_bytes(
        deltas_view(r.memory_deltas@),
    );
    assert(head.len() == 28);
    assert(payload =~= spec_u64_to_le_bytes(r.return_value as u64) + spec_u32_to_le_bytes(bm) + d
        + tail);
    assert(response_bytes(r) =~= head + d + tail);
    let off = 8 * bits_below(bm, i);
    lemma_bits_below_mono(bm, i + 1, 31);
    lemma_bits_below_mono(bm, i, i + 1);
    assert(bits_below(bm, i + 1) == bits_below(bm, i) + 1);
    assert(response_bytes(r).subrange(28 + off, 28 + off + 8) =~= d.subrange(off, off + 8));
    assert(response_bytes(r).subrange(28 + d.len() as int, 28 + d.len() as int + 4) =~= tail.subrange(0, 4));
}

/// A response starts with its session id, sequence number, function id 0,
/// `FLAG_DELTA` and the length of what follows the 16-byte header (cut to
/// 16 bits), then the return value and the dirty bitmap, all little-endian.
pub proof fn lemma_response_header(r: ExecutionResult)
    ensures
        ({
            let b = response_bytes(r);
            &&& b.len() >= 28
            &&& b.subrange(0, 4) == spec_u32_to_le_bytes(r.session_id)
            &&& b.subrange(4, 8) == spec_u32_to_le_bytes(r.seq)
            &&& b.subrange(8, 12) == spec_u32_to_le_bytes(0)
            &&& b.subrange(12, 14) == spec_u16_to_le_bytes(FLAG_DELTA)
            &&& b.subrange(14, 16) == spec_u16_to_le_bytes((b.len() - 16) as u16)
            &&& b.subrange(16, 24) == spec_u64_to_le_bytes(r.return_value as u64)
            &&& b.subrange(24, 28) == spec_u32_to_le_bytes(r.dirty_reg_bitmap)
        }),
{
    lemma_auto_spec_u16_to_from_le_bytes();
    lemma_auto_spec_u32_to_from_le_bytes();
    lemma_auto_spec_u64_to_from_le_bytes();
    let b = response_bytes(r);
    let payload = response_payload(r);
    let rest = dirty_register_bytes(r.registers@, r.dirty_reg_bitmap, 31) + spec_u32_to_le_bytes(
        r.memory_deltas@.len() as u32,
    ) + delta_list_bytes(deltas_view(r.memory_deltas@));
    assert(payload =~= spec_u64_to_le_bytes(r.return_value as u64) + spec_u32_to_le_bytes(
        r.dirty_reg_bitmap,
    ) + rest);
    assert(b.len() == 16 + payload.len());
    assert(b.subrange(0, 4) =~= spec_u32_to_le_bytes(r.session_id));
    assert(b.subrange(4, 8) =~= spec_u32_to_le_bytes(r.seq));
    assert(b.subrange(8, 12) =~= spec_u32_to_le_bytes(0));
    assert(b.subrange(12, 14) =~= spec_u16_to_le_bytes(FLAG_DELTA));
    assert(b.subrange(14, 16) =~= spec_u16_to_le_bytes(payload.len() as u16));
    assert(b.subrange(16, 24) =~= spec_u64_to_le_bytes(r.return_value as u64));
    assert(b.subrange(24, 28) =~= spec_u32_to_le_bytes(r.dirty_reg_bitmap));
}

/// Serializes an [`ExecutionResult`] into a response packet.
pub fn serialize_response(result: &ExecutionResult) -> (buf: Vec<u8>)
    ensures
        buf@ == response_bytes(*result),
{
    proof {
        lemma_auto_spec_u16_to_from_le_bytes();
        lemma_auto_spec_u32_to_from_le_bytes();
        lemma_auto_spec_u64_to_from_le_bytes();
    }
    let ghost payload = response_payload(*result);
    let mut buf: Vec<u8> = Vec::with_capacity(512);
    push_u32(&mut buf, result.session_id);
    push_u32(&mut buf, result.seq);
    push_u32(&mut buf, 0);
    push_u16(&mut buf, FLAG_DELTA);
    let payload_len_offset = buf.len();
    push_u16(&mut buf, 0);
    let payload_start = buf.len();
    assert(payload_start == 16);
    let ghost header = buf@;

    push_u64(&mut buf, result.return_value as u64);
    push_u32(&mut buf, result.dirty_reg_bitmap);
    assert(buf@ =~= header + spec_u64_to_le_bytes(result.return_value as u64)
        + spec_u32_to_le_bytes(result.dirty_reg_bitmap));
    let ghost before_regs = buf@;
    let mut i: usize = 0;
    while i < NUM_REGISTERS
        invariant
            i <= 31,
            buf@ == before_regs + dirty_register_bytes(
                result.registers@,
                result.dirty_reg_bitmap,
                i as nat,
            ),
        decreases 31 - i,
    {
        if result.dirty_reg_bitmap & (1u32 << (i as u32)) != 0 {
            push_u64(&mut buf, result.registers[i]);
        }
        i = i + 1;
        assert(buf@ =~= before_regs + dirty_register_bytes(
            result.registers@,
            result.dirty_reg_bitmap,
            i as nat,
        ));
    }
    push_u32(&mut buf, result.memory_deltas.len() as u32);
    let ghost before_deltas = buf@;
    let mut k: usize = 0;
    while k < result.memory_deltas.len()
        invariant
            k <= result.memory_deltas@.len(),
            buf@ == before_deltas + delta_list_bytes(
                deltas_view(result.memory_deltas@).subrange(0, k as int),
            ),
            before_deltas + delta_list_bytes(deltas_view(result.memory_deltas@))
                == header + payload,
        decreases result.memory_deltas@.len() - k,
    {
        let ghost ds = deltas_view(result.memory_deltas@);
        proof {
            assert(ds.subrange(0, k + 1).drop_last() =~= ds.subrange(0, k as int));
        }
        let delta = &result.memory_deltas[k];
        push_u64(&mut buf, delta.address);
        push_u32(&mut buf, delta.data.len() as u32);
        push_all(&mut buf, delta.data.as_slice());
        k = k + 1;
        assert(buf@ =~= before_deltas + delta_list_bytes(ds.subrange(0, k as int)));
    }
    assert(deltas_view(result.memory_deltas@).subrange(0, k as int) =~= deltas_view(
        result.memory_deltas@,
    ));
    let payload_len = (buf.len() - payload_start) as u16;
    let len_bytes = u16_le(payload_len);
    buf[payload_len_offset] = len_bytes[0];
    buf[payload_len_offset + 1] = len_bytes[1];
    assert(buf@ =~= response_bytes(*result));
    buf
}

/// A NACK frame: a header with zero session, sequence and function ids,
/// `FLAG_NACK` and the body length (truncated to 16 bits), then the body.
pub open spec fn nack_frame_bytes(body: Seq<u8>) -> Seq<u8> {
    spec_u32_to_le_bytes(0) + spec_u32_to_le_bytes(0) + spec_u32_to_le_bytes(0)
        + spec_u16_to_le_bytes(FLAG_NACK) + spec_u16_to_le_bytes(body.len() as u16) + body
}

/// Wraps a NACK packet body in a protocol header.
pub fn nack_frame(nack_data: &[u8]) -> (packet: Vec<u8>)
    ensures
        packet@ == nack_frame_bytes(nack_data@),
{
    let mut packet: Vec<u8> = Vec::with_capacity(HEADER_SIZE);
    push_u32(&mut packet, 0);
    push_u32(&mut packet, 0);
    push_u32(&mut packet, 0);
    push_u16(&mut packet, FLAG_NACK);
    push_u16(&mut packet, nack_data.len() as u16);
    push_all(&mut packet, nack_data);
    packet
}

// ---------------------------------------------------------------------------
// Delta compression

/// Registers that differ from the previous state keep their value; the others
/// are zeroed.
pub open spec fn delta_registers(current: Seq<u64>, prev: Seq<u64>) -> Seq<u64> {
    Seq::new(31, |i: int| if current[i] != prev[i] { current[i] } else { 0u64 })
}

/// The register shadow after applying a result: registers whose dirty bit is
/// set take the result's value, the others keep the shadow's.
pub open spec fn applied_registers(shadow: Seq<u64>, regs: Seq<u64>, bitmap: u32) -> Seq<u64> {
    Seq::new(31, |i: int| if bit_set(bitmap, i) { regs[i] } else { shadow[i] })
}

proof fn lemma_set_bit(x: u32, i: u32, j: u32)
    requires
        i < 32,
        j < 32,
    ensures
        ((x | (1u32 << i)) & (1u32 << j) != 0) == ((x & (1u32 << j) != 0) || i == j),
{
    assert(i < 32 && j < 32 ==> ((x | (1u32 << i)) & (1u32 << j) != 0) == ((x & (1u32 << j)
        != 0) || i == j)) by (bit_vector);
}

/// Delta-compresses a result against the previous session registers.
pub fn compute_delta(result: &ExecutionResult, prev_registers: &[u64; 31]) -> (r: ExecutionResult)
    ensures
        r.session_id == result.session_id,
        r.seq == result.seq,
        r.return_value == result.return_value,
        deltas_view(r.memory_deltas@) == deltas_view(result.memory_deltas@),
        r.registers@ == delta_registers(result.registers@, prev_registers@),
        forall|i: int| 0 <= i < 31 ==> bit_set(r.dirty_reg_bitmap, i) == (result.registers@[i]
            != prev_registers@[i]),
        !bit_set(r.dirty_reg_bitmap, 31),
{
    let mut dirty_bitmap: u32 = 0;
    let mut delta_regs = [0u64; 31];
    let mut i: usize = 0;
    assert forall|j: u32| j < 32 implies (0u32 & (1u32 << j)) == 0 by {
        assert(j < 32 ==> (0u32 & (1u32 << j)) == 0) by (bit_vector);
    }
    while i < NUM_REGISTERS
        invariant
            i <= 31,
            forall|j: int| 0 <= j < i ==> delta_regs@[j] == (if result.registers@[j]
                != prev_registers@[j] {
                result.registers@[j]
            } else {
                0u64
            }),
            forall|j: int| i <= j < 31 ==> delta_regs@[j] == 0u64,
            forall|j: int| 0 <= j < i ==> bit_set(dirty_bitmap, j) == (result.registers@[j]
                != prev_registers@[j]),
            forall|j: int| i <= j < 32 ==> !bit_set(dirty_bitmap, j),
        decreases 31 - i,
    {
        if result.registers[i] != prev_registers[i] {
            let ghost old_bits = dirty_bitmap;
            dirty_bitmap = dirty_bitmap | (1u32 << (i as u32));
            delta_regs[i] = result.registers[i];
            assert forall|j: int| 0 <= j < 32 implies bit_set(dirty_bitmap, j) == (bit_set(
                old_bits,
                j,
            ) || j == i) by {
                lemma_set_bit(old_bits, i as u32, j as u32);
            }
        }
        i = i + 1;
    }
    let memory_deltas = clone_deltas(&result.memory_deltas);
    let r = ExecutionResult {
        session_id: result.session_id,
        seq: result.seq,
        registers: delta_regs,
        memory_deltas,
        return_value: result.return_value,
        dirty_reg_bitmap: dirty_bitmap,
    };
    assert(r.registers@ =~= delta_registers(result.registers@, prev_registers@));
    r
}

/// A copy of a list of memory deltas.
pub fn clone_deltas(ds: &Vec<MemoryDelta>) -> (r: Vec<MemoryDelta>)
    ensures
        deltas_view(r@) == deltas_view(ds@),
{
    let mut r: Vec<MemoryDelta> = Vec::with_capacity(ds.len());
    let mut i: usize = 0;
    while i < ds.len()
        invariant
            i <= ds@.len(),
            r@.len() == i,
            forall|j: int| 0 <= j < i ==> #[trigger] r@[j]@ == ds@[j]@,
        decreases ds@.len() - i,
    {
        let d = &ds[i];
        let data = copy_range(d.data.as_slice(), 0, d.data.len());
        assert(data@ =~= d.data@);
        r.push(MemoryDelta { address: d.address, data });
        i = i + 1;
    }
    assert(deltas_view(r@) =~= deltas_view(ds@));
    r
}

/// Delta compression loses nothing: applying the compressed result to the
/// registers it was computed against gives back every register of the
/// uncompressed result.
pub proof fn lemma_delta_then_apply(
    current: Seq<u64>,
    prev: Seq<u64>,
    delta_regs: Seq<u64>,
    bitmap: u32,
)
    requires
        current.len() == 31,
        prev.len() == 31,
        delta_regs == delta_registers(current, prev),
        forall|i: int| 0 <= i < 31 ==> bit_set(bitmap, i) == (current[i] != prev[i]),
    ensures
        applied_registers(prev, delta_regs, bitmap) == current,
{
    assert(applied_registers(prev, delta_regs, bitmap) =~= current);
}

} // verus!
