use byteorder::{LittleEndian, ReadBytesExt};
use phantom_core::protocol::{
    compute_delta, parse_request, serialize_response, ExecutionResult, MemoryDelta, ProtocolError,
    FLAG_DELTA, HEADER_SIZE,
};
use std::io::Cursor;

#[test]
fn test_roundtrip_response() {
    let result = ExecutionResult {
        session_id: 42,
        seq: 7,
        registers: {
            let mut r = [0u64; 31];
            r[0] = 0xDEADBEEF;
            r[1] = 0xCAFEBABE;
            r
        },
        memory_deltas: vec![MemoryDelta {
            address: 0x7000_0000,
            data: vec![1, 2, 3, 4],
        }],
        return_value: 0,
        dirty_reg_bitmap: 0b11,
    };

    let serialized = serialize_response(&result);
    assert!(serialized.len() > HEADER_SIZE);

    let mut c = Cursor::new(&serialized);
    assert_eq!(c.read_u32::<LittleEndian>().unwrap(), 42);
    assert_eq!(c.read_u32::<LittleEndian>().unwrap(), 7);
}

#[test]
fn test_delta_compression() {
    let prev = [100u64; 31];
    let mut current_regs = [100u64; 31];
    current_regs[0] = 999;
    current_regs[5] = 777;

    let result = ExecutionResult {
        session_id: 1,
        seq: 1,
        registers: current_regs,
        memory_deltas: vec![],
        return_value: 0,
        dirty_reg_bitmap: 0xFFFFFFFF,
    };

    let delta = compute_delta(&result, &prev);
    assert_eq!(delta.dirty_reg_bitmap, (1 << 0) | (1 << 5));
    assert_eq!(delta.registers[0], 999);
    assert_eq!(delta.registers[5], 777);
    assert_eq!(delta.registers[1], 0);
}

#[test]
fn response_layout() {
    let mut regs = [0u64; 31];
    regs[1] = 0x0102;
    let result = ExecutionResult {
        session_id: 0x0A0B0C0D,
        seq: 2,
        registers: regs,
        memory_deltas: vec![MemoryDelta { address: 0x10, data: vec![0xAB] }],
        return_value: -1,
        dirty_reg_bitmap: 0b10,
    };
    let bytes = serialize_response(&result);
    let mut expected: Vec<u8> = vec![
        0x0D, 0x0C, 0x0B, 0x0A, // session id
        2, 0, 0, 0, // seq
        0, 0, 0, 0, // func id
        FLAG_DELTA as u8, 0, // flags
    ];
    let payload: Vec<u8> = vec![
        0xFF, 0xFF, 0xFF, 0xFF, 0xFF, 0xFF, 0xFF, 0xFF, // return value -1
        2, 0, 0, 0, // bitmap
        0x02, 0x01, 0, 0, 0, 0, 0, 0, // X1
        1, 0, 0, 0, // one delta
        0x10, 0, 0, 0, 0, 0, 0, 0, // address
        1, 0, 0, 0, // length
        0xAB, // data
    ];
    expected.push(payload.len() as u8);
    expected.push(0);
    expected.extend_from_slice(&payload);
    assert_eq!(bytes, expected);
}

fn full_request_bytes(payload: &[u8]) -> Vec<u8> {
    let mut data = Vec::new();
    data.extend_from_slice(&7u32.to_le_bytes());
    data.extend_from_slice(&8u32.to_le_bytes());
    data.extend_from_slice(&64u32.to_le_bytes());
    data.extend_from_slice(&2u16.to_le_bytes());
    data.extend_from_slice(&(payload.len() as u16).to_le_bytes());
    for i in 0..31u64 {
        data.extend_from_slice(&(i * 3).to_le_bytes());
    }
    data.extend_from_slice(&0x4000u64.to_le_bytes());
    data.extend_from_slice(payload);
    data
}

#[test]
fn parse_full_request() {
    let data = full_request_bytes(&[0x1F, 0x20, 0x03, 0xD5]);
    let req = parse_request(&data).unwrap();
    assert_eq!(req.session_id, 7);
    assert_eq!(req.seq, 8);
    assert_eq!(req.func_id, 64);
    assert_eq!(req.flags, 2);
    assert_eq!(req.registers[0], 0);
    assert_eq!(req.registers[30], 90);
    assert_eq!(req.pc, 0x4000);
    assert_eq!(req.payload, vec![0x1F, 0x20, 0x03, 0xD5]);
}

#[test]
fn parse_control_packet_and_short_packet() {
    // A header announcing 3 payload bytes, followed by only 2: a control
    // packet without registers keeps what there is.
    let mut data = vec![1, 0, 0, 0, 2, 0, 0, 0, 0, 0, 0, 0, 4, 0, 3, 0];
    data.extend_from_slice(&[9, 9]);
    let req = parse_request(&data).unwrap();
    assert_eq!(req.session_id, 1);
    assert_eq!(req.seq, 2);
    assert_eq!(req.flags, 4);
    assert_eq!(req.payload, vec![9, 9]);
    assert_eq!(req.registers, [0u64; 31]);
    assert_eq!(req.pc, 0);

    match parse_request(&data[..10]) {
        Err(ProtocolError::PacketTooShort(got, need)) => {
            assert_eq!(got, 10);
            assert_eq!(need, 16);
        }
        _ => panic!("expected a short-packet error"),
    }
}

#[test]
fn delta_then_apply_reconstructs_registers() {
    let prev = [5u64; 31];
    let mut cur = [5u64; 31];
    cur[3] = 1;
    cur[30] = 2;
    let result = ExecutionResult {
        session_id: 1,
        seq: 1,
        registers: cur,
        memory_deltas: vec![MemoryDelta { address: 8, data: vec![1, 2] }],
        return_value: 3,
        dirty_reg_bitmap: 0,
    };
    let delta = compute_delta(&result, &prev);
    assert_eq!(delta.memory_deltas.len(), 1);
    assert_eq!(delta.memory_deltas[0].data, vec![1, 2]);
    let mut applied = prev;
    for i in 0..31 {
        if delta.dirty_reg_bitmap & (1 << i) != 0 {
            applied[i] = delta.registers[i];
        }
    }
    assert_eq!(applied, cur);
}

#[test]
fn nack_frame_header() {
    let frame = phantom_core::protocol::nack_frame(&[1, 0, 0, 0, 9, 0, 0, 0]);
    assert_eq!(
        frame,
        vec![0, 0, 0, 0, 0, 0, 0, 0, 0, 0, 0, 0, 4, 0, 8, 0, 1, 0, 0, 0, 9, 0, 0, 0]
    );
}

#[test]
fn parse_request_ignores_trailing_bytes() {
    let mut data = full_request_bytes(&[1, 2, 3]);
    data.extend_from_slice(&[0xEE, 0xEE]);
    let req = parse_request(&data).unwrap();
    assert_eq!(req.payload, vec![1, 2, 3]);
    assert_eq!(req.registers[5], 15);
    assert_eq!(req.pc, 0x4000);
}
