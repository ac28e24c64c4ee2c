use phantom_core::fec::{FecDecoder, FecEncoder};

#[test]
fn test_fec_no_loss() {
    let mut encoder = FecEncoder::new();
    let packets: Vec<Vec<u8>> = (0..8).map(|i| vec![i as u8; 64]).collect();
    let mut parities = None;

    for pkt in &packets {
        parities = encoder.add_packet(pkt);
    }

    let parities = parities.expect("Should have parity after 8 packets");
    assert_eq!(parities.len(), 2);

    let received: [Option<Vec<u8>>; 8] = [
        Some(packets[0].clone()),
        Some(packets[1].clone()),
        Some(packets[2].clone()),
        Some(packets[3].clone()),
        Some(packets[4].clone()),
        Some(packets[5].clone()),
        Some(packets[6].clone()),
        Some(packets[7].clone()),
    ];

    let decoder = FecDecoder::new();
    let result = decoder.decode(&received, &[parities[0].clone(), parities[1].clone()]);
    for i in 0..8 {
        assert_eq!(result[i].as_ref().unwrap(), &packets[i]);
    }
}

#[test]
fn test_fec_single_loss_recovery() {
    let mut encoder = FecEncoder::new();
    let packets: Vec<Vec<u8>> = (0..8).map(|i| vec![(i * 17) as u8; 32]).collect();
    let mut parities = None;

    for pkt in &packets {
        parities = encoder.add_packet(pkt);
    }
    let parities = parities.unwrap();

    let received: [Option<Vec<u8>>; 8] = [
        Some(packets[0].clone()),
        Some(packets[1].clone()),
        None,
        Some(packets[3].clone()),
        Some(packets[4].clone()),
        Some(packets[5].clone()),
        None,
        Some(packets[7].clone()),
    ];

    let decoder = FecDecoder::new();
    let result = decoder.decode(&received, &[parities[0].clone(), parities[1].clone()]);

    assert_eq!(result[2].as_ref().unwrap(), &packets[2]);
    assert_eq!(result[6].as_ref().unwrap(), &packets[6]);
}

#[test]
fn test_fec_double_loss_same_half() {
    let mut encoder = FecEncoder::new();
    let packets: Vec<Vec<u8>> = (0..8).map(|i| vec![i as u8; 16]).collect();
    let mut parities = None;
    for pkt in &packets {
        parities = encoder.add_packet(pkt);
    }
    let parities = parities.unwrap();

    let received: [Option<Vec<u8>>; 8] = [
        None,
        None,
        Some(packets[2].clone()),
        Some(packets[3].clone()),
        Some(packets[4].clone()),
        Some(packets[5].clone()),
        Some(packets[6].clone()),
        Some(packets[7].clone()),
    ];

    let decoder = FecDecoder::new();
    let result = decoder.decode(&received, &[parities[0].clone(), parities[1].clone()]);

    assert!(result[0].is_none());
    assert!(result[1].is_none());
}

#[test]
fn fec_parity_is_xor_of_each_half() {
    let mut encoder = FecEncoder::new();
    let packets: Vec<Vec<u8>> = vec![
        vec![0x01, 0x02],
        vec![0x04],
        vec![0x10, 0x20, 0x40],
        vec![0x80],
        vec![0xFF],
        vec![0x0F],
        vec![],
        vec![0x01, 0x01],
    ];
    let mut out = None;
    for (k, pkt) in packets.iter().enumerate() {
        out = encoder.add_packet(pkt);
        if k < 7 {
            assert!(out.is_none());
        }
    }
    let parities = out.unwrap();
    // Each parity is as long as the longest packet of the block (3 bytes).
    assert_eq!(parities[0], vec![0x01 ^ 0x04 ^ 0x10 ^ 0x80, 0x02 ^ 0x20, 0x40]);
    assert_eq!(parities[1], vec![0xFF ^ 0x0F ^ 0x01, 0x01, 0x00]);
}

#[test]
fn fec_recovers_short_packet_zero_padded() {
    let mut encoder = FecEncoder::new();
    let packets: Vec<Vec<u8>> = vec![
        vec![9, 8, 7, 6],
        vec![1],
        vec![2, 3],
        vec![4, 5, 6],
        vec![1, 1],
        vec![2, 2],
        vec![3, 3],
        vec![4, 4],
    ];
    let mut out = None;
    for pkt in &packets {
        out = encoder.add_packet(pkt);
    }
    let parities = out.unwrap();
    let received: [Option<Vec<u8>>; 8] = [
        Some(packets[0].clone()),
        None,
        Some(packets[2].clone()),
        Some(packets[3].clone()),
        Some(packets[4].clone()),
        Some(packets[5].clone()),
        Some(packets[6].clone()),
        None,
    ];
    let result = FecDecoder::new().decode(&received, &[parities[0].clone(), parities[1].clone()]);
    // The lost packet comes back padded with zeros to the parity length.
    assert_eq!(result[1].as_ref().unwrap(), &vec![1, 0, 0, 0]);
    assert_eq!(result[7].as_ref().unwrap(), &vec![4, 4, 0, 0]);
    assert_eq!(result[0].as_ref().unwrap(), &packets[0]);
}

#[test]
fn fec_encoder_starts_new_block_after_eight() {
    let mut encoder = FecEncoder::new();
    for i in 0..8u8 {
        let _ = encoder.add_packet(&[i]);
    }
    // Second block: the first seven packets yield nothing.
    for i in 0..7u8 {
        assert!(encoder.add_packet(&[i, i]).is_none());
    }
    let p = encoder.add_packet(&[7, 7]).unwrap();
    assert_eq!(p[0], vec![0 ^ 1 ^ 2 ^ 3, 0 ^ 1 ^ 2 ^ 3]);
    assert_eq!(p[1], vec![4 ^ 5 ^ 6 ^ 7, 4 ^ 5 ^ 6 ^ 7]);
}

#[test]
fn fec_flush_pads_partial_block() {
    let mut encoder = FecEncoder::new();
    assert!(encoder.flush().is_none());
    encoder.add_packet(&[0xAA, 0x55]);
    encoder.add_packet(&[0x0F]);
    let p = encoder.flush().unwrap();
    assert_eq!(p.len(), 2);
    assert_eq!(p[0], vec![0xAA ^ 0x0F, 0x55]);
    assert_eq!(p[1], vec![0, 0]);
    assert!(encoder.flush().is_none());
}

#[test]
fn fec_flush_of_empty_packets_gives_one_byte_parity() {
    let mut encoder = FecEncoder::new();
    encoder.add_packet(&[]);
    let p = encoder.flush().unwrap();
    assert_eq!(p[0], vec![0]);
    assert_eq!(p[1], vec![0]);
}

#[test]
fn xor_into_extends_shorter_destination() {
    let mut dst = vec![0x0F];
    phantom_core::fec::xor_into(&mut dst, &[0xF0, 0x33]);
    assert_eq!(dst, vec![0xFF, 0x33]);
    let mut dst2 = vec![1, 2, 3];
    phantom_core::fec::xor_into(&mut dst2, &[1]);
    assert_eq!(dst2, vec![0, 2, 3]);
}
