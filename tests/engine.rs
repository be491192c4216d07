use nocrw::packet::{encode_packet, encode_packet_burst, Mode, ProtocolError};
use nocrw::reads::{ReadOp, MAX_READ_REQ_LEN};
use nocrw::selftest::{SelfTest, SelfTestStep, MAX_SELF_TEST_RETRIES, SELF_TEST_ADDR};
use nocrw::{Communicator, FPGAModule};

fn target() -> FPGAModule {
    FPGAModule::new(1, 4)
}

fn packets(datagram: &[u8]) -> Vec<Vec<u8>> {
    datagram.chunks(18).map(|c| c.to_vec()).collect()
}

fn addr_of(p: &[u8]) -> u32 {
    u32::from_be_bytes([p[6], p[7], p[8], p[9]])
}

fn read_response(id: u32, data: &[u8]) -> Vec<u8> {
    encode_packet(FPGAModule::new(1, 4), false, 0xFF, id, data, Mode::ReadResp).to_vec()
}

#[test]
fn write_misaligned_twenty_bytes() {
    let mut com = Communicator::new();
    let data: Vec<u8> = (1u8..=20).collect();
    assert_eq!(com.write_noburst(target(), 0x1003, &data), 20);
    let out = com.take_datagrams();
    assert_eq!(out.len(), 1);
    let pk = packets(&out[0]);
    assert_eq!(pk.len(), 3);
    assert_eq!(pk[0][1], 0x1F);
    assert_eq!(addr_of(&pk[0]), 0x1003);
    assert_eq!(pk[1][1], 0xFF);
    assert_eq!(addr_of(&pk[1]), 0x1008);
    assert_eq!(pk[2][1], 0x7F);
    assert_eq!(addr_of(&pk[2]), 0x1010);
    // the receiving end gets the 20 bytes back
    let mut peer = Communicator::new();
    assert_eq!(peer.receive(&out[0]).unwrap(), data);
}

#[test]
fn write_alignment_first_mask() {
    for rem in 1u32..8 {
        let mut com = Communicator::new();
        let data = vec![0xAAu8; 30];
        com.write_noburst(target(), 0x2000 + rem, &data);
        let out = com.take_datagrams();
        let pk = packets(&out[0]);
        assert_eq!(pk[0][1], 0xFFu8 >> rem);
        assert!(pk.len() <= (30 + 7) / 8 + 1);
        for p in &pk[1..] {
            assert_eq!(addr_of(p) % 8, 0);
        }
    }
}

#[test]
fn write_short_unaligned() {
    let mut com = Communicator::new();
    assert_eq!(com.write_noburst(target(), 0x13, &[9, 8]), 2);
    let out = com.take_datagrams();
    let pk = packets(&out[0]);
    assert_eq!(pk.len(), 1);
    assert_eq!(pk[0][1], 0x03);
    assert_eq!(&pk[0][10..18], &[0, 0, 0, 0, 0, 0, 8, 9]);
}

#[test]
fn write_empty_sends_nothing() {
    let mut com = Communicator::new();
    assert_eq!(com.write_noburst(target(), 0x13, &[]), 0);
    assert!(com.take_datagrams().is_empty());
}

#[test]
fn write_splits_into_datagrams() {
    let mut com = Communicator::new();
    let data = vec![7u8; 800];
    com.write_noburst(target(), 0, &data);
    let out = com.take_datagrams();
    assert_eq!(out.len(), 2);
    assert_eq!(out[0].len(), 1458);
    assert_eq!(out[1].len(), 19 * 18);
    let mut peer = Communicator::new();
    let mut got = peer.receive(&out[0]).unwrap();
    got.extend(peer.receive(&out[1]).unwrap());
    assert_eq!(got, data);
}

#[test]
fn write_burst_aligned_prefix() {
    let mut com = Communicator::new();
    let data: Vec<u8> = (0u8..40).collect();
    assert_eq!(com.write_burst(target(), 0x4000, &data), 40);
    let out = com.take_datagrams();
    let pk: Vec<Vec<u8>> = out.iter().flat_map(|d| packets(d)).collect();
    assert_eq!(pk.len(), 4);
    // header: burst flag, full mask, two flits
    assert_eq!(pk[0][0], 1);
    assert_eq!(pk[0][1], 0xFF);
    assert_eq!(pk[0][17], 2);
    assert_eq!(pk[1][0], 1);
    assert_eq!(pk[2][0], 0);
    // the tail of 8 bytes by posted write after the burst
    assert_eq!(pk[3][0], 0);
    assert_eq!(addr_of(&pk[3]), 0x4020);
    let mut peer = Communicator::new();
    let mut got = Vec::new();
    for d in &out {
        got.extend(peer.receive(d).unwrap());
    }
    assert_eq!(got, data);
}

#[test]
fn write_burst_unaligned_falls_back() {
    let mut com = Communicator::new();
    let data: Vec<u8> = (0u8..32).collect();
    com.write_burst(target(), 0x4008, &data);
    let out = com.take_datagrams();
    let pk: Vec<Vec<u8>> = out.iter().flat_map(|d| packets(d)).collect();
    assert_eq!(pk.len(), 4);
    assert!(pk.iter().all(|p| p[0] == 0));
}

#[test]
fn write_burst_splits_groups() {
    let mut com = Communicator::new();
    let data: Vec<u8> = (0..2048 * 16).map(|i| (i % 251) as u8).collect();
    com.write_burst(target(), 0, &data);
    let out = com.take_datagrams();
    let pk: Vec<Vec<u8>> = out.iter().flat_map(|d| packets(d)).collect();
    assert_eq!(pk.len(), 1 + 2047 + 1 + 1);
    assert_eq!(u16::from_le_bytes([pk[0][17], pk[0][16]]), 2047);
    assert_eq!(pk[2047][0], 0);
    assert_eq!(pk[2048][17], 1);
    assert_eq!(addr_of(&pk[2048]), 2047 * 16);
    let mut peer = Communicator::new();
    let mut got = Vec::new();
    for d in &out {
        got.extend(peer.receive(d).unwrap());
    }
    assert_eq!(got, data);
}

#[test]
fn read_request_and_response() {
    let mut com = Communicator::new();
    let mut op = ReadOp::new(target(), 0x500, 16);
    let mut chunk = op.next_chunk(&mut com);
    assert_eq!(chunk.byte_count, 16);
    let out = com.take_datagrams();
    assert_eq!(out.len(), 1);
    assert_eq!(out[0].len(), 18);
    assert_eq!(out[0][5] & 0xF, 0);
    // payload: request id 0, byte count 16, little-endian, reversed on the wire
    assert_eq!(&out[0][10..18], &[0, 0, 0, 16, 0, 0, 0, 0]);
    let mut resp = read_response(0, &[1, 2, 3, 4, 5, 6, 7, 8]);
    resp.extend(read_response(8, &[9, 10, 11, 12, 13, 14, 15, 16]));
    com.on_read_datagram(&mut chunk, &resp).unwrap();
    assert!(chunk.is_complete());
    op.finish_chunk(chunk).unwrap();
    assert!(op.is_done());
    assert_eq!(op.result, (1u8..=16).collect::<Vec<u8>>());
    assert_eq!(op.addr, 0x510);
}

#[test]
fn read_clamps_chunk_and_advances_id() {
    let mut com = Communicator::new();
    let op = ReadOp::new(target(), 0, MAX_READ_REQ_LEN + 5);
    let c1 = op.next_chunk(&mut com);
    assert_eq!(c1.byte_count, MAX_READ_REQ_LEN);
    let c2 = op.next_chunk(&mut com);
    assert_eq!(c2.expected_id, c1.expected_id + 1);
}

#[test]
fn read_ignores_stale_response() {
    let mut com = Communicator::new();
    let mut chunk = com.begin_read(target(), 0x40, 8);
    let _ = com.begin_read(target(), 0x40, 8);
    let mut stale = read_response(0x77, &[0xEE; 8]);
    stale.extend(read_response(0, &[1, 2, 3, 4, 5, 6, 7, 8]));
    com.on_read_datagram(&mut chunk, &stale).unwrap();
    assert_eq!(chunk.data, vec![1, 2, 3, 4, 5, 6, 7, 8]);
    assert!(chunk.is_complete());
}

#[test]
fn read_burst_response() {
    let mut com = Communicator::new();
    let mut chunk = com.begin_read(target(), 0x40, 32);
    let hdr = encode_packet(target(), true, 0xFF, 0, &[2, 0, 0, 0, 0, 0, 0, 0], Mode::ReadResp);
    let d1: Vec<u8> = (0u8..16).collect();
    let d2: Vec<u8> = (16u8..32).collect();
    let mut dg = hdr.to_vec();
    dg.extend_from_slice(&encode_packet_burst(true, &d1));
    dg.extend_from_slice(&encode_packet_burst(false, &d2));
    com.on_read_datagram(&mut chunk, &dg).unwrap();
    assert_eq!(chunk.data, (0u8..32).collect::<Vec<u8>>());
    assert_eq!(chunk.expected_id, 32);
}

#[test]
fn read_keeps_unsolicited_traffic() {
    let mut com = Communicator::new();
    let mut chunk = com.begin_read(target(), 0x40, 8);
    let print = encode_packet(target(), false, 0xFF, 0x99, b"hello!!\n", Mode::WritePosted);
    let mut dg = print.to_vec();
    dg.extend(read_response(0, &[1, 2, 3, 4, 5, 6, 7, 8]));
    com.on_read_datagram(&mut chunk, &dg).unwrap();
    assert!(chunk.data.is_empty());
    com.on_read_datagram(&mut chunk, &read_response(0, &[1, 2, 3, 4, 5, 6, 7, 8])).unwrap();
    assert!(chunk.is_complete());
    let kept = com.take_pending().unwrap();
    assert_eq!(kept, dg);
    assert!(com.take_pending().is_none());
    let mut got = com.receive(&kept).unwrap();
    got.truncate(8);
    assert_eq!(got, b"hello!!\n".to_vec());
}

#[test]
fn read_bad_length_is_error() {
    let mut com = Communicator::new();
    let mut chunk = com.begin_read(target(), 0, 8);
    assert_eq!(com.on_read_datagram(&mut chunk, &[0u8; 20]), Err(ProtocolError::BadLength(20)));
    assert_eq!(com.receive(&[0u8; 17]), Err(ProtocolError::BadLength(17)));
    assert_eq!(com.receive(&[]), Err(ProtocolError::BadLength(0)));
}

#[test]
fn read_excess_data_is_error() {
    let mut com = Communicator::new();
    let mut op = ReadOp::new(target(), 0, 4);
    let mut chunk = op.next_chunk(&mut com);
    com.on_read_datagram(&mut chunk, &read_response(0, &[1, 2, 3, 4, 5, 6, 7, 8])).unwrap();
    assert_eq!(op.finish_chunk(chunk), Err(ProtocolError::ExcessData));
    assert_eq!(op.remaining, 4);
}

#[test]
fn read_gives_up_after_retries() {
    let mut op = ReadOp::new(target(), 0, 4);
    assert!(!op.chunk_failed());
    assert!(!op.chunk_failed());
    assert!(op.chunk_failed());
}

#[test]
fn self_test_passes_on_loopback() {
    let mut com = Communicator::new();
    assert_eq!(com.start_self_test(), 8);
    let out = com.take_datagrams();
    assert_eq!(out.len(), 1);
    assert_eq!(&out[0][10..18], &[0xFF, 0xDE, 0xBC, 0x9A, 0x78, 0x56, 0x34, 0x12]);
    assert_eq!(addr_of(&out[0]), SELF_TEST_ADDR);
    let mut test = SelfTest::new();
    let noise = encode_packet(target(), false, 0xFF, 0x10, &[0; 8], Mode::WritePosted);
    assert_eq!(com.on_self_test_datagram(&mut test, &noise), SelfTestStep::Waiting);
    assert_eq!(com.on_self_test_datagram(&mut test, &out[0]), SelfTestStep::Passed);
}

#[test]
fn self_test_times_out() {
    let mut com = Communicator::new();
    let mut test = SelfTest::new();
    let noise = encode_packet(target(), false, 0xFF, 0x10, &[0; 8], Mode::WritePosted);
    for _ in 0..MAX_SELF_TEST_RETRIES - 1 {
        assert_eq!(com.on_self_test_datagram(&mut test, &noise), SelfTestStep::Waiting);
    }
    assert_eq!(com.on_self_test_datagram(&mut test, &noise), SelfTestStep::TimedOut);
}

#[test]
fn self_test_discards_wrong_loopback() {
    let mut com = Communicator::new();
    let mut test = SelfTest::new();
    let wrong_data = encode_packet(target(), false, 0xFF, SELF_TEST_ADDR, &[1; 8], Mode::WritePosted);
    let pattern = [0x12, 0x34, 0x56, 0x78, 0x9A, 0xBC, 0xDE, 0xFF];
    let wrong_mode = encode_packet(target(), false, 0xFF, SELF_TEST_ADDR, &pattern, Mode::ReadResp);
    let burst_start = encode_packet(target(), true, 0xFF, SELF_TEST_ADDR, &pattern, Mode::WritePosted);
    assert_eq!(com.on_self_test_datagram(&mut test, &wrong_data), SelfTestStep::Waiting);
    assert_eq!(com.on_self_test_datagram(&mut test, &wrong_mode), SelfTestStep::Waiting);
    assert_eq!(com.on_self_test_datagram(&mut test, &burst_start), SelfTestStep::Waiting);
    assert_eq!(test.seen, 3);
    // the burst start was discarded, so the real loopback still decodes as a normal packet
    let mut com2 = Communicator::new();
    com2.start_self_test();
    let loopback = com2.take_datagrams().remove(0);
    assert_eq!(com.on_self_test_datagram(&mut test, &loopback), SelfTestStep::Passed);
}

#[test]
fn self_test_times_out_on_wrong_loopbacks() {
    let mut com = Communicator::new();
    let mut test = SelfTest::new();
    let wrong = encode_packet(target(), false, 0xFF, SELF_TEST_ADDR, &[1; 8], Mode::WritePosted);
    for _ in 0..MAX_SELF_TEST_RETRIES - 1 {
        assert_eq!(com.on_self_test_datagram(&mut test, &wrong), SelfTestStep::Waiting);
    }
    assert_eq!(com.on_self_test_datagram(&mut test, &wrong), SelfTestStep::TimedOut);
}

#[test]
fn self_test_corrupt() {
    let mut com = Communicator::new();
    let mut test = SelfTest::new();
    let wrong = encode_packet(target(), false, 0xFF, SELF_TEST_ADDR, &[1; 8], Mode::WritePosted);
    let mut bad = wrong.to_vec();
    bad[5] = 0x0F;
    assert_eq!(
        com.on_self_test_datagram(&mut test, &bad),
        SelfTestStep::Corrupt(ProtocolError::UnknownMode(0x0F))
    );
}

#[test]
fn coalescer_flush_and_split() {
    let mut com = Communicator::new();
    com.flush_packets();
    assert!(com.take_datagrams().is_empty());
    let pkt = encode_packet(target(), false, 0xFF, 0, &[0; 8], Mode::WritePosted);
    for _ in 0..82 {
        com.append_packet(&pkt);
    }
    let out = com.take_datagrams();
    assert_eq!(out.len(), 1);
    assert_eq!(out[0].len(), 81 * 18);
    com.flush_packets();
    let out = com.take_datagrams();
    assert_eq!(out.len(), 1);
    assert_eq!(out[0], pkt.to_vec());
}

#[test]
fn read_partial_response() {
    let mut com = Communicator::new();
    let mut op = ReadOp::new(target(), 0x1003, 5);
    let mut chunk = op.next_chunk(&mut com);
    let resp = encode_packet(target(), false, 0x1F, 0, &[1, 2, 3, 4, 5, 0, 0, 0], Mode::ReadResp);
    com.on_read_datagram(&mut chunk, &resp).unwrap();
    assert_eq!(chunk.expected_id, 5);
    op.finish_chunk(chunk).unwrap();
    assert_eq!(op.result, vec![1, 2, 3, 4, 5]);
}

#[test]
fn read_keeps_unsolicited_after_responses() {
    let mut com = Communicator::new();
    let mut chunk = com.begin_read(target(), 0x40, 16);
    let print = encode_packet(target(), false, 0xFF, 0x99, b"ab\ncdef\n", Mode::Msg);
    let mut dg = read_response(0, &[1, 2, 3, 4, 5, 6, 7, 8]);
    let tail_start = dg.len();
    dg.extend_from_slice(&print);
    dg.extend(read_response(8, &[9; 8]));
    com.on_read_datagram(&mut chunk, &dg).unwrap();
    assert_eq!(chunk.data, vec![1, 2, 3, 4, 5, 6, 7, 8]);
    assert_eq!(com.take_pending().unwrap(), dg[tail_start..].to_vec());
}
