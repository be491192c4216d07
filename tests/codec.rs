use nocrw::packet::{
    decode_packet, encode_packet, encode_packet_burst, Mode, NocPacket, ProtocolError,
};
use nocrw::FPGAModule;

fn data8() -> Vec<u8> {
    vec![1, 2, 3, 4, 5, 6, 7, 8]
}

#[test]
fn module_new_keeps_fields() {
    let m = FPGAModule::new(3, 7);
    assert_eq!(m.chip_id, 3);
    assert_eq!(m.mod_id, 7);
    assert_eq!(nocrw::module::eth_module(), FPGAModule::new(0, 5));
}

#[test]
fn encode_packet_layout() {
    let p = encode_packet(FPGAModule::new(3, 7), false, 0xFF, 0x1234_5678, &data8(), Mode::WritePosted);
    assert_eq!(
        p,
        [0, 0xFF, 0x05, 0x00, 0x1C, 0x32, 0x12, 0x34, 0x56, 0x78, 8, 7, 6, 5, 4, 3, 2, 1]
    );
}

#[test]
fn encode_packet_packs_high_id_bits() {
    let p = encode_packet(FPGAModule::new(0xC1, 0xC2), true, 0x0F, 0, &data8(), Mode::MsgAck);
    assert_eq!(p[0], 1);
    assert_eq!(p[1], 0x0F);
    assert_eq!(p[3], 0x03);
    assert_eq!(p[4], 0x0B);
    assert_eq!(p[5], 0x14);
}

#[test]
fn encode_burst_flit_layout() {
    let d: Vec<u8> = (0u8..16).collect();
    let p = encode_packet_burst(true, &d);
    let mut expect = vec![1u8, 0xFF];
    expect.extend((0u8..16).rev());
    assert_eq!(p.to_vec(), expect);
    assert_eq!(encode_packet_burst(false, &d)[0], 0);
}

#[test]
fn decode_normal_round_trip() {
    let p = encode_packet(FPGAModule::new(1, 2), false, 0xFF, 0xDEAD_BEEF, &data8(), Mode::ReadResp);
    let mut burst = None;
    match decode_packet(&p, 0, &mut burst).unwrap() {
        NocPacket::Normal { src, mode, addr, data } => {
            assert_eq!(src, FPGAModule::new(0, 5));
            assert_eq!(mode, Mode::ReadResp);
            assert_eq!(addr, 0xDEAD_BEEF);
            assert_eq!(data, data8());
        },
        NocPacket::Burst { .. } => panic!("expected a normal packet"),
    }
    assert_eq!(burst, None);
}

#[test]
fn decode_mask_trims_window() {
    // mask 0x3C: two leading and two trailing zero bits
    let p = encode_packet(FPGAModule::new(0, 1), false, 0x3C, 0, &data8(), Mode::WritePosted);
    let mut burst = None;
    match decode_packet(&p, 0, &mut burst).unwrap() {
        NocPacket::Normal { data, .. } => assert_eq!(data, vec![3, 4, 5, 6]),
        NocPacket::Burst { .. } => panic!("expected a normal packet"),
    }
}

#[test]
fn decode_empty_mask_selects_nothing() {
    let p = encode_packet(FPGAModule::new(0, 1), false, 0x00, 0, &data8(), Mode::WritePosted);
    let mut burst = None;
    match decode_packet(&p, 0, &mut burst).unwrap() {
        NocPacket::Normal { data, .. } => assert!(data.is_empty()),
        NocPacket::Burst { .. } => panic!("expected a normal packet"),
    }
}

#[test]
fn decode_unknown_mode_is_error() {
    let mut p = encode_packet(FPGAModule::new(0, 1), false, 0xFF, 0, &data8(), Mode::WritePosted);
    p[5] = (p[5] & 0xF0) | 0x7;
    let mut burst = Some((0xFF, false));
    let mut b2 = None;
    assert_eq!(decode_packet(&p, 0, &mut b2).unwrap_err(), ProtocolError::UnknownMode(7));
    assert_eq!(b2, None);
    // under a burst the same bytes are a flit
    assert!(decode_packet(&p, 0, &mut burst).is_ok());
}

#[test]
fn decode_burst_header_then_flits() {
    let hdr = encode_packet(FPGAModule::new(0, 1), true, 0xFF, 0x100, &data8(), Mode::ReadResp);
    let d1: Vec<u8> = (10u8..26).collect();
    let d2: Vec<u8> = (30u8..46).collect();
    let mut stream = hdr.to_vec();
    stream.extend_from_slice(&encode_packet_burst(true, &d1));
    stream.extend_from_slice(&encode_packet_burst(false, &d2));
    let mut burst = None;
    assert!(matches!(decode_packet(&stream, 0, &mut burst).unwrap(), NocPacket::Normal { .. }));
    assert_eq!(burst, Some((0xFF, true)));
    match decode_packet(&stream, 18, &mut burst).unwrap() {
        NocPacket::Burst { data } => assert_eq!(data, d1),
        _ => panic!("expected a flit"),
    }
    assert_eq!(burst, Some((0xFF, false)));
    match decode_packet(&stream, 36, &mut burst).unwrap() {
        NocPacket::Burst { data } => assert_eq!(data, d2),
        _ => panic!("expected a flit"),
    }
    assert_eq!(burst, None);
}

#[test]
fn decode_burst_mask_trims_first_and_last() {
    let d: Vec<u8> = (0u8..16).collect();
    // first flit of a group that also ends it: mask 0xEC trims 1 leading, 3 trailing
    let p = encode_packet_burst(false, &d);
    let mut burst = Some((0xEC, true));
    match decode_packet(&p, 0, &mut burst).unwrap() {
        NocPacket::Burst { data } => assert_eq!(data, (3u8..15).collect::<Vec<u8>>()),
        _ => panic!("expected a flit"),
    }
    assert_eq!(burst, None);
}

#[test]
fn decode_bad_burst_window_is_error() {
    let d: Vec<u8> = (0u8..16).collect();
    let p = encode_packet_burst(false, &d);
    let mut burst = Some((0x00, true));
    assert_eq!(decode_packet(&p, 0, &mut burst).unwrap_err(), ProtocolError::BadBurstWindow);
    assert_eq!(burst, Some((0x00, true)));
}

#[test]
fn mode_codes() {
    assert_eq!(Mode::ReadReq.to_u8(), 0);
    assert_eq!(Mode::MsgAck.to_u8(), 4);
    assert_eq!(Mode::from_u8(2), Some(Mode::WritePosted));
    assert_eq!(Mode::from_u8(5), None);
}
