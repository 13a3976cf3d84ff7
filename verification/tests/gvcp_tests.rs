use genicam_rs::gvcp::{
    check_resend_ack, event_register, next_request_id, packet_delay_for, parse_discovery_ack,
    parse_discovery_payload, parse_string, read_fixed_string, read_mem_ack_data,
    read_mem_payloads, resend_request, write_mem_payloads, check_write_ack, transact_step,
    backoff_delay_ms, AckStatus, TransactAction, TransactEvent, MAX_RETRIES, parse_ack, ack_event,
    GvcpAckHeader, stream_reg, updated_event_mask, CommandFlags, GigeError, discovery_request,
    discovery_request_id, merge_discovered, DeviceInfo, interface_selected, discovery_destination,
    event_mask_of, negotiated_mtu,
    GvcpRequestHeader, GVCP_CMD_KEY, HEADER_SIZE,
};

#[test]
fn request_header_roundtrip() {
    let header = GvcpRequestHeader {
        flags: CommandFlags { ack_required: true, broadcast: false },
        command: 0x1234,
        length: 4,
        request_id: 0xBEEF,
    };
    let payload = [1u8, 2, 3, 4];
    let encoded = header.encode(&payload);
    assert_eq!(encoded.len(), HEADER_SIZE + payload.len());
    assert_eq!(encoded[0], GVCP_CMD_KEY);
    assert_eq!(encoded[1], 0x01);
    assert_eq!(&encoded[2..4], &header.command.to_be_bytes());
    assert_eq!(&encoded[4..6], &header.length.to_be_bytes());
    assert_eq!(&encoded[6..8], &header.request_id.to_be_bytes());
    assert_eq!(&encoded[8..], &payload);
}

#[test]
fn broadcast_flag_byte() {
    let header = GvcpRequestHeader {
        flags: CommandFlags { ack_required: true, broadcast: true },
        command: 2,
        length: 0,
        request_id: 1,
    };
    assert_eq!(header.gvcp_flags_byte(), 0x11);
    let header = GvcpRequestHeader { flags: CommandFlags { ack_required: false, broadcast: false }, ..header };
    assert_eq!(header.encode(&[]), vec![0x42, 0, 0, 2, 0, 0, 0, 1]);
}

fn discovery_payload(mac: [u8; 6], ip: [u8; 4], manufacturer: &str, model: &str) -> Vec<u8> {
    let mut p = vec![0u8; 248];
    p[12..18].copy_from_slice(&mac);
    p[36..40].copy_from_slice(&ip);
    p[72..72 + manufacturer.len()].copy_from_slice(manufacturer.as_bytes());
    p[104..104 + model.len()].copy_from_slice(model.as_bytes());
    p
}

#[test]
fn discovery_payload_fields() {
    let p = discovery_payload([1, 2, 3, 4, 5, 6], [192, 168, 0, 7], "  Acme ", "");
    let info = parse_discovery_payload(&p).unwrap();
    assert_eq!(info.mac, [1, 2, 3, 4, 5, 6]);
    assert_eq!(info.ip, [192, 168, 0, 7]);
    assert_eq!(info.manufacturer.as_deref(), Some("Acme"));
    assert_eq!(info.model, None);
    assert_eq!(info.mac_string(), "01:02:03:04:05:06");
}

#[test]
fn discovery_payload_too_short() {
    match parse_discovery_payload(&[0u8; 10]) {
        Err(GigeError::Protocol(m)) => assert_eq!(m, "discovery payload too small"),
        other => panic!("unexpected {other:?}"),
    }
    match parse_discovery_payload(&[0u8; 120]) {
        Err(GigeError::Protocol(m)) => assert_eq!(m, "discovery string truncated"),
        other => panic!("unexpected {other:?}"),
    }
}

fn ack(status: u16, command: u16, payload: &[u8], request_id: u16) -> Vec<u8> {
    let mut b = Vec::new();
    b.extend_from_slice(&status.to_be_bytes());
    b.extend_from_slice(&command.to_be_bytes());
    b.extend_from_slice(&(payload.len() as u16).to_be_bytes());
    b.extend_from_slice(&request_id.to_be_bytes());
    b.extend_from_slice(payload);
    b
}

#[test]
fn discovery_ack_checks() {
    let p = discovery_payload([9; 6], [10, 0, 0, 1], "Vendor", "Model");
    let info = parse_discovery_ack(&ack(0, 3, &p, 5), 5).unwrap().unwrap();
    assert_eq!(info.model.as_deref(), Some("Model"));
    assert!(parse_discovery_ack(&ack(0, 3, &p, 6), 5).unwrap().is_none());
    match parse_discovery_ack(&ack(0, 0x12, &p, 5), 5) {
        Err(GigeError::Protocol(m)) => assert_eq!(m, "unexpected discovery opcode 0x0012"),
        other => panic!("unexpected {other:?}"),
    }
    match parse_discovery_ack(&ack(0x8006, 3, &p, 5), 5) {
        Err(GigeError::Protocol(m)) => assert_eq!(m, "discovery returned status 0x8006"),
        other => panic!("unexpected {other:?}"),
    }
    let mut cut = ack(0, 3, &p, 5);
    cut.truncate(100);
    match parse_discovery_ack(&cut, 5) {
        Err(GigeError::Protocol(m)) => assert_eq!(m, "discovery payload truncated"),
        other => panic!("unexpected {other:?}"),
    }
    match parse_discovery_ack(&[0u8; 3], 5) {
        Err(GigeError::Protocol(m)) => assert_eq!(m, "GVCP ack too short"),
        other => panic!("unexpected {other:?}"),
    }
}

#[test]
fn fixed_strings() {
    assert_eq!(parse_string(b"abc\0def").as_deref(), Some("abc"));
    assert_eq!(parse_string(b" \0"), None);
    let mut pos = 1;
    assert_eq!(read_fixed_string(b"xhi\0\0", &mut pos, 4).unwrap().as_deref(), Some("hi"));
    assert_eq!(pos, 5);
    let mut pos = 1;
    match read_fixed_string(b"xhi", &mut pos, 4) {
        Err(GigeError::Protocol(m)) => assert_eq!(m, "discovery string truncated"),
        other => panic!("unexpected {other:?}"),
    }
    assert_eq!(pos, 1);
}

#[test]
fn request_ids_skip_zero() {
    assert_eq!(next_request_id(7), (7, 8));
    assert_eq!(next_request_id(u16::MAX), (u16::MAX, 1));
}

#[test]
fn stream_channel_registers() {
    assert_eq!(stream_reg(0, 0x04), 0x0d04);
    assert_eq!(stream_reg(2, 0x18), 0x0d00 + 0x80 + 0x18);
    assert_eq!(packet_delay_for(1500), 25);
    assert_eq!(packet_delay_for(9000), 0);
}

#[test]
fn read_mem_is_cut_in_blocks() {
    let ps = read_mem_payloads(0x1_0000_0010, 1030);
    assert_eq!(ps.len(), 3);
    assert_eq!(ps[0], vec![0, 0, 0, 0x10, 0, 0, 2, 0]);
    assert_eq!(ps[1], vec![0, 0, 2, 0x10, 0, 0, 2, 0]);
    assert_eq!(ps[2], vec![0, 0, 4, 0x10, 0, 0, 0, 6]);
    assert!(read_mem_payloads(0, 0).is_empty());
}

#[test]
fn read_mem_ack_payloads() {
    assert_eq!(read_mem_ack_data(&[0, 0, 0, 0, 7, 8], 2).unwrap(), vec![7, 8]);
    assert_eq!(read_mem_ack_data(&[7, 8], 2).unwrap(), vec![7, 8]);
    match read_mem_ack_data(&[7, 8, 9], 2) {
        Err(GigeError::Protocol(m)) => assert_eq!(m, "expected 2 bytes but device returned 3"),
        other => panic!("unexpected {other:?}"),
    }
}

#[test]
fn event_masks() {
    assert_eq!(event_register(0), (0x0900_0300, 1));
    assert_eq!(event_register(33), (0x0900_0304, 2));
    assert_eq!(updated_event_mask(0b100, 1, true), 0b101);
    assert_eq!(updated_event_mask(0b101, 1, false), 0b100);
}

#[test]
fn packet_resend() {
    let req = resend_request(0x0102, 3, 4, 9);
    assert_eq!(req, vec![0x42, 1, 0, 0x40, 0, 8, 0, 9, 1, 2, 0, 0, 0, 3, 0, 4]);
    assert!(check_resend_ack(&ack(0, 0x41, &[], 9), 9).is_ok());
    match check_resend_ack(&ack(0x8005, 0x41, &[], 9), 9) {
        Err(GigeError::Status(s)) => assert_eq!(s, 0x8005),
        other => panic!("unexpected {other:?}"),
    }
    match check_resend_ack(&ack(0, 0x41, &[], 8), 9) {
        Err(GigeError::Protocol(m)) => assert_eq!(m, "resend ack request id mismatch"),
        other => panic!("unexpected {other:?}"),
    }
    match check_resend_ack(&[0u8; 4], 9) {
        Err(GigeError::Protocol(m)) => assert_eq!(m, "resend ack length mismatch"),
        other => panic!("unexpected {other:?}"),
    }
}

#[test]
fn write_mem_blocks() {
    let data: Vec<u8> = (0..600u32).map(|i| (i % 251) as u8).collect();
    let ps = write_mem_payloads(0x1_0000_0010, &data);
    assert_eq!(ps.len(), 2);
    assert_eq!(&ps[0][..4], &[0, 0, 0, 0x10]);
    assert_eq!(&ps[0][4..], &data[..508]);
    assert_eq!(&ps[1][..4], &[0, 0, 0x02, 0x0c]);
    assert_eq!(&ps[1][4..], &data[508..]);
    assert!(write_mem_payloads(0, &[]).is_empty());
    assert!(check_write_ack(&[0, 0, 0, 0]).is_ok());
    match check_write_ack(&[0, 0, 0, 0, 1]) {
        Err(GigeError::Protocol(m)) => assert_eq!(m, "write acknowledgement carried unexpected payload"),
        other => panic!("unexpected {other:?}"),
    }
}

#[test]
fn retry_policy() {
    let ok = TransactEvent::Acked { request_id: 7, opcode_matches: true, status: AckStatus::Success };
    assert!(matches!(transact_step(1, 7, ok), TransactAction::Accept));
    let busy = |a| transact_step(a, 7, TransactEvent::Acked { request_id: 7, opcode_matches: true, status: AckStatus::DeviceBusy(0x8007) });
    assert!(matches!(busy(3), TransactAction::Retry));
    assert!(matches!(busy(MAX_RETRIES), TransactAction::Fail(GigeError::Status(0x8007))));
    assert!(matches!(transact_step(1, 7, TransactEvent::TimedOut), TransactAction::Retry));
    assert!(matches!(transact_step(4, 7, TransactEvent::TimedOut), TransactAction::Fail(GigeError::Timeout)));
    match transact_step(4, 7, TransactEvent::Acked { request_id: 6, opcode_matches: true, status: AckStatus::Success }) {
        TransactAction::Fail(GigeError::Protocol(m)) => assert_eq!(m, "acknowledgement id mismatch"),
        other => panic!("unexpected {other:?}"),
    }
    assert!(matches!(transact_step(2, 7, TransactEvent::Acked { request_id: 6, opcode_matches: true, status: AckStatus::Success }), TransactAction::Retry));
    match transact_step(1, 7, TransactEvent::Acked { request_id: 7, opcode_matches: false, status: AckStatus::Success }) {
        TransactAction::Fail(GigeError::Protocol(m)) => assert_eq!(m, "unexpected opcode in acknowledgement"),
        other => panic!("unexpected {other:?}"),
    }
    assert!(matches!(transact_step(1, 7, TransactEvent::Acked { request_id: 7, opcode_matches: true, status: AckStatus::Other(0x8001) }), TransactAction::Fail(GigeError::Status(0x8001))));
    match transact_step(4, 7, TransactEvent::SendFailed("down".to_string())) {
        TransactAction::Fail(GigeError::Io(m)) => assert_eq!(m, "down"),
        other => panic!("unexpected {other:?}"),
    }
    match transact_step(1, 7, TransactEvent::DecodeFailed("short".to_string())) {
        TransactAction::Fail(GigeError::GenCp(m)) => assert_eq!(m, "short"),
        other => panic!("unexpected {other:?}"),
    }
}

#[test]
fn backoff_delays() {
    assert_eq!(backoff_delay_ms(1, 0), 20);
    assert_eq!(backoff_delay_ms(2, 3), 43);
    assert_eq!(backoff_delay_ms(3, 0), 80);
    assert_eq!(backoff_delay_ms(4, 10), 170);
    assert_eq!(backoff_delay_ms(9, 0), 160);
}

#[test]
fn ack_headers_become_events() {
    assert!(parse_ack(&[0, 0, 0, 0x85, 0, 0, 0]).is_none());
    let (h, p) = parse_ack(&[0x80, 0x07, 0, 0x85, 0, 2, 0, 9, 0xAB, 0xCD]).unwrap();
    assert_eq!(h, GvcpAckHeader { status: 0x8007, command: 0x85, length: 2, request_id: 9 });
    assert_eq!(p, vec![0xAB, 0xCD]);
    match ack_event(&h, 9, 0x84) {
        TransactEvent::Acked { request_id, opcode_matches, status } => {
            assert_eq!(request_id, 9);
            assert!(opcode_matches);
            assert_eq!(status, AckStatus::DeviceBusy(0x8007));
        }
        other => panic!("unexpected {other:?}"),
    }
    let ok = GvcpAckHeader { status: 0, command: 0x87, length: 0, request_id: 3 };
    match ack_event(&ok, 3, 0x84) {
        TransactEvent::Acked { opcode_matches, status, .. } => {
            assert!(!opcode_matches);
            assert_eq!(status, AckStatus::Success);
        }
        other => panic!("unexpected {other:?}"),
    }
}

fn dev(ip: [u8; 4], mac_last: u8, model: &str) -> DeviceInfo {
    DeviceInfo { ip, mac: [0, 1, 2, 3, 4, mac_last], model: Some(model.to_string()), manufacturer: None }
}

#[test]
fn discovery_rounds() {
    assert_eq!(discovery_request_id(0), 0x0100);
    assert_eq!(discovery_request_id(3), 0x0103);
    assert_eq!(discovery_request_id(0xFF00), 0x0000);
    assert_eq!(discovery_request(0x0101), vec![0x42, 0x11, 0, 2, 0, 0, 1, 1]);
    let found = merge_discovered(vec![
        dev([10, 0, 0, 9], 1, "late"),
        dev([10, 0, 0, 2], 2, "first"),
        dev([10, 0, 0, 9], 1, "again"),
        dev([10, 0, 0, 2], 3, "second"),
        dev([9, 255, 0, 1], 4, "low"),
    ]);
    let models: Vec<&str> = found.iter().map(|d| d.model.as_deref().unwrap()).collect();
    assert_eq!(models, vec!["low", "first", "second", "late"]);
    assert!(merge_discovered(Vec::new()).is_empty());
}

#[test]
fn discovery_interfaces() {
    assert!(interface_selected("eth0", [192, 168, 1, 2], false, None));
    assert!(!interface_selected("lo", [127, 0, 0, 1], false, None));
    assert!(interface_selected("lo", [127, 0, 0, 1], true, Some("lo")));
    assert!(!interface_selected("eth1", [10, 0, 0, 1], true, Some("eth0")));
    assert_eq!(discovery_destination([127, 0, 0, 1], None), ([127, 0, 0, 1], false));
    assert_eq!(discovery_destination([10, 0, 0, 5], Some([10, 0, 0, 255])), ([10, 0, 0, 255], true));
    assert_eq!(discovery_destination([10, 0, 0, 5], None), ([255, 255, 255, 255], true));
}

#[test]
fn event_masks_and_mtu() {
    assert_eq!(event_mask_of(&[0, 0, 1, 2]).unwrap(), 0x0102);
    match event_mask_of(&[0, 1]) {
        Err(GigeError::Protocol(m)) => assert_eq!(m, "event notification register length mismatch"),
        other => panic!("unexpected {other:?}"),
    }
    assert_eq!(negotiated_mtu(9000, Some(1500)), 1500);
    assert_eq!(negotiated_mtu(1500, Some(9000)), 1500);
    assert_eq!(negotiated_mtu(1500, None), 1500);
}
