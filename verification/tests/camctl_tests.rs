use genicam_rs::camctl::{u3v_payload_size, assemble, StreamPacket, can_read_back, encode_pgm, encode_ppm, format_mac, parse_events, parse_mac, parse_mode, StreamMode};
use genicam_rs::xml_model::AccessMode;

#[test]
fn parse_mac_valid() {
    let mac = parse_mac("DE:AD:BE:EF:CA:FE").unwrap();
    assert_eq!(mac, [0xDE, 0xAD, 0xBE, 0xEF, 0xCA, 0xFE]);
}

#[test]
fn parse_mac_lowercase() {
    let mac = parse_mac("de:ad:be:ef:ca:fe").unwrap();
    assert_eq!(mac, [0xDE, 0xAD, 0xBE, 0xEF, 0xCA, 0xFE]);
}

#[test]
fn parse_mac_invalid_format() {
    assert!(parse_mac("DEADBEEFCAFE").is_err());
    assert!(parse_mac("DE:AD:BE:EF:CA").is_err());
    assert!(parse_mac("DE:AD:BE:EF:CA:FE:00").is_err());
}

#[test]
fn parse_mac_invalid_hex() {
    assert!(parse_mac("GG:AD:BE:EF:CA:FE").is_err());
}

#[test]
fn parse_mac_error_messages() {
    assert_eq!(
        parse_mac("DE:AD").unwrap_err(),
        "invalid MAC address 'DE:AD': expected 6 colon-separated hex bytes"
    );
    assert_eq!(
        parse_mac("DE:AD:BE:EF:CA:ZZ").unwrap_err(),
        "invalid hex byte 'ZZ' in MAC address"
    );
    // A field must be one byte: 0x100 is too large.
    assert!(parse_mac("DE:AD:BE:EF:CA:100").is_err());
    // An empty field is no byte.
    assert!(parse_mac("DE::BE:EF:CA:FE").is_err());
}

#[test]
fn format_mac_is_upper_case_colon_separated() {
    assert_eq!(format_mac(&[0xDE, 0xAD, 0xBE, 0xEF, 0x0A, 0x01]), "DE:AD:BE:EF:0A:01");
}

#[test]
fn format_then_parse_mac_roundtrip() {
    for mac in [[0u8; 6], [0xFF; 6], [0x01, 0x23, 0x45, 0x67, 0x89, 0xAB]] {
        assert_eq!(parse_mac(&format_mac(&mac)), Ok(mac));
    }
}

#[test]
fn pgm_header_is_correct() {
    let data = vec![0u8; 4];
    let encoded = encode_pgm(2, 2, &data).expect("encode");
    assert!(encoded.starts_with(b"P5\n2 2\n255\n"));
    assert_eq!(encoded.len(), 4 + "P5\n2 2\n255\n".len());
}

#[test]
fn ppm_header_is_correct() {
    let data = vec![0u8; 12];
    let encoded = encode_ppm(2, 2, &data).expect("encode");
    assert!(encoded.starts_with(b"P6\n2 2\n255\n"));
    assert_eq!(encoded.len(), 12 + "P6\n2 2\n255\n".len());
}

#[test]
fn pnm_payload_size_mismatch() {
    assert_eq!(
        encode_pgm(2, 2, &[0u8; 3]).unwrap_err(),
        "PGM payload length mismatch: expected 4, got 3"
    );
    assert_eq!(
        encode_ppm(2, 2, &[0u8; 4]).unwrap_err(),
        "PPM payload length mismatch: expected 12, got 4"
    );
}

#[test]
fn pnm_keeps_pixels_after_header() {
    let encoded = encode_pgm(3, 1, &[7, 8, 9]).unwrap();
    assert_eq!(encoded, b"P5\n3 1\n255\n\x07\x08\x09".to_vec());
}

#[test]
fn only_readable_nodes_are_read_back() {
    assert!(can_read_back(Some(AccessMode::RW)));
    assert!(can_read_back(Some(AccessMode::RO)));
    assert!(!can_read_back(Some(AccessMode::WO)));
    assert!(!can_read_back(None));
}

#[test]
fn events_are_trimmed_and_blanks_dropped() {
    assert_eq!(
        parse_events(" ExposureEnd, ,FrameStart ,"),
        vec!["ExposureEnd".to_string(), "FrameStart".to_string()]
    );
    assert!(parse_events("").is_empty());
}

#[test]
fn stream_mode_parsing() {
    assert_eq!(parse_mode("UNICAST"), Ok(StreamMode::Unicast));
    assert_eq!(parse_mode("Multicast"), Ok(StreamMode::Multicast));
    assert_eq!(
        parse_mode("Broadcast").unwrap_err(),
        "unknown stream mode 'broadcast' (expected unicast or multicast)"
    );
}

#[test]
fn frames_are_assembled_from_packets() {
    let (state, done) = assemble(None, StreamPacket::Leader { block_id: 7, width: 2, height: 1, pixel_format: 0x0108_0001, timestamp: 99 });
    assert!(done.is_none());
    let (state, _) = assemble(state, StreamPacket::Payload { block_id: 7, data: vec![1, 2] });
    let (state, _) = assemble(state, StreamPacket::Payload { block_id: 8, data: vec![9] });
    let (state, _) = assemble(state, StreamPacket::Payload { block_id: 7, data: vec![3] });
    let (state, done) = assemble(state, StreamPacket::Trailer { block_id: 7, status: 0 });
    assert!(state.is_none());
    let frame = done.unwrap();
    assert_eq!((frame.block_id, frame.width, frame.height, frame.timestamp), (7, 2, 1, 99));
    assert_eq!(frame.payload, vec![1, 2, 3]);
    let (state, _) = assemble(None, StreamPacket::Leader { block_id: 1, width: 1, height: 1, pixel_format: 0, timestamp: 0 });
    let (state, done) = assemble(state, StreamPacket::Trailer { block_id: 2, status: 0 });
    assert!(state.is_none() && done.is_none());
    let (state, done) = assemble(None, StreamPacket::Payload { block_id: 1, data: vec![1] });
    assert!(state.is_none() && done.is_none());
}

#[test]
fn u3v_payload_size_by_pixel_format() {
    assert_eq!(u3v_payload_size(Some(640), Some(480), "Mono8"), Some(640 * 480));
    assert_eq!(u3v_payload_size(Some(100), Some(10), "RGB8Packed"), Some(3000));
    assert_eq!(u3v_payload_size(Some(100), Some(10), "BGR8"), Some(3000));
    assert_eq!(u3v_payload_size(Some(100), Some(10), "Mono16"), Some(2000));
    assert_eq!(u3v_payload_size(Some(100), Some(10), "Mono12Packed"), Some(1000));
}

#[test]
fn u3v_payload_size_falls_back_to_vga() {
    assert_eq!(u3v_payload_size(None, None, "Mono8"), Some(307_200));
    assert_eq!(u3v_payload_size(None, Some(2), "RGB8"), Some(640 * 2 * 3));
}
