use genicam_rs::fake_gige::{
    parse_mac, RegisterMap, FAKE_XML, FIRST_URL_REG, MONO8, SCP_HOST_PORT, SCP_PACKET_SIZE,
    STREAM_CHANNEL_BASE, URL_REG_LEN, XML_BLOB_BASE,
};
use genicam_rs::gvsp::{
    build_leader, build_payload, build_trailer, generate_gradient, next_block_id, stream_step,
    StreamAction,
};

#[test]
fn parse_mac_accepts_either_case_and_separator() {
    let mac = [0xDE, 0xAD, 0xBE, 0xEF, 0xCA, 0xFE];
    assert_eq!(parse_mac("DE:AD:BE:EF:CA:FE"), Ok(mac));
    assert_eq!(parse_mac("de-ad-be-ef-ca-fe"), Ok(mac));
}

#[test]
fn parse_mac_rejects_malformed_input() {
    assert!(parse_mac("DE:AD:BE:EF:CA").is_err());
    assert!(parse_mac("DE:AD:BE:EF:CA:ZZ").is_err());
    assert!(parse_mac("DE:AD:BE:EF:CA:FE:00").is_err());
}

#[test]
fn parse_mac_messages() {
    assert_eq!(parse_mac("DE:AD").unwrap_err(), "expected six hex bytes, got 'DE:AD'");
    assert_eq!(parse_mac("DE:AD:BE:EF:CA:ZZ").unwrap_err(), "invalid hex byte 'ZZ'");
    assert_eq!(parse_mac("de:ad-be:ef-ca:fe"), Ok([0xDE, 0xAD, 0xBE, 0xEF, 0xCA, 0xFE]));
}

#[test]
fn new_camera_reports_its_geometry() {
    let regs = RegisterMap::new(640, 480);
    assert_eq!(regs.width(), 640);
    assert_eq!(regs.height(), 480);
    assert_eq!(regs.pixel_format_code(), MONO8);
    assert_eq!(regs.stream_packet_size(), 1500);
    assert_eq!(regs.stream_dest_port(), 0);
}

#[test]
fn url_register_points_at_xml_blob() {
    let regs = RegisterMap::new(16, 16);
    let url = regs.read(FIRST_URL_REG, URL_REG_LEN);
    assert_eq!(url.len(), URL_REG_LEN);
    let text = format!("Local:fake.xml;10000;{:x}\0", FAKE_XML.len());
    assert_eq!(&url[..text.len()], text.as_bytes());
    assert!(url[text.len()..].iter().all(|&b| b == 0));
}

#[test]
fn xml_blob_is_readable_and_zero_padded() {
    let regs = RegisterMap::new(16, 16);
    assert_eq!(regs.read(XML_BLOB_BASE, 5), b"<?xml".to_vec());
    let n = FAKE_XML.len() as u64;
    let tail = regs.read(XML_BLOB_BASE + n - 3, 6);
    assert_eq!(&tail[..3], &FAKE_XML.as_bytes()[FAKE_XML.len() - 3..]);
    assert_eq!(&tail[3..], &[0, 0, 0]);
}

#[test]
fn write_then_read_register() {
    let mut regs = RegisterMap::new(640, 480);
    regs.write(0x20000, &1024u32.to_be_bytes());
    assert_eq!(regs.width(), 1024);
    regs.write(STREAM_CHANNEL_BASE + SCP_HOST_PORT, &[0, 0, 0x30, 0x39]);
    assert_eq!(regs.stream_dest_port(), 12345);
}

#[test]
fn write_inside_register_and_new_register() {
    let mut regs = RegisterMap::new(640, 480);
    // Bytes 2..4 of the packet size register.
    regs.write(STREAM_CHANNEL_BASE + SCP_PACKET_SIZE + 2, &[0x02, 0x00]);
    assert_eq!(regs.stream_packet_size(), 0x0200);
    // An address no register holds becomes a register of its own.
    regs.write(0x5000, &[1, 2, 3]);
    assert_eq!(regs.read(0x5000, 3), vec![1, 2, 3]);
    assert_eq!(regs.read(0x5001, 4), vec![2, 3, 0, 0]);
    // Nothing there reads as zeros.
    assert_eq!(regs.read(0x6000, 2), vec![0, 0]);
}

#[test]
fn register_read_runs_on_into_the_next_register() {
    let regs = RegisterMap::new(640, 480);
    assert_eq!(regs.read(0x20000, 2), vec![0, 0]);
    assert_eq!(regs.read(0x20000, 8), vec![0, 0, 0x02, 0x80, 0, 0, 0x01, 0xE0]);
    assert_eq!(regs.read(0x20002, 4), vec![0x02, 0x80, 0, 0]);
}

#[test]
fn gvsp_leader_layout() {
    let p = build_leader(7, 640, 480, MONO8);
    assert_eq!(p.len(), 44);
    assert_eq!(&p[..8], &[0, 0, 0, 7, 1, 0, 0, 0]);
    assert_eq!(&p[8..12], &[0, 0, 0, 1]);
    assert_eq!(&p[20..24], &MONO8.to_be_bytes());
    assert_eq!(&p[24..28], &640u32.to_be_bytes());
    assert_eq!(&p[28..32], &480u32.to_be_bytes());
}

#[test]
fn gvsp_payload_and_trailer_layout() {
    let p = build_payload(2, 0x0102, &[9, 9]);
    assert_eq!(p, vec![0, 0, 0, 2, 3, 1, 1, 2, 9, 9]);
    let t = build_trailer(2, 5);
    assert_eq!(t, vec![0, 0, 0, 2, 2, 0, 0, 5, 0, 0, 0, 1, 0, 0, 0, 0]);
}

#[test]
fn gradient_values() {
    // 255 / 4 = 63 per column; seed 1 shifts the columns by one.
    let img = generate_gradient(4, 2, 1, 1);
    assert_eq!(img, vec![63, 126, 189, 252, 63, 126, 189, 252]);
    let rgb = generate_gradient(2, 2, 3, 0);
    assert_eq!(rgb, vec![0, 0, 0, 127, 0, 0, 0, 127, 0, 127, 127, 0]);
}

#[test]
fn stream_step_waits_without_destination() {
    assert!(matches!(stream_step(0, false, 1500, 4, 4, MONO8, 1), StreamAction::Wait));
    assert!(matches!(stream_step(5000, true, 1500, 4, 4, MONO8, 1), StreamAction::Wait));
    assert!(matches!(stream_step(5000, false, 8, 4, 4, MONO8, 1), StreamAction::Wait));
}

#[test]
fn stream_step_cuts_frame_into_packets() {
    match stream_step(5000, false, 8 + 6, 4, 4, MONO8, 3) {
        StreamAction::Send(packets) => {
            // Leader, three payload packets of 6, 6 and 4 bytes, trailer.
            assert_eq!(packets.len(), 5);
            assert_eq!(packets[0], build_leader(3, 4, 4, MONO8));
            assert_eq!(packets[1].len(), 8 + 6);
            assert_eq!(packets[3].len(), 8 + 4);
            assert_eq!(packets[4], build_trailer(3, 4));
            let image = generate_gradient(4, 4, 1, 3);
            assert_eq!(&packets[2][8..], &image[6..12]);
        }
        StreamAction::Wait => panic!("expected a frame"),
    }
}

#[test]
fn block_ids_skip_zero() {
    assert_eq!(next_block_id(1), 2);
    assert_eq!(next_block_id(u16::MAX), 1);
}
