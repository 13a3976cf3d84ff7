use genicam_rs::fake_u3v::{
    build_ack, bytes_per_pixel, generate_xml, FakeU3vCamera, FakeU3vTransport, RegisterMap, Transfer,
    TransportError, ABRM_MANUFACTURER, ABRM_SBRM_ADDRESS, CMD_PREFIX, MANIFEST_TABLE, MONO8,
    REG_HEIGHT, REG_WIDTH, SBRM_BASE, XML_BLOB_BASE,
};

#[test]
fn register_map_read_write_u32() {
    let map = RegisterMap::new(640, 480, 0x0108_0001);
    let width = map.read(REG_WIDTH, 4);
    assert_eq!(u32::from_be_bytes(width[..4].try_into().unwrap()), 640);
}

#[test]
fn register_map_xml_accessible() {
    let map = RegisterMap::new(320, 240, 0x0108_0001);
    let count_bytes = map.read(MANIFEST_TABLE, 4);
    let count = u32::from_be_bytes(count_bytes[..4].try_into().unwrap());
    assert_eq!(count, 1);
    let xml_start = map.read(XML_BLOB_BASE, 5);
    assert_eq!(&xml_start, b"<?xml");
}

#[test]
fn register_map_abrm_sbrm_address() {
    let map = RegisterMap::new(640, 480, 0x0108_0001);
    let sbrm_bytes = map.read(ABRM_SBRM_ADDRESS, 8);
    let sbrm_addr = u64::from_be_bytes(sbrm_bytes[..8].try_into().unwrap());
    assert_eq!(sbrm_addr, SBRM_BASE);
}

#[test]
fn manifest_entry_describes_xml() {
    let map = RegisterMap::new(640, 480, MONO8);
    let addr = map.read(MANIFEST_TABLE + 16, 8);
    assert_eq!(u64::from_be_bytes(addr[..].try_into().unwrap()), XML_BLOB_BASE);
    let size = map.read(MANIFEST_TABLE + 24, 8);
    assert_eq!(u64::from_be_bytes(size[..].try_into().unwrap()), generate_xml().len() as u64);
}

#[test]
fn strings_are_nul_padded() {
    let map = RegisterMap::new(640, 480, MONO8);
    let name = map.read(ABRM_MANUFACTURER, 64);
    assert_eq!(&name[..8], b"FakeCorp");
    assert!(name[8..].iter().all(|&b| b == 0));
}

#[test]
fn byte_writes_read_back_and_spill_into_new_blocks() {
    let mut map = RegisterMap::new(640, 480, MONO8);
    map.write(REG_WIDTH, &1024u32.to_be_bytes());
    assert_eq!(map.read_u32(REG_WIDTH), 1024);
    // Bytes past a block land in blocks of their own.
    map.write(0x7000, &[5, 6, 7]);
    assert_eq!(map.read(0x6FFF, 5), vec![0, 5, 6, 7, 0]);
}

fn command(opcode: u16, request_id: u16, payload: &[u8]) -> Vec<u8> {
    let mut c = Vec::new();
    c.extend_from_slice(&CMD_PREFIX.to_le_bytes());
    c.extend_from_slice(&0u16.to_le_bytes());
    c.extend_from_slice(&opcode.to_le_bytes());
    c.extend_from_slice(&(payload.len() as u16).to_le_bytes());
    c.extend_from_slice(&request_id.to_le_bytes());
    c.extend_from_slice(payload);
    c
}

fn read_mem_payload(addr: u64, count: u16) -> Vec<u8> {
    let mut p = addr.to_be_bytes().to_vec();
    p.extend_from_slice(&[0, 0]);
    p.extend_from_slice(&count.to_be_bytes());
    p
}

fn control_read(t: &mut FakeU3vTransport) -> Vec<u8> {
    match t.bulk_read(0x81, 4096).unwrap() {
        Transfer::Bytes(b) => b,
        other => panic!("unexpected transfer {other:?}"),
    }
}

#[test]
fn transport_read_mem_acknowledges_with_data() {
    let mut t = FakeU3vTransport::new(640, 480, MONO8);
    let cmd = command(0x0084, 7, &read_mem_payload(REG_HEIGHT, 4));
    assert_eq!(t.bulk_write(0x01, &cmd).unwrap(), cmd.len());
    let ack = control_read(&mut t);
    assert_eq!(ack, build_ack(0, 0x0085, 7, &480u32.to_be_bytes()));
    assert_eq!(&ack[..4], &0x4356_3341u32.to_le_bytes());
}

#[test]
fn transport_write_mem_then_read_register() {
    let mut t = FakeU3vTransport::new(640, 480, MONO8);
    let mut payload = REG_WIDTH.to_be_bytes().to_vec();
    payload.extend_from_slice(&800u32.to_be_bytes());
    t.bulk_write(0x01, &command(0x0086, 1, &payload)).unwrap();
    assert_eq!(control_read(&mut t), build_ack(0, 0x0087, 1, &[]));
    t.bulk_write(0x01, &command(0x0080, 2, &REG_WIDTH.to_be_bytes())).unwrap();
    assert_eq!(control_read(&mut t), build_ack(0, 0x0081, 2, &800u32.to_be_bytes()));
}

#[test]
fn transport_unknown_command_not_implemented() {
    let mut t = FakeU3vTransport::new(640, 480, MONO8);
    t.bulk_write(0x01, &command(0x0100, 3, &[])).unwrap();
    assert_eq!(control_read(&mut t), build_ack(0x8001, 0x0085, 3, &[]));
}

#[test]
fn transport_protocol_errors() {
    let mut t = FakeU3vTransport::new(640, 480, MONO8);
    match t.bulk_write(0x01, &[0u8; 4]) {
        Err(TransportError::Protocol(m)) => assert_eq!(m, "command too short"),
        other => panic!("unexpected {other:?}"),
    }
    match t.bulk_write(0x01, &[0u8; 12]) {
        Err(TransportError::Protocol(m)) => assert_eq!(m, "bad cmd prefix: 0x0"),
        other => panic!("unexpected {other:?}"),
    }
    match t.bulk_read(0x81, 64) {
        Err(TransportError::Protocol(m)) => {
            assert_eq!(m, "no pending ack (bulk_read before bulk_write)")
        }
        other => panic!("unexpected {other:?}"),
    }
}

#[test]
fn control_read_is_cut_to_buffer() {
    let mut t = FakeU3vTransport::new(640, 480, MONO8);
    t.bulk_write(0x01, &command(0x0084, 9, &read_mem_payload(REG_WIDTH, 4))).unwrap();
    match t.bulk_read(0x81, 5).unwrap() {
        Transfer::Bytes(b) => assert_eq!(b.len(), 5),
        other => panic!("unexpected {other:?}"),
    }
}

#[test]
fn stream_cycles_leader_payload_trailer() {
    let mut t = FakeU3vCamera::new(4, 2).pixel_format(0x0218_0014).transport();
    match t.bulk_read(0x82, 1024).unwrap() {
        Transfer::Bytes(b) => {
            assert_eq!(b.len(), 42);
            assert_eq!(&b[20..24], &0x0218_0014u32.to_le_bytes());
            assert_eq!(&b[24..28], &4u32.to_le_bytes());
            assert_eq!(&b[28..32], &2u32.to_le_bytes());
        }
        other => panic!("unexpected {other:?}"),
    }
    match t.bulk_read(0x82, 1024).unwrap() {
        Transfer::Pattern { width, height, bpp, frame, max_len } => {
            assert_eq!((width, height, bpp, frame, max_len), (4, 2, 3, 0, 1024));
        }
        other => panic!("unexpected {other:?}"),
    }
    match t.bulk_read(0x82, 1024).unwrap() {
        Transfer::Bytes(b) => {
            assert_eq!(b.len(), 28);
            assert_eq!(&b[12..20], &1u64.to_le_bytes());
            assert_eq!(&b[20..28], &24u64.to_le_bytes());
        }
        other => panic!("unexpected {other:?}"),
    }
}

#[test]
fn camera_settings() {
    let cam = FakeU3vCamera::new(640, 480);
    assert_eq!(cam.pixel_format, MONO8);
    let cam = cam.pixel_format(0x0218_0014);
    assert_eq!((cam.width, cam.height, cam.pixel_format), (640, 480, 0x0218_0014));
    assert_eq!(bytes_per_pixel(0x0218_0014), 3);
    assert_eq!(bytes_per_pixel(MONO8), 1);
}
