use genicam_rs::fake_gige::RegisterMap;
use genicam_rs::fake_gvcp::{
    build_ack, build_discovery_ack, check_acquisition, handle_packet, handle_readmem,
    handle_readreg, handle_writemem, handle_writereg, put_fixed_string, AcqSignal,
};
use genicam_rs::gvcp::{
    ack_event, parse_ack, parse_discovery_ack, read_mem_ack_data, read_mem_payloads, transact_step,
    write_mem_payloads, check_write_ack, CommandFlags, GvcpRequestHeader, TransactAction,
};

fn command(cmd: u16, request_id: u16, payload: &[u8]) -> Vec<u8> {
    let mut p = vec![0x42, 0x01];
    p.extend_from_slice(&cmd.to_be_bytes());
    p.extend_from_slice(&(payload.len() as u16).to_be_bytes());
    p.extend_from_slice(&request_id.to_be_bytes());
    p.extend_from_slice(payload);
    p
}

#[test]
fn fixed_strings_are_cut_or_padded() {
    let mut buf = vec![9u8];
    put_fixed_string(&mut buf, "abc", 5);
    assert_eq!(buf, vec![9, b'a', b'b', b'c', 0, 0]);
    let mut buf = Vec::new();
    put_fixed_string(&mut buf, "abcdef", 4);
    assert_eq!(buf, b"abcd".to_vec());
}

#[test]
fn ack_layout() {
    assert_eq!(build_ack(0x0087, 0x1234, &[1, 2]), vec![0, 0, 0, 0x87, 0, 2, 0x12, 0x34, 1, 2]);
}

#[test]
fn discovery_ack_is_understood_by_the_client() {
    let ack = build_discovery_ack(7, [192, 168, 1, 20]);
    assert_eq!(ack.len(), 256);
    let info = parse_discovery_ack(&ack, 7).unwrap().unwrap();
    assert_eq!(info.ip, [192, 168, 1, 20]);
    assert_eq!(info.mac, [0xDE, 0xAD, 0xBE, 0xEF, 0xCA, 0xFE]);
    assert_eq!(info.manufacturer.as_deref(), Some("genicam-rs"));
    assert_eq!(info.model.as_deref(), Some("FakeGigE"));
}

#[test]
fn acquisition_signals() {
    assert_eq!(check_acquisition(0x20020, &[0, 0, 0, 1]), Some(AcqSignal::Start));
    assert_eq!(check_acquisition(0x20024, &[0, 0, 0, 1]), Some(AcqSignal::Stop));
    assert_eq!(check_acquisition(0x20020, &[0, 0, 0, 0]), None);
    assert_eq!(check_acquisition(0x20020, &[1, 1]), None);
    assert_eq!(check_acquisition(0x20000, &[0, 0, 0, 1]), None);
}

#[test]
fn register_commands() {
    let mut regs = RegisterMap::new(640, 480);
    let ack = handle_readreg(&regs, 3, &[0, 2, 0, 0, 0, 2, 0, 4]).unwrap();
    assert_eq!(&ack[..8], &[0, 0, 0, 0x81, 0, 8, 0, 3]);
    assert_eq!(&ack[8..], &[0, 0, 2, 128, 0, 0, 1, 224]);
    assert!(handle_readreg(&regs, 3, &[0, 2, 0]).is_none());
    let (ack, signals) =
        handle_writereg(&mut regs, 4, &[0, 2, 0, 0, 0, 0, 1, 0, 0, 2, 0, 0x20, 0, 0, 0, 1]).unwrap();
    assert_eq!(ack, vec![0, 0, 0, 0x83, 0, 4, 0, 4, 0, 0, 0, 0]);
    assert_eq!(signals, vec![AcqSignal::Start]);
    assert_eq!(regs.width(), 256);
    assert!(handle_writereg(&mut regs, 4, &[0; 12]).is_none());
}

#[test]
fn memory_commands_write_then_read() {
    let mut regs = RegisterMap::new(64, 48);
    let (ack, signal) = handle_writemem(&mut regs, 5, &[0, 3, 0, 0, 0xAA, 0xBB, 0xCC]).unwrap();
    assert_eq!(ack, vec![0, 0, 0, 0x87, 0, 4, 0, 5, 0, 3, 0, 0]);
    assert_eq!(signal, None);
    let ack = handle_readmem(&regs, 6, &[0, 3, 0, 0, 0, 0, 0, 3]).unwrap();
    assert_eq!(ack, vec![0, 0, 0, 0x85, 0, 7, 0, 6, 0, 3, 0, 0, 0xAA, 0xBB, 0xCC]);
    assert!(handle_readmem(&regs, 6, &[0; 7]).is_none());
    assert!(handle_writemem(&mut regs, 6, &[0; 3]).is_none());
    assert_eq!(regs.stream_dest_ip(), [0, 0, 0, 0]);
    handle_writemem(&mut regs, 7, &[0, 0, 0x0d, 0x18, 192, 168, 0, 7]).unwrap();
    assert_eq!(regs.stream_dest_ip(), [192, 168, 0, 7]);
}

#[test]
fn packets_are_dispatched() {
    let mut regs = RegisterMap::new(64, 48);
    let reply = handle_packet(&mut regs, &command(0x0002, 9, &[]), [10, 0, 0, 2]);
    let ack = reply.response.unwrap();
    assert_eq!(&ack[..8], &[0, 0, 0, 3, 0, 248, 0, 9]);
    let reply = handle_packet(&mut regs, &command(0x0086, 10, &[0, 2, 0, 0x24, 0, 0, 0, 1]), [10, 0, 0, 2]);
    assert_eq!(reply.signals, vec![AcqSignal::Stop]);
    assert!(reply.response.is_some());
    assert!(handle_packet(&mut regs, &[0x41, 0, 0, 2, 0, 0, 0, 1], [10, 0, 0, 2]).response.is_none());
    assert!(handle_packet(&mut regs, &command(0x0099, 1, &[]), [10, 0, 0, 2]).response.is_none());
    assert!(handle_packet(&mut regs, &[0x42, 0, 0], [10, 0, 0, 2]).response.is_none());
}

fn exchange(regs: &mut RegisterMap, command: u16, request_id: u16, payload: &[u8]) -> Vec<u8> {
    let header = GvcpRequestHeader {
        flags: CommandFlags { ack_required: true, broadcast: false },
        command,
        length: payload.len() as u16,
        request_id,
    };
    let reply = handle_packet(regs, &header.encode(payload), [127, 0, 0, 1]);
    let ack = reply.response.expect("acknowledge");
    let (h, p) = parse_ack(&ack).expect("header");
    assert!(matches!(transact_step(1, request_id, ack_event(&h, request_id, command)), TransactAction::Accept));
    p
}

#[test]
fn client_and_camera_agree_on_memory() {
    let mut regs = RegisterMap::new(640, 480);
    let data: Vec<u8> = (0..700u32).map(|i| (i * 7 % 256) as u8).collect();
    for (k, payload) in write_mem_payloads(0x40_0000, &data).iter().enumerate() {
        let ack = exchange(&mut regs, 0x0086, 10 + k as u16, payload);
        assert!(check_write_ack(&ack).is_ok());
    }
    let mut back = Vec::new();
    let mut remaining = data.len();
    for (k, payload) in read_mem_payloads(0x40_0000, data.len()).iter().enumerate() {
        let chunk = remaining.min(512);
        let ack = exchange(&mut regs, 0x0084, 20 + k as u16, payload);
        back.extend(read_mem_ack_data(&ack, chunk).unwrap());
        remaining -= chunk;
    }
    assert_eq!(back[..508], data[..508]);
    assert_eq!(back[512..], data[512..]);
    let width = exchange(&mut regs, 0x0084, 30, &[0, 2, 0, 0, 0, 0, 0, 4]);
    assert_eq!(read_mem_ack_data(&width, 4).unwrap(), vec![0, 0, 2, 128]);
}
