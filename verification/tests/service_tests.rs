use genicam_rs::gvcp::DeviceInfo;
use genicam_rs::service::{
    acquisition_step, derive_device_id, lost_devices, set_reply, set_request_step, strip_quotes, AcquisitionCommand,
    AcquisitionStep, SetStep,
};

#[test]
fn device_id_from_mac() {
    let info = DeviceInfo {
        ip: [10, 0, 0, 2],
        mac: [0xDE, 0xAD, 0xBE, 0xEF, 0x0A, 0x01],
        model: None,
        manufacturer: None,
    };
    assert_eq!(derive_device_id(&info), "cam-deadbeef0a01");
}

#[test]
fn acquisition_requests() {
    assert!(matches!(acquisition_step(false, AcquisitionCommand::Start), AcquisitionStep::StartStream));
    assert!(matches!(acquisition_step(true, AcquisitionCommand::Stop), AcquisitionStep::StopStream));
    match acquisition_step(true, AcquisitionCommand::Start) {
        AcquisitionStep::Refuse(m) => assert_eq!(m, "acquisition already active"),
        other => panic!("unexpected {other:?}"),
    }
    match acquisition_step(false, AcquisitionCommand::Stop) {
        AcquisitionStep::Refuse(m) => assert_eq!(m, "acquisition not active"),
        other => panic!("unexpected {other:?}"),
    }
}

#[test]
fn quotes_are_stripped() {
    assert_eq!(strip_quotes("\"Mono8\""), "Mono8");
    assert_eq!(strip_quotes("42"), "42");
    assert_eq!(strip_quotes("\"\"a\"b\"\""), "a\"b");
    assert_eq!(strip_quotes("\"\"\""), "");
    assert_eq!(strip_quotes(""), "");
    assert_eq!(strip_quotes("\"é\""), "é");
}

#[test]
fn lost_devices_after_a_round() {
    let active = vec!["cam-a".to_string(), "cam-b".to_string(), "cam-c".to_string()];
    let found = vec!["cam-b".to_string(), "cam-d".to_string()];
    assert_eq!(lost_devices(&active, &found), vec!["cam-a".to_string(), "cam-c".to_string()]);
    assert!(lost_devices(&active, &[].to_vec()).is_empty());
    assert!(lost_devices(&[].to_vec(), &found).is_empty());
}

#[test]
fn set_request_steps() {
    match set_request_step("", Some(Ok("1".to_string()))) {
        SetStep::Refuse(m) => assert_eq!(m, "missing node name"),
        other => panic!("unexpected {other:?}"),
    }
    match set_request_step("Gain", None) {
        SetStep::Refuse(m) => assert_eq!(m, "missing payload"),
        other => panic!("unexpected {other:?}"),
    }
    match set_request_step("Gain", Some(Err("expected value".to_string()))) {
        SetStep::Refuse(m) => assert_eq!(m, "invalid payload: expected value"),
        other => panic!("unexpected {other:?}"),
    }
    match set_request_step("PixelFormat", Some(Ok("\"Mono8\"".to_string()))) {
        SetStep::Write { name, value } => {
            assert_eq!(name, "PixelFormat");
            assert_eq!(value, "Mono8");
        }
        other => panic!("unexpected {other:?}"),
    }
    let ok = set_reply(Ok(()));
    assert!(ok.ok && ok.error.is_none());
    let bad = set_reply(Err("node not found: X".to_string()));
    assert!(!bad.ok);
    assert_eq!(bad.error.as_deref(), Some("node not found: X"));
}
