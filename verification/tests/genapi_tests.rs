use genicam_rs::genapi::{
    bytes_to_i64, encode_bitfield_value, ensure_readable, ensure_writable, get_raw_or_read,
    i64_to_bytes, interpret_bitfield_value, map_bitops_error, mask_u128,
    register_addressing_dependency, sign_extend, BitOpsError, Cache, EnumNode, GenApiError,
    RegisterIo,
};
use genicam_rs::xml_model::{AccessMode, Addressing};

#[test]
fn be_bytes_decode_signed() {
    assert_eq!(bytes_to_i64("W", &[0x01, 0x00]).unwrap(), 256);
    assert_eq!(bytes_to_i64("W", &[0xFF]).unwrap(), -1);
    assert_eq!(bytes_to_i64("W", &[0x80, 0, 0, 0, 0, 0, 0, 0]).unwrap(), i64::MIN);
    assert_eq!(bytes_to_i64("W", &[0x7F, 0xFF, 0xFF, 0xFF]).unwrap(), 0x7FFF_FFFF);
}

#[test]
fn be_bytes_decode_errors() {
    match bytes_to_i64("Width", &[]) {
        Err(GenApiError::Parse(m)) => assert_eq!(m, "node Width returned empty payload"),
        other => panic!("unexpected {other:?}"),
    }
    match bytes_to_i64("Width", &[0; 9]) {
        Err(GenApiError::Parse(m)) => assert_eq!(m, "node Width uses unsupported width 9"),
        other => panic!("unexpected {other:?}"),
    }
}

#[test]
fn i64_encoding_roundtrip() {
    for (v, w) in [(0i64, 1u32), (-1, 1), (127, 1), (-128, 1), (1024, 4), (i64::MIN, 8), (i64::MAX, 8)] {
        let b = i64_to_bytes("N", v, w).unwrap();
        assert_eq!(b.len(), w as usize);
        assert_eq!(bytes_to_i64("N", &b).unwrap(), v);
    }
    assert_eq!(i64_to_bytes("N", -2, 2).unwrap(), vec![0xFF, 0xFE]);
}

#[test]
fn i64_encoding_errors() {
    match i64_to_bytes("Gain", 128, 1) {
        Err(GenApiError::Range(m)) => assert_eq!(m, "value 128 does not fit 1 bytes for Gain"),
        other => panic!("unexpected {other:?}"),
    }
    match i64_to_bytes("Gain", -129, 1) {
        Err(GenApiError::Range(m)) => assert_eq!(m, "value -129 does not fit 1 bytes for Gain"),
        other => panic!("unexpected {other:?}"),
    }
    match i64_to_bytes("Gain", 1, 0) {
        Err(GenApiError::Parse(m)) => assert_eq!(m, "node Gain has unsupported width 0"),
        other => panic!("unexpected {other:?}"),
    }
    assert!(matches!(i64_to_bytes("Gain", 1, 9), Err(GenApiError::Parse(_))));
}

#[test]
fn bitfield_roundtrip() {
    for bits in [1u16, 3, 8, 16, 63, 64] {
        for v in [0i64, 1, -1] {
            let signed = true;
            if let Ok(raw) = encode_bitfield_value("F", v, bits, signed) {
                assert_eq!(interpret_bitfield_value("F", raw, bits, signed).unwrap(), v);
            }
        }
    }
    let raw = encode_bitfield_value("F", -3, 4, true).unwrap();
    assert_eq!(raw, 0b1101);
    assert_eq!(sign_extend(raw, 4), -3);
    assert_eq!(encode_bitfield_value("F", 15, 4, false).unwrap(), 15);
    assert_eq!(interpret_bitfield_value("F", 15, 4, false).unwrap(), 15);
}

#[test]
fn bitfield_errors() {
    match encode_bitfield_value("F", 16, 4, false) {
        Err(GenApiError::ValueTooWide { name, value, bit_length }) => {
            assert_eq!((name.as_str(), value, bit_length), ("F", 16, 4));
        }
        other => panic!("unexpected {other:?}"),
    }
    assert!(matches!(encode_bitfield_value("F", -1, 4, false), Err(GenApiError::ValueTooWide { .. })));
    assert!(matches!(encode_bitfield_value("F", 8, 4, true), Err(GenApiError::ValueTooWide { .. })));
    assert!(matches!(encode_bitfield_value("F", -9, 4, true), Err(GenApiError::ValueTooWide { .. })));
    match encode_bitfield_value("F", 0, 65, false) {
        Err(GenApiError::Parse(m)) => assert_eq!(m, "node F uses unsupported bitfield width 65"),
        other => panic!("unexpected {other:?}"),
    }
    match interpret_bitfield_value("F", u64::MAX, 64, false) {
        Err(GenApiError::Parse(m)) => {
            assert_eq!(m, "bitfield value 18446744073709551615 exceeds i64 range for node F")
        }
        other => panic!("unexpected {other:?}"),
    }
}

#[test]
fn masks_and_sign_extension() {
    assert_eq!(mask_u128(1), 1);
    assert_eq!(mask_u128(12), 0xFFF);
    assert_eq!(mask_u128(64), u64::MAX as u128);
    assert_eq!(sign_extend(0xFF, 8), -1);
    assert_eq!(sign_extend(0x7F, 8), 127);
    assert_eq!(sign_extend(0x1_80, 8), -128);
    assert_eq!(sign_extend(u64::MAX, 64), -1);
}

#[test]
fn access_checks() {
    assert!(ensure_readable(&AccessMode::RO, "A").is_ok());
    assert!(matches!(ensure_readable(&AccessMode::WO, "A"), Err(GenApiError::Access(n)) if n == "A"));
    assert!(ensure_writable(&AccessMode::WO, "A").is_ok());
    assert!(matches!(ensure_writable(&AccessMode::RO, "A"), Err(GenApiError::Access(n)) if n == "A"));
}

#[test]
fn bitops_errors_are_mapped() {
    match map_bitops_error("N", BitOpsError::UnsupportedWidth { len: 9 }) {
        GenApiError::Parse(m) => assert_eq!(m, "node N uses unsupported register width 9"),
        other => panic!("unexpected {other:?}"),
    }
    match map_bitops_error("N", BitOpsError::UnsupportedLength { bit_length: 70 }) {
        GenApiError::Parse(m) => assert_eq!(m, "node N uses unsupported bitfield length 70"),
        other => panic!("unexpected {other:?}"),
    }
    match map_bitops_error("N", BitOpsError::ValueTooWide { bit_length: 3, value: u64::MAX }) {
        GenApiError::ValueTooWide { value, bit_length, .. } => {
            assert_eq!((value, bit_length), (i64::MAX, 3))
        }
        other => panic!("unexpected {other:?}"),
    }
    match map_bitops_error("N", BitOpsError::OutOfRange { len: 4, bit_offset: 30, bit_length: 8 }) {
        GenApiError::BitfieldOutOfRange { name, bit_offset, bit_length, len } => {
            assert_eq!((name.as_str(), bit_offset, bit_length, len), ("N", 30, 8, 4))
        }
        other => panic!("unexpected {other:?}"),
    }
}

#[test]
fn dependencies_follow_addressing() {
    let mut deps: Vec<(String, Vec<String>)> = Vec::new();
    register_addressing_dependency(&mut deps, "Width", &Addressing::Fixed { address: 0, len: 4 });
    assert!(deps.is_empty());
    let by_sel = Addressing::BySelector { selector: "GainSelector".into(), map: Vec::new() };
    register_addressing_dependency(&mut deps, "Gain", &by_sel);
    register_addressing_dependency(&mut deps, "BlackLevel", &by_sel);
    let ind = Addressing::Indirect { p_address_node: "RegAddr".into(), len: 4 };
    register_addressing_dependency(&mut deps, "Value", &ind);
    assert_eq!(
        deps,
        vec![
            ("GainSelector".to_string(), vec!["Gain".to_string(), "BlackLevel".to_string()]),
            ("RegAddr".to_string(), vec!["Value".to_string()]),
        ]
    );
}

struct Counting {
    reads: std::cell::Cell<usize>,
}

impl RegisterIo for Counting {
    fn read(&self, _addr: u64, len: usize) -> Result<Vec<u8>, GenApiError> {
        self.reads.set(self.reads.get() + 1);
        Ok(vec![7; len])
    }
    fn write(&self, _addr: u64, _data: &[u8]) -> Result<(), GenApiError> {
        Ok(())
    }
}

#[test]
fn raw_cache_is_used_when_it_fits() {
    let io = Counting { reads: std::cell::Cell::new(0) };
    let mut cache = Cache::empty();
    assert_eq!(get_raw_or_read(&cache, &io, 0, 2).unwrap(), vec![7, 7]);
    assert_eq!(io.reads.get(), 1);
    cache.store(vec![1, 2]);
    assert_eq!(get_raw_or_read(&cache, &io, 0, 2).unwrap(), vec![1, 2]);
    assert_eq!(io.reads.get(), 1);
    assert_eq!(get_raw_or_read(&cache, &io, 0, 3).unwrap(), vec![7, 7, 7]);
    assert_eq!(io.reads.get(), 2);
}

#[test]
fn enum_invalidation_clears_caches() {
    let mut node = EnumNode::new(
        "Mode".into(),
        Addressing::Fixed { address: 0x10, len: 4 },
        AccessMode::RW,
        Vec::new(),
        None,
        Vec::new(),
        Vec::new(),
        Vec::new(),
    );
    node.value_cache.store("Fixed10".into());
    node.invalidate();
    assert!(node.value_cache.get().is_none());
    assert!(node.mapping_cache.get().is_none());
    assert_eq!(node.name, "Mode");
}
