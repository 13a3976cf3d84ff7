use genicam_rs::builders::{addressing_lengths, AddressingBuilder, BitfieldBuilder, SelectorState};
use genicam_rs::url::{first_cstring, parse_local_url, xml_source, xml_text, UrlLocation};
use genicam_rs::xml_model::{
    build_enum_entry, extract_schema_version, parse_i64, parse_scale, parse_u64, AccessMode,
    Addressing, BitField, ByteOrder, EnumValueSrc, ScaleSpec, SkOutput, XmlError,
};

fn invalid(r: Result<impl std::fmt::Debug, XmlError>) -> String {
    match r {
        Err(XmlError::Invalid(m)) => m,
        other => panic!("unexpected {other:?}"),
    }
}

#[test]
fn numbers_decimal_and_hex() {
    assert_eq!(parse_u64(" 0x1_0000 ").unwrap(), 0x10000);
    assert_eq!(parse_u64("1_000").unwrap(), 1000);
    assert_eq!(parse_i64("-42").unwrap(), -42);
    assert_eq!(parse_i64("0xFF").unwrap(), 255);
    assert_eq!(parse_u64("18446744073709551615").unwrap(), u64::MAX);
}

#[test]
fn number_errors() {
    assert_eq!(invalid(parse_u64("")), "invalid integer: cannot parse integer from empty string");
    assert_eq!(invalid(parse_u64("12a")), "invalid integer: invalid digit found in string");
    assert_eq!(invalid(parse_u64("0xZZ")), "invalid hex value: invalid digit found in string");
    assert_eq!(
        invalid(parse_u64("18446744073709551616")),
        "invalid integer: number too large to fit in target type"
    );
    assert_eq!(
        invalid(parse_i64("-9223372036854775809")),
        "invalid integer: number too small to fit in target type"
    );
}

#[test]
fn scales() {
    assert_eq!(parse_scale(" 3/4 ").unwrap(), ScaleSpec::Ratio(3, 4));
    assert_eq!(parse_scale("0.5").unwrap(), ScaleSpec::Decimal("0.5".to_string()));
    assert_eq!(invalid(parse_scale("  ")), "empty scale value");
    assert_eq!(invalid(parse_scale("1/0")), "scale denominator is zero");
}

#[test]
fn access_modes_and_orders() {
    assert_eq!(AccessMode::parse(" rw ").unwrap(), AccessMode::RW);
    assert_eq!(invalid(AccessMode::parse("xx")), "unknown access mode: XX");
    assert_eq!(ByteOrder::parse("BigEndian"), Some(ByteOrder::Big));
    assert_eq!(ByteOrder::parse("littleendian"), Some(ByteOrder::Little));
    assert_eq!(ByteOrder::parse("middle"), None);
    assert_eq!(SkOutput::parse("Integer"), Some(SkOutput::Integer));
    assert_eq!(SkOutput::parse("x"), None);
}

#[test]
fn enum_entries() {
    let e = build_enum_entry("A".into(), Some(" 10 ".into()), None, None).unwrap();
    assert_eq!(e.value, EnumValueSrc::Literal(10));
    let e = build_enum_entry("B".into(), Some("10".into()), Some(" Reg ".into()), None).unwrap();
    assert_eq!(e.value, EnumValueSrc::FromNode("Reg".into()));
    assert_eq!(
        invalid(build_enum_entry("C".into(), None, Some("  ".into()), None)),
        "EnumEntry C is missing <Value> or <pValue>"
    );
}

#[test]
fn schema_versions() {
    assert_eq!(extract_schema_version(None, None, None), None);
    assert_eq!(
        extract_schema_version(Some("1".into()), None, Some("3".into())),
        Some("1.0.3".to_string())
    );
}

#[test]
fn fixed_and_indirect_addressing() {
    let mut b = AddressingBuilder::default();
    b.attach_selected_address(0x100, None);
    b.apply_length(4);
    assert_eq!(b.finalize("Width", None).unwrap(), Addressing::Fixed { address: 0x100, len: 4 });

    let mut b = AddressingBuilder::default();
    b.set_p_address_node("RegAddr");
    assert_eq!(
        b.finalize("Gain", Some(2)).unwrap(),
        Addressing::Indirect { p_address_node: "RegAddr".into(), len: 2 }
    );

    let b = AddressingBuilder::default();
    assert_eq!(invalid(b.finalize("Gain", None)), "node Gain is missing <Length>");
    let mut b = AddressingBuilder::default();
    b.set_length(4);
    assert_eq!(invalid(b.finalize("Gain", None)), "node Gain is missing <Address>");
}

#[test]
fn selector_addressing() {
    let mut b = AddressingBuilder::default();
    b.register_selector("GainSelector");
    b.register_selector("Other");
    b.set_length(2);
    b.push_selected_value("All".into());
    b.attach_selected_address(0x10, None);
    b.push_selected_value("Red".into());
    b.apply_length(4);
    b.attach_selected_address(0x20, None);
    b.push_selected_value("All".into());
    b.attach_selected_address(0x30, Some(1));
    match b.finalize("Gain", None).unwrap() {
        Addressing::BySelector { selector, map } => {
            assert_eq!(selector, "GainSelector");
            assert_eq!(map, vec![("All".to_string(), (0x30, 1)), ("Red".to_string(), (0x20, 4))]);
            let lengths = addressing_lengths(&Addressing::BySelector { selector, map });
            assert_eq!(lengths, vec![1, 4]);
        }
        other => panic!("unexpected {other:?}"),
    }
}

#[test]
fn selector_addressing_errors() {
    let mut b = AddressingBuilder::default();
    b.push_selected_value("All".into());
    b.attach_selected_address(0x10, None);
    assert_eq!(
        invalid(b.finalize("Gain", Some(4))),
        "node Gain provides <Selected> addresses without <pSelected>"
    );
    let mut b = AddressingBuilder::default();
    b.register_selector("S");
    b.push_selected_value("Red".into());
    b.attach_selected_address(0x10, None);
    assert_eq!(
        invalid(b.finalize("Gain", None)),
        "node Gain is missing <Length> for selector value Red"
    );
}

#[test]
fn bitfield_big_endian_lsb_msb() {
    let mut b = BitfieldBuilder::default();
    b.note_lsb(8);
    b.note_msb(15);
    b.note_byte_order(ByteOrder::Big);
    let f = b.finish("BeBits", &[4]).unwrap().unwrap();
    assert_eq!(f, BitField { bit_offset: 16, bit_length: 8, byte_order: ByteOrder::Big });
}

#[test]
fn bitfield_mask_and_bit() {
    let mut b = BitfieldBuilder::default();
    b.note_mask(0x0F0);
    let f = b.finish("Masked", &[2]).unwrap().unwrap();
    assert_eq!((f.bit_offset, f.bit_length, f.byte_order), (4, 4, ByteOrder::Little));

    let mut b = BitfieldBuilder::default();
    b.note_bit(3);
    b.note_lsb(9);
    let f = b.finish("Flag", &[1]).unwrap().unwrap();
    assert_eq!((f.bit_offset, f.bit_length), (3, 1));

    assert_eq!(BitfieldBuilder::default().finish("None", &[]).unwrap(), None);
}

#[test]
fn bitfield_problems() {
    let mut b = BitfieldBuilder::default();
    b.note_bit(0);
    assert_eq!(invalid(b.finish("N", &[])), "node N is missing register length information");
    let mut b = BitfieldBuilder::default();
    b.note_bit(0);
    assert_eq!(invalid(b.finish("N", &[4, 2])), "node N uses inconsistent register lengths");
    let mut b = BitfieldBuilder::default();
    b.note_bit(0);
    assert_eq!(invalid(b.finish("N", &[0])), "node N declares zero-length register");
    let mut b = BitfieldBuilder::default();
    b.note_lsb(1);
    assert_eq!(invalid(b.finish("N", &[4])), "node N is missing <Msb>");
    let mut b = BitfieldBuilder::default();
    b.note_bit(30);
    b.note_bit_length(4);
    assert_eq!(invalid(b.finish("N", &[4])), "node N bitfield exceeds register width");
    let mut b = BitfieldBuilder::default();
    b.note_mask(0);
    assert_eq!(invalid(b.finish("N", &[4])), "node N mask must be non-zero");
    let mut b = BitfieldBuilder::default();
    b.note_bit(0);
    b.note_bit_length(65);
    assert_eq!(invalid(b.finish("N", &[16])), "node N bitfield length 65 exceeds 64 bits");
}

#[test]
fn selector_state_parts() {
    let mut s = SelectorState::new();
    s.selectors.push("S".into());
    s.selected_if.push(("S".into(), vec!["A".into()]));
    let (sel, gates) = s.into_parts();
    assert_eq!(sel, vec!["S".to_string()]);
    assert_eq!(gates, vec![("S".to_string(), vec!["A".to_string()])]);
}

#[test]
fn first_url_register_text() {
    assert_eq!(first_cstring(b"  local:address=0x10;length=0x3\0junk").as_deref(), Some("local:address=0x10;length=0x3"));
    assert_eq!(first_cstring(b"\0abc"), None);
    assert_eq!(first_cstring(b"   "), None);
}

#[test]
fn local_urls() {
    match parse_local_url("address=0x10;length=0x3").unwrap() {
        UrlLocation::Local { address, length } => assert_eq!((address, length), (0x10, 3)),
        other => panic!("unexpected {other:?}"),
    }
    match parse_local_url(" Offset = 16 , SIZE=4 ").unwrap() {
        UrlLocation::Local { address, length } => assert_eq!((address, length), (16, 4)),
        other => panic!("unexpected {other:?}"),
    }
    match parse_local_url("0x20;length=8").unwrap() {
        UrlLocation::Local { address, length } => assert_eq!((address, length), (0x20, 8)),
        other => panic!("unexpected {other:?}"),
    }
    match parse_local_url("fake.xml;10000;e39").unwrap() {
        UrlLocation::LocalNamed(n) => assert_eq!(n, "fake.xml"),
        other => panic!("unexpected {other:?}"),
    }
    assert_eq!(invalid(parse_local_url("  ")), "empty local URL");
    assert_eq!(invalid(parse_local_url("address=0x10")), "unsupported local URL: address=0x10");
    assert_eq!(invalid(parse_local_url("length=zz")), "invalid integer: invalid digit found in string");
}

#[test]
fn url_schemes() {
    assert!(matches!(UrlLocation::parse("http://cam/x.xml").unwrap(), UrlLocation::Http(u) if u == "http://cam/x.xml"));
    assert!(matches!(UrlLocation::parse("https://cam/x.xml").unwrap(), UrlLocation::Http(_)));
    assert!(matches!(UrlLocation::parse("file:///x.xml").unwrap(), UrlLocation::File(_)));
    match UrlLocation::parse("Local:fake.xml;10000;10") {
        Err(XmlError::Unsupported(m)) => assert_eq!(m, "unknown URL scheme: Local:fake.xml;10000;10"),
        other => panic!("unexpected {other:?}"),
    }
}

#[test]
fn fetch_steps_for_local_xml() {
    let register = b"local:address=0x10;length=0x3\0".to_vec();
    assert_eq!(xml_source(&register).unwrap(), (0x10, 3));
    assert_eq!(xml_text(b"<a/>".to_vec()).unwrap(), "<a/>");
    assert!(matches!(xml_text(vec![0xFF]), Err(XmlError::Xml(m)) if m.starts_with("invalid UTF-8: ")));
    assert_eq!(invalid(xml_source(&[0u8; 8])), "FirstURL register is empty");
    match xml_source(b"local:fake.xml\0") {
        Err(XmlError::Unsupported(m)) => assert_eq!(m, "named local URL 'fake.xml' is not supported"),
        other => panic!("unexpected {other:?}"),
    }
    match xml_source(b"http://x\0") {
        Err(XmlError::Unsupported(m)) => assert_eq!(m, "HTTP retrieval is not implemented (http://x)"),
        other => panic!("unexpected {other:?}"),
    }
}

#[test]
fn parse_u64_reads_back_decimal_and_hex_text() {
    for v in [0u64, 7, 10, 255, 4096, 1 << 40, u64::MAX] {
        assert_eq!(parse_u64(&v.to_string()).unwrap(), v);
        assert_eq!(parse_u64(&format!("0x{v:x}")).unwrap(), v);
    }
}
