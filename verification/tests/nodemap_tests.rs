use std::cell::RefCell;
use std::collections::HashMap;

use genicam_rs::genapi::{bytes_to_i64, i64_to_bytes, GenApiError, RegisterIo};
use genicam_rs::nodemap::{Node, NodeMap};
use genicam_rs::xml_parse::parse;

const FIXTURE: &str = r#"
    <RegisterDescription SchemaMajorVersion="1" SchemaMinorVersion="2" SchemaSubMinorVersion="3">
        <Integer Name="Width">
            <Address>0x100</Address>
            <Length>4</Length>
            <AccessMode>RW</AccessMode>
            <Min>16</Min>
            <Max>4096</Max>
            <Inc>2</Inc>
        </Integer>
        <Float Name="ExposureTime">
            <Address>0x200</Address>
            <Length>4</Length>
            <AccessMode>RW</AccessMode>
            <Min>10.0</Min>
            <Max>100000.0</Max>
            <Scale>1/1000</Scale>
        </Float>
        <Enumeration Name="GainSelector">
            <Address>0x300</Address>
            <Length>2</Length>
            <AccessMode>RW</AccessMode>
            <EnumEntry Name="All" Value="0" />
            <EnumEntry Name="Red" Value="1" />
            <EnumEntry Name="Blue" Value="2" />
        </Enumeration>
        <Integer Name="Gain">
            <Length>2</Length>
            <AccessMode>RW</AccessMode>
            <Min>0</Min>
            <Max>48</Max>
            <pSelected>GainSelector</pSelected>
            <Selected>All</Selected>
            <Address>0x310</Address>
            <Selected>Red</Selected>
            <Address>0x314</Address>
            <Selected>Blue</Selected>
        </Integer>
        <Boolean Name="GammaEnable">
            <Address>0x400</Address>
            <Length>1</Length>
            <AccessMode>RW</AccessMode>
        </Boolean>
        <Command Name="AcquisitionStart">
            <Address>0x500</Address>
            <Length>4</Length>
        </Command>
    </RegisterDescription>
"#;

const INDIRECT_FIXTURE: &str = r#"
    <RegisterDescription SchemaMajorVersion="1" SchemaMinorVersion="0" SchemaSubMinorVersion="0">
        <Integer Name="RegAddr">
            <Address>0x2000</Address>
            <Length>4</Length>
            <AccessMode>RW</AccessMode>
            <Min>0</Min>
            <Max>65535</Max>
        </Integer>
        <Integer Name="Gain">
            <pAddress>RegAddr</pAddress>
            <Length>4</Length>
            <AccessMode>RW</AccessMode>
            <Min>0</Min>
            <Max>255</Max>
        </Integer>
    </RegisterDescription>
"#;

const ENUM_PVALUE_FIXTURE: &str = r#"
    <RegisterDescription SchemaMajorVersion="1" SchemaMinorVersion="0" SchemaSubMinorVersion="0">
        <Enumeration Name="Mode">
            <Address>0x4000</Address>
            <Length>4</Length>
            <AccessMode>RW</AccessMode>
            <EnumEntry Name="Fixed10">
                <Value>10</Value>
            </EnumEntry>
            <EnumEntry Name="DynFromReg">
                <pValue>RegModeVal</pValue>
            </EnumEntry>
        </Enumeration>
        <Integer Name="RegModeVal">
            <Address>0x4100</Address>
            <Length>4</Length>
            <AccessMode>RW</AccessMode>
            <Min>0</Min>
            <Max>65535</Max>
        </Integer>
    </RegisterDescription>
"#;

const BITFIELD_FIXTURE: &str = r#"
    <RegisterDescription SchemaMajorVersion="1" SchemaMinorVersion="0" SchemaSubMinorVersion="0">
        <Integer Name="LeByte">
            <Address>0x5000</Address>
            <Length>4</Length>
            <AccessMode>RW</AccessMode>
            <Min>0</Min>
            <Max>65535</Max>
            <Mask>0x0000FF00</Mask>
        </Integer>
        <Integer Name="BeBits">
            <Address>0x5004</Address>
            <Length>2</Length>
            <AccessMode>RW</AccessMode>
            <Min>0</Min>
            <Max>15</Max>
            <Lsb>13</Lsb>
            <Msb>15</Msb>
            <Endianness>BigEndian</Endianness>
        </Integer>
        <Boolean Name="PackedFlag">
            <Address>0x5006</Address>
            <Length>4</Length>
            <AccessMode>RW</AccessMode>
            <Bit>13</Bit>
        </Boolean>
    </RegisterDescription>
"#;

#[derive(Default)]
struct MockIo {
    regs: RefCell<HashMap<u64, Vec<u8>>>,
    reads: RefCell<HashMap<u64, usize>>,
}

impl MockIo {
    fn with_registers(entries: &[(u64, Vec<u8>)]) -> Self {
        let mut regs = HashMap::new();
        for (addr, data) in entries {
            regs.insert(*addr, data.clone());
        }
        MockIo { regs: RefCell::new(regs), reads: RefCell::new(HashMap::new()) }
    }

    fn read_count(&self, addr: u64) -> usize {
        *self.reads.borrow().get(&addr).unwrap_or(&0)
    }
}

impl RegisterIo for MockIo {
    fn read(&self, addr: u64, len: usize) -> Result<Vec<u8>, GenApiError> {
        let mut reads = self.reads.borrow_mut();
        *reads.entry(addr).or_default() += 1;
        let regs = self.regs.borrow();
        let data = regs
            .get(&addr)
            .ok_or_else(|| GenApiError::Io(format!("read miss at 0x{addr:08X}")))?;
        if data.len() != len {
            return Err(GenApiError::Io(format!(
                "length mismatch at 0x{addr:08X}: expected {len}, have {}",
                data.len()
            )));
        }
        Ok(data.clone())
    }

    fn write(&self, addr: u64, data: &[u8]) -> Result<(), GenApiError> {
        self.regs.borrow_mut().insert(addr, data.to_vec());
        Ok(())
    }
}

fn build(xml: &str) -> NodeMap {
    NodeMap::try_from_xml(parse(xml).expect("parse fixture")).expect("node map")
}

fn build_nodemap() -> NodeMap {
    build(FIXTURE)
}

fn build_indirect_nodemap() -> NodeMap {
    build(INDIRECT_FIXTURE)
}

fn build_enum_pvalue_nodemap() -> NodeMap {
    build(ENUM_PVALUE_FIXTURE)
}

fn build_bitfield_nodemap() -> NodeMap {
    build(BITFIELD_FIXTURE)
}

#[test]
fn integer_roundtrip_and_cache() {
    let mut nodemap = build_nodemap();
    let io = MockIo::with_registers(&[(0x100, vec![0, 0, 4, 0])]);
    let width = nodemap.get_integer("Width", &io).expect("read width");
    assert_eq!(width, 1024);
    assert_eq!(io.read_count(0x100), 1);
    let width_again = nodemap.get_integer("Width", &io).expect("cached width");
    assert_eq!(width_again, 1024);
    assert_eq!(io.read_count(0x100), 1, "cached value should be reused");
    nodemap.set_integer("Width", 1030, &io).expect("write width");
    let width = nodemap.get_integer("Width", &io).expect("read updated width");
    assert_eq!(width, 1030);
    assert_eq!(io.read_count(0x100), 1, "write should update cache");
}

#[test]
fn selector_address_switching() {
    let mut nodemap = build_nodemap();
    let io = MockIo::with_registers(&[
        (0x300, i64_to_bytes("GainSelector", 0, 2).unwrap()),
        (0x310, i64_to_bytes("Gain", 10, 2).unwrap()),
        (0x314, i64_to_bytes("Gain", 24, 2).unwrap()),
    ]);

    let gain_all = nodemap.get_integer("Gain", &io).expect("gain for All");
    assert_eq!(gain_all, 10);
    assert_eq!(io.read_count(0x310), 1);
    assert_eq!(io.read_count(0x314), 0);

    io.write(0x314, &i64_to_bytes("Gain", 32, 2).unwrap()).expect("update red gain");
    nodemap.set_enum("GainSelector", "Red", &io).expect("set selector to red");
    let gain_red = nodemap.get_integer("Gain", &io).expect("gain for Red");
    assert_eq!(gain_red, 32);
    assert_eq!(io.read_count(0x310), 1, "previous address should not be reread");
    assert_eq!(io.read_count(0x314), 1);

    let gain_red_cached = nodemap.get_integer("Gain", &io).expect("cached red");
    assert_eq!(gain_red_cached, 32);
    assert_eq!(io.read_count(0x314), 1, "selector cache should be reused");

    nodemap.set_enum("GainSelector", "Blue", &io).expect("set selector to blue");
    let err = nodemap.get_integer("Gain", &io).unwrap_err();
    match err {
        GenApiError::Unavailable(msg) => {
            assert!(msg.contains("GainSelector=Blue"));
        }
        other => panic!("unexpected error: {other:?}"),
    }
    assert_eq!(io.read_count(0x314), 1, "no read expected for missing mapping");

    io.write(0x310, &i64_to_bytes("Gain", 12, 2).unwrap()).expect("update all gain");
    nodemap.set_enum("GainSelector", "All", &io).expect("restore selector to all");
    let gain_all_updated = nodemap.get_integer("Gain", &io).expect("gain for All again");
    assert_eq!(gain_all_updated, 12);
    assert_eq!(io.read_count(0x310), 2, "address switch should invalidate cache");
}

#[test]
fn range_enforcement() {
    let mut nodemap = build_nodemap();
    let io = MockIo::with_registers(&[(0x100, vec![0, 0, 0, 16])]);
    let err = nodemap.set_integer("Width", 17, &io).unwrap_err();
    assert!(matches!(err, GenApiError::Range(_)));
}

#[test]
fn command_exec() {
    let mut nodemap = build_nodemap();
    let io = MockIo::with_registers(&[]);
    nodemap.exec_command("AcquisitionStart", &io).expect("exec command");
    let payload = io.read(0x500, 4).expect("command write");
    assert_eq!(payload, vec![0, 0, 0, 1]);
}

#[test]
fn indirect_address_resolution() {
    let mut nodemap = build_indirect_nodemap();
    let io = MockIo::with_registers(&[
        (0x2000, i64_to_bytes("RegAddr", 0x3000, 4).unwrap()),
        (0x3000, i64_to_bytes("Gain", 123, 4).unwrap()),
        (0x3100, i64_to_bytes("Gain", 77, 4).unwrap()),
    ]);

    let initial = nodemap.get_integer("Gain", &io).expect("read gain");
    assert_eq!(initial, 123);
    assert_eq!(io.read_count(0x2000), 1);
    assert_eq!(io.read_count(0x3000), 1);

    nodemap.set_integer("RegAddr", 0x3100, &io).expect("set indirect address");
    let updated = nodemap.get_integer("Gain", &io).expect("read gain after change");
    assert_eq!(updated, 77);
    assert_eq!(io.read_count(0x2000), 1);
    assert_eq!(io.read_count(0x3000), 1);
    assert_eq!(io.read_count(0x3100), 1);
}

#[test]
fn indirect_bad_address() {
    let mut nodemap = build_indirect_nodemap();
    let io = MockIo::with_registers(&[(0x2000, vec![0, 0, 0, 0])]);

    nodemap.set_integer("RegAddr", 0, &io).expect("write zero address");
    let err = nodemap.get_integer("Gain", &io).unwrap_err();
    match err {
        GenApiError::BadIndirectAddress { name, addr } => {
            assert_eq!(name, "Gain");
            assert_eq!(addr, 0);
        }
        other => panic!("unexpected error: {other:?}"),
    }
    assert_eq!(io.read_count(0x2000), 0);
}

#[test]
fn enum_literal_entry_read() {
    let mut nodemap = build_enum_pvalue_nodemap();
    let io = MockIo::with_registers(&[
        (0x4000, i64_to_bytes("Mode", 10, 4).unwrap()),
        (0x4100, i64_to_bytes("RegModeVal", 42, 4).unwrap()),
    ]);

    let value = nodemap.get_enum("Mode", &io).expect("read mode");
    assert_eq!(value, "Fixed10");
    assert_eq!(io.read_count(0x4100), 1, "provider should be read once for mapping");
}

#[test]
fn enum_provider_entry_read() {
    let mut nodemap = build_enum_pvalue_nodemap();
    let io = MockIo::with_registers(&[
        (0x4000, i64_to_bytes("Mode", 42, 4).unwrap()),
        (0x4100, i64_to_bytes("RegModeVal", 42, 4).unwrap()),
    ]);

    let value = nodemap.get_enum("Mode", &io).expect("read dynamic mode");
    assert_eq!(value, "DynFromReg");
    assert_eq!(io.read_count(0x4100), 1);
}

#[test]
fn enum_set_uses_provider_value() {
    let mut nodemap = build_enum_pvalue_nodemap();
    let io = MockIo::with_registers(&[
        (0x4000, i64_to_bytes("Mode", 0, 4).unwrap()),
        (0x4100, i64_to_bytes("RegModeVal", 42, 4).unwrap()),
    ]);

    nodemap.set_enum("Mode", "DynFromReg", &io).expect("write enum");
    let raw = bytes_to_i64("Mode", &io.read(0x4000, 4).unwrap()).unwrap();
    assert_eq!(raw, 42);
    assert_eq!(io.read_count(0x4100), 1);
}

#[test]
fn enum_provider_update_invalidates_mapping() {
    let mut nodemap = build_enum_pvalue_nodemap();
    let io = MockIo::with_registers(&[
        (0x4000, i64_to_bytes("Mode", 42, 4).unwrap()),
        (0x4100, i64_to_bytes("RegModeVal", 42, 4).unwrap()),
    ]);

    assert_eq!(nodemap.get_enum("Mode", &io).unwrap(), "DynFromReg");
    assert_eq!(io.read_count(0x4100), 1);

    nodemap.set_integer("RegModeVal", 17, &io).expect("update provider");
    io.write(0x4000, &i64_to_bytes("Mode", 0, 4).unwrap()).expect("reset mode register");

    nodemap.set_enum("Mode", "DynFromReg", &io).expect("write enum after provider change");
    let raw = bytes_to_i64("Mode", &io.read(0x4000, 4).unwrap()).unwrap();
    assert_eq!(raw, 17);
}

#[test]
fn enum_unknown_value_error() {
    let mut nodemap = build_enum_pvalue_nodemap();
    let io = MockIo::with_registers(&[
        (0x4000, i64_to_bytes("Mode", 99, 4).unwrap()),
        (0x4100, i64_to_bytes("RegModeVal", 42, 4).unwrap()),
    ]);

    let err = nodemap.get_enum("Mode", &io).unwrap_err();
    match err {
        GenApiError::EnumValueUnknown { node, value } => {
            assert_eq!(node, "Mode");
            assert_eq!(value, 99);
        }
        other => panic!("unexpected error: {other:?}"),
    }
}

#[test]
fn enum_entries_are_sorted() {
    let nodemap = build_enum_pvalue_nodemap();
    let entries = nodemap.enum_entries("Mode").expect("entries");
    assert_eq!(entries, vec!["DynFromReg".to_string(), "Fixed10".to_string()]);
}

#[test]
fn bitfield_le_integer_roundtrip() {
    let mut nodemap = build_bitfield_nodemap();
    let io = MockIo::with_registers(&[(0x5000, vec![0xAA, 0xBB, 0xCC, 0xDD])]);

    let value = nodemap.get_integer("LeByte", &io).expect("read little-endian field");
    assert_eq!(value, 0xBB);

    nodemap.set_integer("LeByte", 0x55, &io).expect("write little-endian field");
    let data = io.read(0x5000, 4).expect("read back register");
    assert_eq!(data, vec![0xAA, 0x55, 0xCC, 0xDD]);
}

#[test]
fn bitfield_be_integer_roundtrip() {
    let mut nodemap = build_bitfield_nodemap();
    let io = MockIo::with_registers(&[(0x5004, vec![0b1010_0000, 0b0000_0000])]);

    let value = nodemap.get_integer("BeBits", &io).expect("read big-endian bits");
    assert_eq!(value, 0b101);

    nodemap.set_integer("BeBits", 0b010, &io).expect("write big-endian bits");
    let data = io.read(0x5004, 2).expect("read back register");
    assert_eq!(data, vec![0b0100_0000, 0b0000_0000]);
}

#[test]
fn bitfield_boolean_toggle() {
    let mut nodemap = build_bitfield_nodemap();
    let io = MockIo::with_registers(&[(0x5006, vec![0x00, 0x20, 0x00, 0x00])]);

    assert!(nodemap.get_bool("PackedFlag", &io).expect("read flag"));

    nodemap.set_bool("PackedFlag", false, &io).expect("clear flag");
    let data = io.read(0x5006, 4).expect("read cleared");
    assert_eq!(data, vec![0x00, 0x00, 0x00, 0x00]);

    nodemap.set_bool("PackedFlag", true, &io).expect("set flag");
    let data = io.read(0x5006, 4).expect("read set");
    assert_eq!(data, vec![0x00, 0x20, 0x00, 0x00]);
}

#[test]
fn bitfield_value_too_wide() {
    let mut nodemap = build_bitfield_nodemap();
    let io = MockIo::with_registers(&[(0x5004, vec![0x00, 0x00])]);

    let err = nodemap.set_integer("BeBits", 8, &io).expect_err("value too wide");
    match err {
        GenApiError::ValueTooWide { name, bit_length, .. } => {
            assert_eq!(name, "BeBits");
            assert_eq!(bit_length, 3);
        }
        other => panic!("unexpected error: {other:?}"),
    }
}

#[test]
fn nodemap_lookup_errors_and_version() {
    let mut nodemap = build_nodemap();
    let io = MockIo::with_registers(&[]);
    assert_eq!(nodemap.version(), "1.2.3");
    assert!(matches!(nodemap.get_integer("Nope", &io), Err(GenApiError::NodeNotFound(n)) if n == "Nope"));
    assert!(matches!(nodemap.get_integer("GainSelector", &io), Err(GenApiError::Type(n)) if n == "GainSelector"));
    assert!(matches!(nodemap.node("AcquisitionStart"), Some(Node::Command(_))));
    assert!(nodemap.node("Missing").is_none());
    assert!(matches!(nodemap.enum_entries("Width"), Err(GenApiError::Type(_))));
}

#[test]
fn nodemap_boolean_default_bit_and_float_raw() {
    let mut nodemap = build_nodemap();
    let io = MockIo::with_registers(&[(0x400, vec![1]), (0x200, i64_to_bytes("ExposureTime", 50_000, 4).unwrap())]);
    assert!(nodemap.get_bool("GammaEnable", &io).expect("gamma"));
    nodemap.set_bool("GammaEnable", false, &io).expect("clear gamma");
    assert_eq!(io.read(0x400, 1).unwrap(), vec![0]);
    assert_eq!(nodemap.get_float_raw("ExposureTime", &io).expect("raw exposure"), 50_000);
    nodemap.set_float_raw("ExposureTime", Ok(75_000), &io).expect("write raw exposure");
    assert_eq!(bytes_to_i64("ExposureTime", &io.read(0x200, 4).unwrap()).unwrap(), 75_000);
    assert_eq!(nodemap.get_float_raw("ExposureTime", &io).expect("cached raw exposure"), 75_000);
}

#[test]
fn nodemap_dependents_follow_selectors_and_providers() {
    let nodemap = build_nodemap();
    let deps: Vec<(String, Vec<String>)> = nodemap.dependents.clone();
    let gain_deps = deps.iter().find(|(k, _)| k == "GainSelector").map(|(_, v)| v.clone());
    assert_eq!(gain_deps, Some(vec!["Gain".to_string(), "Gain".to_string()]));
    let pmap = build_enum_pvalue_nodemap();
    let provider_deps = pmap.dependents.iter().find(|(k, _)| k == "RegModeVal").map(|(_, v)| v.clone());
    assert_eq!(provider_deps, Some(vec!["Mode".to_string()]));
    match pmap.node("Mode") {
        Some(Node::Enum(e)) => assert_eq!(e.providers, vec!["RegModeVal".to_string()]),
        other => panic!("unexpected node {other:?}"),
    }
}

#[test]
fn cached_fixed_value_is_returned_without_a_read() {
    let mut nodemap = build_nodemap();
    let io = MockIo::with_registers(&[(0x100, vec![0, 0, 4, 0])]);
    nodemap.set_integer("Width", 1030, &io).expect("write width");
    // The register now holds the written bytes, and the value is cached.
    assert_eq!(io.regs.borrow().get(&0x100).cloned(), Some(vec![0, 0, 4, 6]));
    assert_eq!(nodemap.get_integer("Width", &io).expect("cached width"), 1030);
    assert_eq!(io.read_count(0x100), 0);
}

#[test]
fn cached_zero_indirect_address_is_refused_without_a_read() {
    let mut nodemap = build_indirect_nodemap();
    let io = MockIo::with_registers(&[(0x2000, vec![0, 0, 0, 0])]);
    nodemap.set_integer("RegAddr", 0, &io).expect("write address");
    match nodemap.get_integer("Gain", &io) {
        Err(GenApiError::BadIndirectAddress { name, addr }) => {
            assert_eq!(name, "Gain");
            assert_eq!(addr, 0);
        }
        other => panic!("unexpected result: {other:?}"),
    }
    assert_eq!(io.read_count(0x2000), 0);
}
