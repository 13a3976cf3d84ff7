//! A simulated USB3 Vision camera: its byte-addressed register space, the GenApi description
//! it serves, and the GenCP command handling and stream transfers of its transport.
use vstd::prelude::*;
use vstd::string::StringSliceAdditionalSpecFns;
use crate::fake_gige::{cover_index, covers, exact_index, lemma_cover_index, lemma_cover_index_is,
    lemma_exact_index, lemma_exact_index_is, regs_of};
use crate::wire::{be_bytes, be_decode, be_encode, be_value, le_bytes, le_decode, le_value, put_le};

verus! {

/// Width feature register.
pub const REG_WIDTH: u64 = 0x20000;
/// Height feature register.
pub const REG_HEIGHT: u64 = 0x20004;
/// Pixel format feature register.
pub const REG_PIXEL_FORMAT: u64 = 0x20008;
/// Sensor width register.
pub const REG_SENSOR_WIDTH: u64 = 0x20014;
/// Sensor height register.
pub const REG_SENSOR_HEIGHT: u64 = 0x20018;
/// Acquisition mode register.
pub const REG_ACQ_MODE: u64 = 0x20020;
/// Acquisition start command register.
pub const REG_ACQ_START: u64 = 0x20024;
/// Acquisition stop command register.
pub const REG_ACQ_STOP: u64 = 0x20028;
/// Acquisition frame rate register (an IEEE 754 single).
pub const REG_ACQ_FRAME_RATE: u64 = 0x2002c;
/// Exposure time register (an IEEE 754 double).
pub const REG_EXPOSURE_TIME: u64 = 0x20030;
/// Device model name register.
pub const REG_DEVICE_MODEL: u64 = 0x20200;
/// Device vendor name register.
pub const REG_DEVICE_VENDOR: u64 = 0x20220;
/// XML blob address in the register space.
pub const XML_BLOB_BASE: u64 = 0x1_0000;
/// ABRM: GenCP version.
pub const ABRM_GENCP_VERSION: u64 = 0x0000;
/// ABRM: manufacturer name.
pub const ABRM_MANUFACTURER: u64 = 0x0048;
/// ABRM: model name.
pub const ABRM_MODEL: u64 = 0x0088;
/// ABRM: family name.
pub const ABRM_FAMILY: u64 = 0x00C8;
/// ABRM: device version.
pub const ABRM_DEVICE_VERSION: u64 = 0x0108;
/// ABRM: serial number.
pub const ABRM_SERIAL: u64 = 0x01A8;
/// ABRM: user-defined name.
pub const ABRM_USER_NAME: u64 = 0x01E8;
/// ABRM: manifest table address.
pub const ABRM_MANIFEST_TABLE: u64 = 0x0228;
/// ABRM: SBRM address.
pub const ABRM_SBRM_ADDRESS: u64 = 0x0230;
/// ABRM: device capability.
pub const ABRM_DEVICE_CAPABILITY: u64 = 0x0238;
/// SBRM address.
pub const SBRM_BASE: u64 = 0x1_0000_0000;
/// SIRM address.
pub const SIRM_BASE: u64 = 0x2_0000_0000;
/// Manifest table address.
pub const MANIFEST_TABLE: u64 = 0x3_0000_0000;
/// Pixel format code of 8-bit monochrome images.
pub const MONO8: u32 = 0x0108_0001;
/// Pixel format code of packed 8-bit RGB images.
pub const RGB8_PACKED: u32 = 0x0218_0014;
/// `30.0` as the bits of an IEEE 754 single: the default frame rate.
pub const DEFAULT_FRAME_RATE_BITS: u32 = 0x41F0_0000;
/// `10000.0` as the bits of an IEEE 754 double: the default exposure time.
pub const DEFAULT_EXPOSURE_BITS: u64 = 0x40C3_8800_0000_0000;

/// GenApi XML describing the fake USB3 Vision camera.
pub const FAKE_U3V_XML: &'static str = r#"<?xml version="1.0" encoding="UTF-8"?>
<RegisterDescription
    ModelName="FakeU3V"
    VendorName="FakeCorp"
    ToolTip="Fake USB3 Vision camera for testing"
    StandardNameSpace="None"
    SchemaMajorVersion="1"
    SchemaMinorVersion="0"
    SchemaSubMinorVersion="0"
    MajorVersion="1"
    MinorVersion="0"
    SubMinorVersion="0"
    ProductGuid="11111111-2222-3333-4444-555555555555"
    VersionGuid="AAAAAAAA-BBBB-CCCC-DDDD-EEEEEEEEEEEE"
    xmlns="http://www.genicam.org/GenApi/Version_1_0"
    xmlns:xsi="http://www.w3.org/2001/XMLSchema-instance"
    xsi:schemaLocation="http://www.genicam.org/GenApi/Version_1_0 GenApiSchema.xsd">

  <Category Name="Root" NameSpace="Standard">
    <pFeature>DeviceControl</pFeature>
    <pFeature>ImageFormatControl</pFeature>
    <pFeature>AcquisitionControl</pFeature>
  </Category>

  <Category Name="DeviceControl" NameSpace="Standard">
    <pFeature>DeviceModelName</pFeature>
    <pFeature>DeviceVendorName</pFeature>
  </Category>

  <StringReg Name="DeviceModelName" NameSpace="Standard">
    <Address>0x20200</Address>
    <Length>32</Length>
    <AccessMode>RO</AccessMode>
    <pPort>Device</pPort>
  </StringReg>

  <StringReg Name="DeviceVendorName" NameSpace="Standard">
    <Address>0x20220</Address>
    <Length>32</Length>
    <AccessMode>RO</AccessMode>
    <pPort>Device</pPort>
  </StringReg>

  <Category Name="ImageFormatControl" NameSpace="Standard">
    <pFeature>Width</pFeature>
    <pFeature>Height</pFeature>
    <pFeature>PixelFormat</pFeature>
  </Category>

  <Integer Name="Width" NameSpace="Standard">
    <Min>1</Min>
    <Max>4096</Max>
    <Inc>1</Inc>
    <pValue>WidthReg</pValue>
  </Integer>
  <IntReg Name="WidthReg">
    <Address>0x20000</Address>
    <Length>4</Length>
    <AccessMode>RW</AccessMode>
    <pPort>Device</pPort>
    <Sign>Unsigned</Sign>
    <Endianess>BigEndian</Endianess>
  </IntReg>

  <Integer Name="Height" NameSpace="Standard">
    <Min>1</Min>
    <Max>4096</Max>
    <Inc>1</Inc>
    <pValue>HeightReg</pValue>
  </Integer>
  <IntReg Name="HeightReg">
    <Address>0x20004</Address>
    <Length>4</Length>
    <AccessMode>RW</AccessMode>
    <pPort>Device</pPort>
    <Sign>Unsigned</Sign>
    <Endianess>BigEndian</Endianess>
  </IntReg>

  <Enumeration Name="PixelFormat" NameSpace="Standard">
    <EnumEntry Name="Mono8" NameSpace="Standard">
      <Value>17301505</Value>
    </EnumEntry>
    <EnumEntry Name="RGB8Packed" NameSpace="Standard">
      <Value>35127316</Value>
    </EnumEntry>
    <pValue>PixelFormatReg</pValue>
  </Enumeration>
  <IntReg Name="PixelFormatReg">
    <Address>0x20008</Address>
    <Length>4</Length>
    <AccessMode>RW</AccessMode>
    <pPort>Device</pPort>
    <Sign>Unsigned</Sign>
    <Endianess>BigEndian</Endianess>
  </IntReg>

  <Category Name="AcquisitionControl" NameSpace="Standard">
    <pFeature>AcquisitionMode</pFeature>
    <pFeature>AcquisitionStart</pFeature>
    <pFeature>AcquisitionStop</pFeature>
  </Category>

  <Enumeration Name="AcquisitionMode" NameSpace="Standard">
    <EnumEntry Name="Continuous"><Value>0</Value></EnumEntry>
    <EnumEntry Name="SingleFrame"><Value>1</Value></EnumEntry>
    <pValue>AcquisitionModeReg</pValue>
  </Enumeration>
  <IntReg Name="AcquisitionModeReg">
    <Address>0x20020</Address>
    <Length>4</Length>
    <AccessMode>RW</AccessMode>
    <pPort>Device</pPort>
    <Sign>Unsigned</Sign>
    <Endianess>BigEndian</Endianess>
  </IntReg>

  <Command Name="AcquisitionStart" NameSpace="Standard">
    <pValue>AcquisitionStartReg</pValue>
    <CommandValue>1</CommandValue>
  </Command>
  <IntReg Name="AcquisitionStartReg">
    <Address>0x20024</Address>
    <Length>4</Length>
    <AccessMode>WO</AccessMode>
    <pPort>Device</pPort>
    <Sign>Unsigned</Sign>
    <Endianess>BigEndian</Endianess>
  </IntReg>

  <Command Name="AcquisitionStop" NameSpace="Standard">
    <pValue>AcquisitionStopReg</pValue>
    <CommandValue>1</CommandValue>
  </Command>
  <IntReg Name="AcquisitionStopReg">
    <Address>0x20028</Address>
    <Length>4</Length>
    <AccessMode>WO</AccessMode>
    <pPort>Device</pPort>
    <Sign>Unsigned</Sign>
    <Endianess>BigEndian</Endianess>
  </IntReg>

  <Port Name="Device" NameSpace="Standard" />
</RegisterDescription>"#;

/// The GenApi XML description of the camera.
pub fn generate_xml() -> (s: String)
    ensures
        s@ == FAKE_U3V_XML@,
{
    String::from_str(FAKE_U3V_XML)
}

// ---------------------------------------------------------------------------
// Register space
// ---------------------------------------------------------------------------

/// The byte at address `a`: from the first block holding it, zero when none does.
pub open spec fn byte_at(rs: Seq<(u64, Seq<u8>)>, a: u64) -> u8 {
    let c = cover_index(rs, a);
    if c < rs.len() {
        rs[c].1[a - rs[c].0]
    } else {
        0u8
    }
}

/// The `len` bytes from `addr` on.
pub open spec fn read_bytes(rs: Seq<(u64, Seq<u8>)>, addr: u64, len: nat) -> Seq<u8> {
    Seq::new(len, |i: int| byte_at(rs, (addr + i) as u64))
}

/// The blocks after storing `b` at `a`: in the first block holding `a`, or in a new one-byte block.
pub open spec fn write_byte(rs: Seq<(u64, Seq<u8>)>, a: u64, b: u8) -> Seq<(u64, Seq<u8>)> {
    let c = cover_index(rs, a);
    if c < rs.len() {
        rs.update(c, (rs[c].0, rs[c].1.update(a - rs[c].0, b)))
    } else {
        rs.push((a, seq![b]))
    }
}

/// The blocks after storing `data` from `addr` on, one byte after the other.
pub open spec fn write_bytes(rs: Seq<(u64, Seq<u8>)>, addr: u64, data: Seq<u8>) -> Seq<(u64, Seq<u8>)>
    decreases data.len(),
{
    if data.len() == 0 {
        rs
    } else {
        write_byte(
            write_bytes(rs, addr, data.drop_last()),
            (addr + data.len() - 1) as u64,
            data.last(),
        )
    }
}

/// The blocks after setting the block at `addr` to `block`, replacing one that starts there.
pub open spec fn insert_block(rs: Seq<(u64, Seq<u8>)>, addr: u64, block: Seq<u8>) -> Seq<(u64, Seq<u8>)> {
    if exact_index(rs, addr) < rs.len() {
        rs.update(exact_index(rs, addr), (addr, block))
    } else {
        rs.push((addr, block))
    }
}

/// A zero-filled block of `max_len` bytes starting with `s`, keeping a final NUL.
pub open spec fn string_block(s: Seq<u8>, max_len: nat) -> Seq<u8> {
    Seq::new(max_len, |i: int| if i < s.len() && i < max_len - 1 { s[i] } else { 0u8 })
}

/// The registers of a fresh camera.
pub open spec fn initial_blocks(width: u32, height: u32, pixel_format: u32, xml: Seq<u8>) -> Seq<(u64, Seq<u8>)> {
    let r = Seq::<(u64, Seq<u8>)>::empty();
    let r = insert_block(r, ABRM_GENCP_VERSION, be_bytes(0x0001_0000, 4));
    let r = insert_block(r, ABRM_MANUFACTURER, string_block("FakeCorp".spec_bytes(), 64));
    let r = insert_block(r, ABRM_MODEL, string_block("FakeU3V".spec_bytes(), 64));
    let r = insert_block(r, ABRM_FAMILY, string_block("Test".spec_bytes(), 64));
    let r = insert_block(r, ABRM_DEVICE_VERSION, string_block("1.0.0".spec_bytes(), 64));
    let r = insert_block(r, ABRM_SERIAL, string_block("FAKE-001".spec_bytes(), 64));
    let r = insert_block(r, ABRM_USER_NAME, string_block("".spec_bytes(), 64));
    let r = insert_block(r, ABRM_MANIFEST_TABLE, be_bytes(MANIFEST_TABLE as nat, 8));
    let r = insert_block(r, ABRM_SBRM_ADDRESS, be_bytes(SBRM_BASE as nat, 8));
    let r = insert_block(r, ABRM_DEVICE_CAPABILITY, be_bytes(0, 8));
    let r = insert_block(r, SBRM_BASE, be_bytes(0x0001_0000, 4));
    let r = insert_block(r, (SBRM_BASE + 0x0004) as u64, be_bytes(4096, 4));
    let r = insert_block(r, (SBRM_BASE + 0x0008) as u64, be_bytes(4096, 4));
    let r = insert_block(r, (SBRM_BASE + 0x000C) as u64, be_bytes(1, 4));
    let r = insert_block(r, (SBRM_BASE + 0x0010) as u64, be_bytes(SIRM_BASE as nat, 8));
    let r = insert_block(r, (SBRM_BASE + 0x0018) as u64, be_bytes(256, 4));
    let r = insert_block(r, (SBRM_BASE + 0x001C) as u64, be_bytes(0, 8));
    let r = insert_block(r, (SBRM_BASE + 0x0024) as u64, be_bytes(0, 4));
    let r = insert_block(r, SIRM_BASE, be_bytes(0, 4));
    let r = insert_block(r, (SIRM_BASE + 0x0004) as u64, be_bytes(0, 4));
    let r = insert_block(r, (SIRM_BASE + 0x0008) as u64, be_bytes(0, 8));
    let r = insert_block(r, (SIRM_BASE + 0x0010) as u64, be_bytes(0, 4));
    let r = insert_block(r, (SIRM_BASE + 0x0014) as u64, be_bytes(0, 4));
    let r = insert_block(r, (SIRM_BASE + 0x0018) as u64, be_bytes(256, 4));
    let r = insert_block(r, (SIRM_BASE + 0x001C) as u64, be_bytes(256, 4));
    let r = insert_block(r, (SIRM_BASE + 0x0020) as u64, be_bytes(0, 8));
    let r = insert_block(r, (SIRM_BASE + 0x0028) as u64, be_bytes(0, 4));
    let r = insert_block(r, (SIRM_BASE + 0x002C) as u64, be_bytes(0, 4));
    let r = insert_block(r, (SIRM_BASE + 0x0030) as u64, be_bytes(0, 4));
    let r = insert_block(r, (SIRM_BASE + 0x0034) as u64, be_bytes(1024 * 1024, 4));
    let r = insert_block(r, MANIFEST_TABLE, be_bytes(1, 4));
    let r = insert_block(r, (MANIFEST_TABLE + 8) as u64, be_bytes(0, 8));
    let r = insert_block(r, (MANIFEST_TABLE + 16) as u64, be_bytes(XML_BLOB_BASE as nat, 8));
    let r = insert_block(r, (MANIFEST_TABLE + 24) as u64, be_bytes(xml.len(), 8));
    let r = insert_block(r, XML_BLOB_BASE, xml);
    let r = insert_block(r, REG_WIDTH, be_bytes(width as nat, 4));
    let r = insert_block(r, REG_HEIGHT, be_bytes(height as nat, 4));
    let r = insert_block(r, REG_PIXEL_FORMAT, be_bytes(pixel_format as nat, 4));
    let r = insert_block(r, REG_SENSOR_WIDTH, be_bytes(width as nat, 4));
    let r = insert_block(r, REG_SENSOR_HEIGHT, be_bytes(height as nat, 4));
    let r = insert_block(r, REG_ACQ_MODE, be_bytes(0, 4));
    let r = insert_block(r, REG_ACQ_FRAME_RATE, be_bytes(DEFAULT_FRAME_RATE_BITS as nat, 4));
    let r = insert_block(r, REG_EXPOSURE_TIME, be_bytes(DEFAULT_EXPOSURE_BITS as nat, 8));
    let r = insert_block(r, REG_DEVICE_MODEL, string_block("FakeU3V".spec_bytes(), 32));
    insert_block(r, REG_DEVICE_VENDOR, string_block("FakeCorp".spec_bytes(), 32))
}

/// Byte-addressed register store made of blocks, each starting at an address.
pub struct RegisterMap {
    regs: Vec<(u64, Vec<u8>)>,
}

impl RegisterMap {
    /// The blocks, as `(address, bytes)` pairs in the order they were created.
    pub closed spec fn blocks(&self) -> Seq<(u64, Seq<u8>)> {
        regs_of(self.regs@)
    }

    /// Create the register map of a camera with the given image size and pixel format.
    pub fn new(width: u32, height: u32, pixel_format: u32) -> (m: RegisterMap)
        ensures
            m.blocks() == initial_blocks(width, height, pixel_format, FAKE_U3V_XML.spec_bytes()),
    {
        let xml = generate_xml();
        let mut map = RegisterMap { regs: Vec::new() };
        assert(map.blocks() =~= Seq::<(u64, Seq<u8>)>::empty());
        map.write_u32(ABRM_GENCP_VERSION, 0x0001_0000);
        map.write_string(ABRM_MANUFACTURER, "FakeCorp", 64);
        map.write_string(ABRM_MODEL, "FakeU3V", 64);
        map.write_string(ABRM_FAMILY, "Test", 64);
        map.write_string(ABRM_DEVICE_VERSION, "1.0.0", 64);
        map.write_string(ABRM_SERIAL, "FAKE-001", 64);
        map.write_string(ABRM_USER_NAME, "", 64);
        map.write_u64(ABRM_MANIFEST_TABLE, MANIFEST_TABLE);
        map.write_u64(ABRM_SBRM_ADDRESS, SBRM_BASE);
        map.write_u64(ABRM_DEVICE_CAPABILITY, 0);
        map.write_u32(SBRM_BASE, 0x0001_0000);
        map.write_u32(SBRM_BASE + 0x0004, 4096);
        map.write_u32(SBRM_BASE + 0x0008, 4096);
        map.write_u32(SBRM_BASE + 0x000C, 1);
        map.write_u64(SBRM_BASE + 0x0010, SIRM_BASE);
        map.write_u32(SBRM_BASE + 0x0018, 256);
        map.write_u64(SBRM_BASE + 0x001C, 0);
        map.write_u32(SBRM_BASE + 0x0024, 0);
        map.write_u32(SIRM_BASE, 0);
        map.write_u32(SIRM_BASE + 0x0004, 0);
        map.write_u64(SIRM_BASE + 0x0008, 0);
        map.write_u32(SIRM_BASE + 0x0010, 0);
        map.write_u32(SIRM_BASE + 0x0014, 0);
        map.write_u32(SIRM_BASE + 0x0018, 256);
        map.write_u32(SIRM_BASE + 0x001C, 256);
        map.write_u64(SIRM_BASE + 0x0020, 0);
        map.write_u32(SIRM_BASE + 0x0028, 0);
        map.write_u32(SIRM_BASE + 0x002C, 0);
        map.write_u32(SIRM_BASE + 0x0030, 0);
        map.write_u32(SIRM_BASE + 0x0034, 1024 * 1024);
        map.write_u32(MANIFEST_TABLE, 1);
        let entry_offset = MANIFEST_TABLE + 8;
        map.write_u64(entry_offset, 0);
        map.write_u64(entry_offset + 8, XML_BLOB_BASE);
        let xml_bytes = xml.as_str().as_bytes();
        map.write_u64(entry_offset + 16, xml_bytes.len() as u64);
        map.write_blob(XML_BLOB_BASE, xml_bytes);
        map.write_u32(REG_WIDTH, width);
        map.write_u32(REG_HEIGHT, height);
        map.write_u32(REG_PIXEL_FORMAT, pixel_format);
        map.write_u32(REG_SENSOR_WIDTH, width);
        map.write_u32(REG_SENSOR_HEIGHT, height);
        map.write_u32(REG_ACQ_MODE, 0);
        map.write_u32(REG_ACQ_FRAME_RATE, DEFAULT_FRAME_RATE_BITS);
        map.write_u64(REG_EXPOSURE_TIME, DEFAULT_EXPOSURE_BITS);
        map.write_string(REG_DEVICE_MODEL, "FakeU3V", 32);
        map.write_string(REG_DEVICE_VENDOR, "FakeCorp", 32);
        map
    }

    fn byte_at_exec(&self, a: u64) -> (b: u8)
        ensures
            b == byte_at(self.blocks(), a),
    {
        let ghost rs = self.blocks();
        let mut k: usize = 0;
        while k < self.regs.len()
            invariant
                k <= self.regs@.len(),
                rs == regs_of(self.regs@),
                forall|j: int| 0 <= j < k ==> !covers(rs[j], a),
            decreases self.regs@.len() - k,
        {
            let base = self.regs[k].0;
            if a >= base && a - base < self.regs[k].1.len() as u64 {
                proof {
                    lemma_cover_index_is(rs, a, k as int);
                }
                return self.regs[k].1[(a - base) as usize];
            }
            k = k + 1;
        }
        proof {
            lemma_cover_index_is(rs, a, k as int);
        }
        0
    }

    /// Read `len` bytes starting at `addr`.
    pub fn read(&self, addr: u64, len: usize) -> (r: Vec<u8>)
        requires
            addr + len <= u64::MAX + 1,
        ensures
            r@ == read_bytes(self.blocks(), addr, len as nat),
    {
        let mut r: Vec<u8> = Vec::new();
        let mut i: usize = 0;
        while i < len
            invariant
                addr + len <= u64::MAX + 1,
                i <= len,
                r@ =~= read_bytes(self.blocks(), addr, len as nat).subrange(0, i as int),
            decreases len - i,
        {
            let b = self.byte_at_exec(addr + i as u64);
            r.push(b);
            i = i + 1;
        }
        r
    }

    fn write_byte_exec(&mut self, a: u64, b: u8)
        ensures
            final(self).blocks() == write_byte(old(self).blocks(), a, b),
    {
        let ghost rs = self.blocks();
        let mut k: usize = 0;
        while k < self.regs.len()
            invariant
                k <= self.regs@.len(),
                self.regs@ == old(self).regs@,
                rs == regs_of(self.regs@),
                forall|j: int| 0 <= j < k ==> !covers(rs[j], a),
            decreases self.regs@.len() - k,
        {
            let base = self.regs[k].0;
            if a >= base && a - base < self.regs[k].1.len() as u64 {
                proof {
                    lemma_cover_index_is(rs, a, k as int);
                }
                let mut entry = self.regs.remove(k);
                entry.1.set((a - base) as usize, b);
                self.regs.insert(k, entry);
                assert(self.blocks() =~= write_byte(rs, a, b));
                return;
            }
            k = k + 1;
        }
        proof {
            lemma_cover_index_is(rs, a, k as int);
        }
        let mut block: Vec<u8> = Vec::new();
        block.push(b);
        self.regs.push((a, block));
        assert(self.blocks() =~= write_byte(rs, a, b));
    }

    /// Write `data` starting at `addr`, byte by byte.
    pub fn write(&mut self, addr: u64, data: &[u8])
        requires
            addr + data@.len() <= u64::MAX + 1,
        ensures
            final(self).blocks() == write_bytes(old(self).blocks(), addr, data@),
    {
        let mut i: usize = 0;
        assert(data@.subrange(0, 0) =~= Seq::<u8>::empty());
        while i < data.len()
            invariant
                addr + data@.len() <= u64::MAX + 1,
                i <= data@.len(),
                self.blocks() == write_bytes(old(self).blocks(), addr, data@.subrange(0, i as int)),
            decreases data@.len() - i,
        {
            assert(data@.subrange(0, i + 1).drop_last() =~= data@.subrange(0, i as int));
            self.write_byte_exec(addr + i as u64, data[i]);
            i = i + 1;
        }
        assert(data@.subrange(0, data@.len() as int) =~= data@);
    }

    fn insert(&mut self, addr: u64, block: Vec<u8>)
        ensures
            final(self).blocks() == insert_block(old(self).blocks(), addr, block@),
    {
        let ghost rs = self.blocks();
        let mut i: usize = 0;
        while i < self.regs.len()
            invariant
                i <= self.regs@.len(),
                self.regs@ == old(self).regs@,
                rs == regs_of(self.regs@),
                forall|j: int| 0 <= j < i ==> rs[j].0 != addr,
            decreases self.regs@.len() - i,
        {
            if self.regs[i].0 == addr {
                proof {
                    lemma_exact_index_is(rs, addr, i as int);
                }
                self.regs.set(i, (addr, block));
                assert(self.blocks() =~= insert_block(rs, addr, block@));
                return;
            }
            i = i + 1;
        }
        proof {
            lemma_exact_index_is(rs, addr, i as int);
        }
        self.regs.push((addr, block));
        assert(self.blocks() =~= insert_block(rs, addr, block@));
    }

    /// Set the block at `addr` to the big-endian bytes of `value`.
    pub fn write_u32(&mut self, addr: u64, value: u32)
        ensures
            final(self).blocks() == insert_block(old(self).blocks(), addr, be_bytes(value as nat, 4)),
    {
        self.insert(addr, be_encode(value as u64, 4));
    }

    /// Set the block at `addr` to the big-endian bytes of `value`.
    pub fn write_u64(&mut self, addr: u64, value: u64)
        ensures
            final(self).blocks() == insert_block(old(self).blocks(), addr, be_bytes(value as nat, 8)),
    {
        self.insert(addr, be_encode(value, 8));
    }

    /// Set the block at `addr` to `max_len` bytes holding `s`, cut to leave a final NUL.
    pub fn write_string(&mut self, addr: u64, s: &str, max_len: usize)
        requires
            max_len >= 1,
        ensures
            final(self).blocks() == insert_block(
                old(self).blocks(),
                addr,
                string_block(s.spec_bytes(), max_len as nat),
            ),
    {
        let bytes = s.as_bytes();
        let n = if bytes.len() < max_len - 1 {
            bytes.len()
        } else {
            max_len - 1
        };
        let mut data: Vec<u8> = Vec::new();
        let mut i: usize = 0;
        while i < max_len
            invariant
                max_len >= 1,
                bytes@ == s.spec_bytes(),
                n == (if bytes@.len() < max_len - 1 { bytes@.len() as int } else { max_len - 1 }),
                i <= max_len,
                data@ =~= string_block(bytes@, max_len as nat).subrange(0, i as int),
            decreases max_len - i,
        {
            if i < n {
                data.push(bytes[i]);
            } else {
                data.push(0u8);
            }
            i = i + 1;
        }
        assert(data@ =~= string_block(bytes@, max_len as nat));
        self.insert(addr, data);
    }

    /// Set the block at `addr` to `data`.
    pub fn write_blob(&mut self, addr: u64, data: &[u8])
        ensures
            final(self).blocks() == insert_block(old(self).blocks(), addr, data@),
    {
        self.insert(addr, vstd::slice::slice_to_vec(data));
    }

    /// The big-endian value of the four bytes at `addr`.
    pub fn read_u32(&self, addr: u64) -> (v: u32)
        requires
            addr + 4 <= u64::MAX + 1,
        ensures
            v as nat == be_value(read_bytes(self.blocks(), addr, 4)),
    {
        let data = self.read(addr, 4);
        proof {
            crate::wire::lemma_be_value_bound(data@);
            crate::wire::lemma_pow256_values();
        }
        assert(data@.subrange(0, 4) =~= data@);
        be_decode(data.as_slice(), 0, 4) as u32
    }
}

// ---------------------------------------------------------------------------
// Laws
// ---------------------------------------------------------------------------

/// Storing one byte changes only the byte at that address.
pub proof fn lemma_write_byte_effect(rs: Seq<(u64, Seq<u8>)>, a: u64, b: u8, x: u64)
    ensures
        byte_at(write_byte(rs, a, b), x) == if x == a { b } else { byte_at(rs, x) },
{
    let rs2 = write_byte(rs, a, b);
    let c = cover_index(rs, a);
    lemma_cover_index(rs, a);
    lemma_cover_index(rs, x);
    if c < rs.len() {
        assert forall|j: int| 0 <= j < rs2.len() implies (covers(rs2[j], x) == covers(rs[j], x)) by {}
        lemma_cover_index_is(rs2, x, cover_index(rs, x));
    } else {
        if x == a {
            lemma_cover_index_is(rs2, x, rs.len() as int);
        } else {
            assert(!covers(rs2[rs.len() as int], x));
            if cover_index(rs, x) < rs.len() {
                lemma_cover_index_is(rs2, x, cover_index(rs, x));
            } else {
                lemma_cover_index_is(rs2, x, rs2.len() as int);
            }
        }
    }
}

/// Reading the bytes just written gives them back, and bytes elsewhere keep their value.
pub proof fn lemma_write_then_read(rs: Seq<(u64, Seq<u8>)>, addr: u64, data: Seq<u8>, x: u64)
    requires
        addr + data.len() <= u64::MAX + 1,
    ensures
        read_bytes(write_bytes(rs, addr, data), addr, data.len()) == data,
        (x < addr || x >= addr + data.len()) ==> byte_at(write_bytes(rs, addr, data), x) == byte_at(
            rs,
            x,
        ),
    decreases data.len(),
{
    if data.len() > 0 {
        let d0 = data.drop_last();
        let last = (addr + data.len() - 1) as u64;
        lemma_write_then_read(rs, addr, d0, x);
        lemma_write_byte_effect(write_bytes(rs, addr, d0), last, data.last(), x);
        assert forall|i: int| 0 <= i < data.len() implies #[trigger] read_bytes(
            write_bytes(rs, addr, data),
            addr,
            data.len(),
        )[i] == data[i] by {
            lemma_write_then_read(rs, addr, d0, (addr + i) as u64);
            lemma_write_byte_effect(write_bytes(rs, addr, d0), last, data.last(), (addr + i) as u64);
            if i < data.len() - 1 {
                assert(read_bytes(write_bytes(rs, addr, d0), addr, d0.len())[i] == d0[i]);
            }
        }
        assert(read_bytes(write_bytes(rs, addr, data), addr, data.len()) =~= data);
    } else {
        assert(read_bytes(write_bytes(rs, addr, data), addr, data.len()) =~= data);
    }
}


// ---------------------------------------------------------------------------
// Transport
// ---------------------------------------------------------------------------

/// U3V command prefix magic: "U3VC" in little-endian.
pub const CMD_PREFIX: u32 = 0x4356_3355;
/// U3V acknowledge prefix magic: "U3VA" in little-endian.
pub const ACK_PREFIX: u32 = 0x4356_3341;
/// U3V prefix size.
pub const PREFIX_SIZE: usize = 12;
/// U3V stream leader prefix: "U3VL" in little-endian.
pub const LEADER_PREFIX: u32 = 0x4C56_3355;
/// U3V stream trailer prefix: "U3VT" in little-endian.
pub const TRAILER_PREFIX: u32 = 0x5456_3355;
/// GenCP status: success.
pub const STATUS_SUCCESS: u16 = 0x0000;
/// GenCP status: command not implemented.
pub const STATUS_NOT_IMPLEMENTED: u16 = 0x8001;
/// GenCP `ReadRegister` command code (its acknowledge is the next code).
pub const READ_REGISTER_CMD: u16 = 0x0080;
/// GenCP `WriteRegister` command code.
pub const WRITE_REGISTER_CMD: u16 = 0x0082;
/// GenCP `ReadMem` command code.
pub const READ_MEM_CMD: u16 = 0x0084;
/// GenCP `WriteMem` command code.
pub const WRITE_MEM_CMD: u16 = 0x0086;
/// Stream endpoint address.
pub const STREAM_ENDPOINT: u8 = 0x82;

/// Protocol failures of the fake transport.
#[derive(Debug)]
pub enum TransportError {
    Protocol(String),
}

/// A U3V acknowledge: prefix, status, acknowledge code, payload length, request id, payload.
pub open spec fn ack_bytes(status: u16, ack_code: u16, request_id: u16, payload: Seq<u8>) -> Seq<u8> {
    le_bytes(ACK_PREFIX as nat, 4) + le_bytes(status as nat, 2) + le_bytes(ack_code as nat, 2)
        + le_bytes(payload.len(), 2) + le_bytes(request_id as nat, 2) + payload
}

/// Build a U3V acknowledge packet.
pub fn build_ack(status: u16, ack_code: u16, request_id: u16, payload: &[u8]) -> (a: Vec<u8>)
    ensures
        a@ == ack_bytes(status, ack_code, request_id, payload@),
{
    let mut buf: Vec<u8> = Vec::new();
    put_le(&mut buf, ACK_PREFIX as u64, 4);
    put_le(&mut buf, status as u64, 2);
    put_le(&mut buf, ack_code as u64, 2);
    put_le(&mut buf, payload.len() as u64, 2);
    put_le(&mut buf, request_id as u64, 2);
    buf.extend_from_slice(payload);
    assert(buf@ =~= ack_bytes(status, ack_code, request_id, payload@));
    buf
}

/// Little-endian field of a command.
pub open spec fn le_field(d: Seq<u8>, from: int, to: int) -> nat {
    le_value(d.subrange(from, to))
}

/// The command payload (its length is the command's `scd_len` field).
pub open spec fn command_payload(d: Seq<u8>) -> Seq<u8> {
    d.subrange(12, 12 + le_field(d, 8, 10) as int)
}

/// Whether `d` starts like a command: long enough and with the command prefix.
pub open spec fn is_command(d: Seq<u8>) -> bool {
    d.len() >= 12 && le_field(d, 0, 4) == CMD_PREFIX
}

/// Address named by a memory command payload.
pub open spec fn payload_addr(p: Seq<u8>) -> nat {
    be_value(p.subrange(0, 8))
}

/// Commands carry as many bytes as they declare, and what they address lies in 64-bit space.
pub open spec fn command_fits(d: Seq<u8>) -> bool {
    is_command(d) ==> {
        let op = le_field(d, 6, 8);
        let p = command_payload(d);
        &&& 12 + le_field(d, 8, 10) <= d.len()
        &&& op == READ_MEM_CMD ==> p.len() >= 12 && payload_addr(p) + be_value(p.subrange(10, 12))
            <= u64::MAX + 1
        &&& op == WRITE_MEM_CMD ==> p.len() >= 8 && payload_addr(p) + (p.len() - 8) <= u64::MAX + 1
        &&& op == READ_REGISTER_CMD ==> p.len() >= 8 && payload_addr(p) + 4 <= u64::MAX + 1
        &&& op == WRITE_REGISTER_CMD ==> p.len() >= 12 && payload_addr(p) + 4 <= u64::MAX + 1
    }
}

/// The registers after a command and the acknowledge it is answered with.
pub open spec fn command_effect(rs: Seq<(u64, Seq<u8>)>, d: Seq<u8>) -> (Seq<(u64, Seq<u8>)>, Seq<u8>) {
    let op = le_field(d, 6, 8);
    let req = le_field(d, 10, 12) as u16;
    let p = command_payload(d);
    let addr = payload_addr(p) as u64;
    if op == READ_MEM_CMD {
        (rs, ack_bytes(STATUS_SUCCESS, 0x0085, req, read_bytes(rs, addr, be_value(p.subrange(10, 12)))))
    } else if op == WRITE_MEM_CMD {
        (write_bytes(rs, addr, p.subrange(8, p.len() as int)), ack_bytes(STATUS_SUCCESS, 0x0087, req, Seq::empty()))
    } else if op == READ_REGISTER_CMD {
        (rs, ack_bytes(STATUS_SUCCESS, 0x0081, req, read_bytes(rs, addr, 4)))
    } else if op == WRITE_REGISTER_CMD {
        (write_bytes(rs, addr, p.subrange(8, 12)), ack_bytes(STATUS_SUCCESS, 0x0083, req, Seq::empty()))
    } else {
        (rs, ack_bytes(STATUS_NOT_IMPLEMENTED, 0x0085, req, Seq::empty()))
    }
}

/// Bytes per pixel for the given PFNC code: three for packed RGB8, one otherwise.
pub fn bytes_per_pixel(pixel_format: u32) -> (b: usize)
    ensures
        b == (if pixel_format == RGB8_PACKED { 3usize } else { 1usize }),
{
    if pixel_format == RGB8_PACKED {
        3
    } else {
        1
    }
}

/// The 42-byte stream leader.
pub open spec fn u3v_leader_bytes(width: u32, height: u32, pixel_format: u32) -> Seq<u8> {
    le_bytes(LEADER_PREFIX as nat, 4) + le_bytes(0, 2) + le_bytes(42, 2) + le_bytes(0, 2) + le_bytes(1, 2)
        + le_bytes(0, 8) + le_bytes(pixel_format as nat, 4) + le_bytes(width as nat, 4) + le_bytes(
        height as nat,
        4,
    ) + le_bytes(0, 8) + le_bytes(0, 2)
}

/// The 28-byte stream trailer.
pub open spec fn u3v_trailer_bytes(block_id: u64, valid_payload_size: u64) -> Seq<u8> {
    le_bytes(TRAILER_PREFIX as nat, 4) + le_bytes(0, 2) + le_bytes(28, 2) + le_bytes(0, 4) + le_bytes(
        block_id as nat,
        8,
    ) + le_bytes(valid_payload_size as nat, 8)
}

/// Build a U3V stream leader.
pub fn build_leader(width: u32, height: u32, pixel_format: u32) -> (b: Vec<u8>)
    ensures
        b@ == u3v_leader_bytes(width, height, pixel_format),
{
    let mut buf: Vec<u8> = Vec::new();
    put_le(&mut buf, LEADER_PREFIX as u64, 4);
    put_le(&mut buf, 0, 2);
    put_le(&mut buf, 42, 2);
    put_le(&mut buf, 0, 2);
    put_le(&mut buf, 0x0001, 2);
    put_le(&mut buf, 0, 8);
    put_le(&mut buf, pixel_format as u64, 4);
    put_le(&mut buf, width as u64, 4);
    put_le(&mut buf, height as u64, 4);
    put_le(&mut buf, 0, 8);
    put_le(&mut buf, 0, 2);
    assert(buf@ =~= u3v_leader_bytes(width, height, pixel_format));
    buf
}

/// Build a U3V stream trailer.
pub fn build_trailer(block_id: u64, valid_payload_size: u64) -> (b: Vec<u8>)
    ensures
        b@ == u3v_trailer_bytes(block_id, valid_payload_size),
{
    let mut buf: Vec<u8> = Vec::new();
    put_le(&mut buf, TRAILER_PREFIX as u64, 4);
    put_le(&mut buf, 0, 2);
    put_le(&mut buf, 28, 2);
    put_le(&mut buf, 0, 4);
    put_le(&mut buf, block_id, 8);
    put_le(&mut buf, valid_payload_size, 8);
    assert(buf@ =~= u3v_trailer_bytes(block_id, valid_payload_size));
    buf
}

/// What a bulk read hands back.
#[derive(Debug)]
pub enum Transfer {
    /// These bytes.
    Bytes(Vec<u8>),
    /// The animated test image of this size and frame index, cut to `max_len` bytes.
    Pattern { width: u32, height: u32, bpp: usize, frame: u16, max_len: usize },
}

/// The first `n` bytes of `s`, all of them when it is shorter.
pub open spec fn prefix_of(s: Seq<u8>, n: nat) -> Seq<u8> {
    if s.len() <= n {
        s
    } else {
        s.subrange(0, n as int)
    }
}

fn truncated(v: Vec<u8>, n: usize) -> (r: Vec<u8>)
    ensures
        r@ == prefix_of(v@, n as nat),
{
    if v.len() <= n {
        v
    } else {
        vstd::slice::slice_to_vec(vstd::slice::slice_subrange(v.as_slice(), 0, n))
    }
}

/// Fake USB transport backed by an in-memory register map.
pub struct FakeU3vTransport {
    registers: RegisterMap,
    pending_ack: Option<Vec<u8>>,
    frame_count: u64,
}

/// Value of the big-endian register of four bytes at `addr`.
pub open spec fn reg_u32(rs: Seq<(u64, Seq<u8>)>, addr: u64) -> nat {
    be_value(read_bytes(rs, addr, 4))
}

/// Whether the stream payload size of the current image fits in 64 bits.
pub open spec fn stream_size_fits(rs: Seq<(u64, Seq<u8>)>) -> bool {
    reg_u32(rs, REG_WIDTH) * reg_u32(rs, REG_HEIGHT) * (if reg_u32(rs, REG_PIXEL_FORMAT) == RGB8_PACKED {
        3int
    } else {
        1int
    }) <= u64::MAX
}

impl FakeU3vTransport {
    /// The register blocks.
    pub closed spec fn blocks(&self) -> Seq<(u64, Seq<u8>)> {
        self.registers.blocks()
    }

    /// The acknowledge waiting for the next control read.
    pub closed spec fn pending(&self) -> Option<Seq<u8>> {
        match self.pending_ack {
            Some(a) => Some(a@),
            None => None,
        }
    }

    /// Stream transfers handed out so far.
    pub closed spec fn frames(&self) -> u64 {
        self.frame_count
    }

    /// Create a fake transport with the given image dimensions.
    pub fn new(width: u32, height: u32, pixel_format: u32) -> (t: FakeU3vTransport)
        ensures
            t.blocks() == initial_blocks(width, height, pixel_format, FAKE_U3V_XML.spec_bytes()),
            t.pending() is None,
            t.frames() == 0,
    {
        FakeU3vTransport {
            registers: RegisterMap::new(width, height, pixel_format),
            pending_ack: None,
            frame_count: 0,
        }
    }

    /// Handle a command written to the control endpoint; its acknowledge is kept for the next read.
    pub fn bulk_write(&mut self, endpoint: u8, data: &[u8]) -> (r: Result<usize, TransportError>)
        requires
            command_fits(data@),
        ensures
            data@.len() < 12 ==> (r matches Err(TransportError::Protocol(m)) && m@
                == "command too short"@),
            (data@.len() >= 12 && !is_command(data@)) ==> (r matches Err(TransportError::Protocol(m))
                && m@ == "bad cmd prefix: 0x"@ + crate::text::ascii_chars(
                crate::text::hex_digits_lower(le_field(data@, 0, 4)),
            )),
            !is_command(data@) ==> final(self).blocks() == old(self).blocks() && final(self).pending()
                == old(self).pending(),
            is_command(data@) ==> r == Ok::<usize, TransportError>(data@.len() as usize)
                && final(self).blocks() == command_effect(old(self).blocks(), data@).0
                && final(self).pending() == Some(command_effect(old(self).blocks(), data@).1),
            final(self).frames() == old(self).frames(),
    {
        if data.len() < PREFIX_SIZE {
            return Err(TransportError::Protocol(String::from_str("command too short")));
        }
        let prefix = le_decode(data, 0, 4);
        if prefix != CMD_PREFIX as u64 {
            let mut m = String::from_str("bad cmd prefix: 0x");
            let mut digits: Vec<u8> = Vec::new();
            crate::text::push_hex_lower(&mut digits, prefix);
            proof {
                lemma_hex_ascii(prefix as nat);
            }
            let d = crate::text::ascii_string(digits);
            m.append(d.as_str());
            return Err(TransportError::Protocol(m));
        }
        let opcode = le_decode(data, 6, 8);
        let scd_len = le_decode(data, 8, 10) as usize;
        let request_id = le_decode(data, 10, 12) as u16;
        proof {
            crate::wire::lemma_le_value_bound(data@.subrange(10, 12));
            crate::wire::lemma_le_value_bound(data@.subrange(8, 10));
            crate::wire::lemma_pow256_values();
        }
        let payload = vstd::slice::slice_subrange(data, 12, 12 + scd_len);
        let ghost rs = self.registers.blocks();
        let ack = if opcode == READ_MEM_CMD as u64 {
            let addr = be_decode(payload, 0, 8);
            proof {
                crate::wire::lemma_be_value_bound(payload@.subrange(10, 12));
                crate::wire::lemma_pow256_values();
            }
            let count = be_decode(payload, 10, 12) as usize;
            let mem = self.registers.read(addr, count);
            build_ack(STATUS_SUCCESS, 0x0085, request_id, mem.as_slice())
        } else if opcode == WRITE_MEM_CMD as u64 {
            let addr = be_decode(payload, 0, 8);
            let write_data = vstd::slice::slice_subrange(payload, 8, payload.len());
            self.registers.write(addr, write_data);
            build_ack(STATUS_SUCCESS, 0x0087, request_id, &[])
        } else if opcode == READ_REGISTER_CMD as u64 {
            let addr = be_decode(payload, 0, 8);
            let mem = self.registers.read(addr, 4);
            build_ack(STATUS_SUCCESS, 0x0081, request_id, mem.as_slice())
        } else if opcode == WRITE_REGISTER_CMD as u64 {
            let addr = be_decode(payload, 0, 8);
            let value = vstd::slice::slice_subrange(payload, 8, 12);
            self.registers.write(addr, value);
            build_ack(STATUS_SUCCESS, 0x0083, request_id, &[])
        } else {
            build_ack(STATUS_NOT_IMPLEMENTED, 0x0085, request_id, &[])
        };
        self.pending_ack = Some(ack);
        Ok(data.len())
    }

    /// Read from an endpoint: the next stream transfer on the stream endpoint, otherwise the
    /// pending acknowledge (at most `max_len` bytes of it).
    pub fn bulk_read(&mut self, endpoint: u8, max_len: usize) -> (r: Result<Transfer, TransportError>)
        requires
            endpoint == STREAM_ENDPOINT ==> old(self).frames() < u64::MAX && stream_size_fits(
                old(self).blocks(),
            ),
        ensures
            final(self).blocks() == old(self).blocks(),
            endpoint != STREAM_ENDPOINT ==> final(self).frames() == old(self).frames(),
            endpoint != STREAM_ENDPOINT && old(self).pending() is None ==> (r matches Err(
                TransportError::Protocol(m),
            ) && m@ == "no pending ack (bulk_read before bulk_write)"@),
            endpoint != STREAM_ENDPOINT && old(self).pending() is Some ==> (r matches Ok(
                Transfer::Bytes(b),
            ) && b@ == prefix_of(old(self).pending()->Some_0, max_len as nat)
                && final(self).pending() is None),
            endpoint == STREAM_ENDPOINT ==> spec_stream_transfer(
                old(self).blocks(),
                old(self).frames(),
                max_len,
                r,
            ) && final(self).frames() == old(self).frames() + 1 && final(self).pending()
                == old(self).pending(),
    {
        if endpoint == STREAM_ENDPOINT {
            return Ok(self.generate_stream_transfer(max_len));
        }
        match self.pending_ack.take() {
            None => Err(
                TransportError::Protocol(
                    String::from_str("no pending ack (bulk_read before bulk_write)"),
                ),
            ),
            Some(ack) => Ok(Transfer::Bytes(truncated(ack, max_len))),
        }
    }

    /// The next transfer of the leader, payload, trailer cycle, with the image size and
    /// pixel format read from the registers each time.
    fn generate_stream_transfer(&mut self, max_len: usize) -> (t: Transfer)
        requires
            old(self).frames() < u64::MAX,
            stream_size_fits(old(self).blocks()),
        ensures
            spec_stream_transfer(old(self).blocks(), old(self).frames(), max_len, Ok(t)),
            final(self).frames() == old(self).frames() + 1,
            final(self).blocks() == old(self).blocks(),
            final(self).pending() == old(self).pending(),
    {
        let phase = self.frame_count % 3;
        self.frame_count = self.frame_count + 1;
        let width = self.registers.read_u32(REG_WIDTH);
        let height = self.registers.read_u32(REG_HEIGHT);
        let pixel_format = self.registers.read_u32(REG_PIXEL_FORMAT);
        let bpp = bytes_per_pixel(pixel_format);
        if phase == 0 {
            Transfer::Bytes(truncated(build_leader(width, height, pixel_format), max_len))
        } else if phase == 1 {
            let frame = ((self.frame_count / 3) % 0x1_0000) as u16;
            Transfer::Pattern { width, height, bpp, frame, max_len }
        } else {
            let block_id = self.frame_count / 3;
            let payload_size = (width as u64) * (height as u64) * (bpp as u64);
            Transfer::Bytes(truncated(build_trailer(block_id, payload_size), max_len))
        }
    }
}

/// The stream transfer handed out as transfer number `frames`: a leader, the test image,
/// then a trailer, in turn.
pub open spec fn spec_stream_transfer(
    rs: Seq<(u64, Seq<u8>)>,
    frames: u64,
    max_len: usize,
    r: Result<Transfer, TransportError>,
) -> bool {
    let w = reg_u32(rs, REG_WIDTH) as u32;
    let h = reg_u32(rs, REG_HEIGHT) as u32;
    let pf = reg_u32(rs, REG_PIXEL_FORMAT) as u32;
    let bpp: usize = if pf == RGB8_PACKED { 3 } else { 1 };
    let next = frames + 1;
    if frames % 3 == 0 {
        r matches Ok(Transfer::Bytes(b)) && b@ == prefix_of(u3v_leader_bytes(w, h, pf), max_len as nat)
    } else if frames % 3 == 1 {
        r == Ok::<Transfer, TransportError>(
            Transfer::Pattern { width: w, height: h, bpp, frame: ((next / 3) % 0x1_0000) as u16, max_len },
        )
    } else {
        r matches Ok(Transfer::Bytes(b)) && b@ == prefix_of(
            u3v_trailer_bytes((next / 3) as u64, (w * h * bpp) as u64),
            max_len as nat,
        )
    }
}

proof fn lemma_hex_ascii(v: nat)
    ensures
        crate::text::all_ascii(crate::text::hex_digits_lower(v)),
    decreases v,
{
    if v >= 16 {
        lemma_hex_ascii(v / 16);
    }
}

// ---------------------------------------------------------------------------
// Camera
// ---------------------------------------------------------------------------

/// Settings of a fake USB3 Vision camera.
pub struct FakeU3vCamera {
    pub width: u32,
    pub height: u32,
    pub pixel_format: u32,
}

impl FakeU3vCamera {
    /// A fake camera with the given dimensions (Mono8 format).
    pub fn new(width: u32, height: u32) -> (c: FakeU3vCamera)
        ensures
            c.width == width,
            c.height == height,
            c.pixel_format == MONO8,
    {
        FakeU3vCamera { width, height, pixel_format: MONO8 }
    }

    /// Set the pixel format (PFNC code).
    pub fn pixel_format(self, pfnc: u32) -> (c: FakeU3vCamera)
        ensures
            c.width == self.width,
            c.height == self.height,
            c.pixel_format == pfnc,
    {
        FakeU3vCamera { pixel_format: pfnc, ..self }
    }

    /// The transport a device of this camera talks through.
    pub fn transport(self) -> (t: FakeU3vTransport)
        ensures
            t.blocks() == initial_blocks(
                self.width,
                self.height,
                self.pixel_format,
                FAKE_U3V_XML.spec_bytes(),
            ),
            t.pending() is None,
            t.frames() == 0,
    {
        FakeU3vTransport::new(self.width, self.height, self.pixel_format)
    }
}

} // verus!
