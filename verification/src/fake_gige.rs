//! A simulated GigE Vision camera: its register space and the GenApi description it serves.
use vstd::prelude::*;
use vstd::string::StringSliceAdditionalSpecFns;
use crate::camctl::{first_bad_byte, lemma_first_bad_byte, mac_of_fields, parse_six_fields, FieldsOutcome};
use crate::text::{hex_digits_lower, lossy_string, push_hex_lower, split_bytes, split_fields, utf8_lossy, views};
use crate::wire::{be_bytes, be_decode, be_encode, be_value};

verus! {

/// Control channel privilege register.
pub const CCP: u64 = 0x0a00;
/// Heartbeat timeout register (milliseconds).
pub const HEARTBEAT_TIMEOUT: u64 = 0x0938;
/// First stream channel register block.
pub const STREAM_CHANNEL_BASE: u64 = 0x0d00;
/// Stream channel host port, relative to the channel block.
pub const SCP_HOST_PORT: u64 = 0x00;
/// Stream channel packet size, relative to the channel block.
pub const SCP_PACKET_SIZE: u64 = 0x04;
/// Stream channel packet delay, relative to the channel block.
pub const SCP_PACKET_DELAY: u64 = 0x08;
/// Stream channel destination address, relative to the channel block.
pub const SCP_DEST_ADDR: u64 = 0x18;
/// Address where the XML file register points to.
pub const XML_ADDRESS: u64 = 0x0200;
/// Bootstrap register pointing to the XML address.
pub const XML_ADDRESS_REG: u64 = 0x0200;
/// Register holding the GenICam XML URL string (`Local:filename.xml;ADDR;LEN`).
pub const XML_URL_REG: u64 = 0x0200;
/// First XML file register address.
pub const FIRST_URL_REG: u64 = 0x0200;
/// Length of the URL register block.
pub const URL_REG_LEN: usize = 512;
/// Address where the XML blob is stored in the register space.
pub const XML_BLOB_BASE: u64 = 0x1_0000;
/// Pixel format code of 8-bit monochrome images.
pub const MONO8: u32 = 0x0108_0001;
/// Pixel format code of 8-bit RGB images.
pub const RGB8: u32 = 0x0218_0014;
/// `5000.0` as the bits of an IEEE 754 double: the default exposure time.
pub const DEFAULT_EXPOSURE_BITS: u64 = 0x40B3_8800_0000_0000;

/// Minimal GenApi XML describing a fake camera with basic SFNC features.
pub const FAKE_XML: &'static str = r#"<?xml version="1.0" encoding="UTF-8"?>
<RegisterDescription
  ModelName="FakeGigE"
  VendorName="genicam-rs"
  ToolTip="Fake GigE Vision camera for testing"
  StandardNameSpace="GEV"
  SchemaMajorVersion="1"
  SchemaMinorVersion="1"
  SchemaSubMinorVersion="0"
  MajorVersion="1"
  MinorVersion="0"
  SubMinorVersion="0"
  ProductGuid="00000000-0000-0000-0000-000000000000"
  VersionGuid="00000000-0000-0000-0000-000000000001">

  <Category Name="Root" NameSpace="Standard">
    <pFeature>Width</pFeature>
    <pFeature>Height</pFeature>
    <pFeature>PixelFormat</pFeature>
    <pFeature>ExposureTime</pFeature>
    <pFeature>Gain</pFeature>
    <pFeature>AcquisitionStart</pFeature>
    <pFeature>AcquisitionStop</pFeature>
  </Category>

  <Integer Name="Width" NameSpace="Standard">
    <ToolTip>Image width in pixels</ToolTip>
    <Address>0x20000</Address>
    <Length>4</Length>
    <AccessMode>RW</AccessMode>
    <pMin>WidthMin</pMin>
    <pMax>WidthMax</pMax>
    <Sign>Unsigned</Sign>
    <Endianess>BigEndian</Endianess>
  </Integer>
  <IntReg Name="WidthMin"><Address>0x20100</Address><Length>4</Length><AccessMode>RO</AccessMode><Sign>Unsigned</Sign><Endianess>BigEndian</Endianess></IntReg>
  <IntReg Name="WidthMax"><Address>0x20104</Address><Length>4</Length><AccessMode>RO</AccessMode><Sign>Unsigned</Sign><Endianess>BigEndian</Endianess></IntReg>

  <Integer Name="Height" NameSpace="Standard">
    <ToolTip>Image height in pixels</ToolTip>
    <Address>0x20004</Address>
    <Length>4</Length>
    <AccessMode>RW</AccessMode>
    <pMin>HeightMin</pMin>
    <pMax>HeightMax</pMax>
    <Sign>Unsigned</Sign>
    <Endianess>BigEndian</Endianess>
  </Integer>
  <IntReg Name="HeightMin"><Address>0x20108</Address><Length>4</Length><AccessMode>RO</AccessMode><Sign>Unsigned</Sign><Endianess>BigEndian</Endianess></IntReg>
  <IntReg Name="HeightMax"><Address>0x2010c</Address><Length>4</Length><AccessMode>RO</AccessMode><Sign>Unsigned</Sign><Endianess>BigEndian</Endianess></IntReg>

  <Enumeration Name="PixelFormat" NameSpace="Standard">
    <ToolTip>Pixel format of the image</ToolTip>
    <EnumEntry Name="Mono8" NameSpace="Standard"><Value>0x01080001</Value></EnumEntry>
    <EnumEntry Name="RGB8" NameSpace="Standard"><Value>0x02180014</Value></EnumEntry>
    <pValue>PixelFormatReg</pValue>
  </Enumeration>
  <IntReg Name="PixelFormatReg"><Address>0x20008</Address><Length>4</Length><AccessMode>RW</AccessMode><Sign>Unsigned</Sign><Endianess>BigEndian</Endianess></IntReg>

  <Float Name="ExposureTime" NameSpace="Standard">
    <ToolTip>Exposure time in microseconds</ToolTip>
    <Address>0x20010</Address>
    <Length>8</Length>
    <AccessMode>RW</AccessMode>
    <Min>10.0</Min>
    <Max>1000000.0</Max>
    <Endianess>BigEndian</Endianess>
  </Float>

  <Float Name="Gain" NameSpace="Standard">
    <ToolTip>Gain in dB</ToolTip>
    <Address>0x20018</Address>
    <Length>8</Length>
    <AccessMode>RW</AccessMode>
    <Min>0.0</Min>
    <Max>48.0</Max>
    <Endianess>BigEndian</Endianess>
  </Float>

  <Command Name="AcquisitionStart" NameSpace="Standard">
    <ToolTip>Start image acquisition</ToolTip>
    <Address>0x20020</Address>
    <Length>4</Length>
    <AccessMode>WO</AccessMode>
    <CommandValue>1</CommandValue>
    <Endianess>BigEndian</Endianess>
  </Command>

  <Command Name="AcquisitionStop" NameSpace="Standard">
    <ToolTip>Stop image acquisition</ToolTip>
    <Address>0x20024</Address>
    <Length>4</Length>
    <AccessMode>WO</AccessMode>
    <CommandValue>1</CommandValue>
    <Endianess>BigEndian</Endianess>
  </Command>

</RegisterDescription>
"#;

// ---------------------------------------------------------------------------
// Register space
// ---------------------------------------------------------------------------

/// `len` bytes of `d` from `off` on, padded with zeros where `d` ends.
pub open spec fn window(d: Seq<u8>, off: int, len: nat) -> Seq<u8> {
    Seq::new(len, |j: int| if 0 <= off + j < d.len() { d[off + j] } else { 0u8 })
}

/// `d` with the bytes from `off` on replaced by `src`, as far as `d` reaches.
pub open spec fn overlay(d: Seq<u8>, off: int, src: Seq<u8>) -> Seq<u8> {
    Seq::new(d.len(), |j: int| if off <= j < off + src.len() { src[j - off] } else { d[j] })
}

/// Index of the first register that starts at `addr`, or `rs.len()`.
pub open spec fn exact_index(rs: Seq<(u64, Seq<u8>)>, addr: u64) -> int
    decreases rs.len(),
{
    if rs.len() == 0 {
        0
    } else if exact_index(rs.drop_last(), addr) < rs.len() - 1 {
        exact_index(rs.drop_last(), addr)
    } else if rs.last().0 == addr {
        rs.len() - 1
    } else {
        rs.len() as int
    }
}

/// Whether register `e` holds the byte at `addr`.
pub open spec fn covers(e: (u64, Seq<u8>), addr: u64) -> bool {
    e.0 <= addr && addr - e.0 < e.1.len()
}

/// Index of the first register that holds the byte at `addr`, or `rs.len()`.
pub open spec fn cover_index(rs: Seq<(u64, Seq<u8>)>, addr: u64) -> int
    decreases rs.len(),
{
    if rs.len() == 0 {
        0
    } else if cover_index(rs.drop_last(), addr) < rs.len() - 1 {
        cover_index(rs.drop_last(), addr)
    } else if covers(rs.last(), addr) {
        rs.len() - 1
    } else {
        rs.len() as int
    }
}

/// Whether `addr` falls inside the XML blob.
pub open spec fn in_blob(blob: Seq<u8>, addr: u64) -> bool {
    addr >= XML_BLOB_BASE && addr - XML_BLOB_BASE < blob.len()
}

/// The byte at address `a`: from the XML blob, from the first register that holds it, or
/// zero where nothing does (and past the 64-bit address space).
pub open spec fn byte_at(blob: Seq<u8>, rs: Seq<(u64, Seq<u8>)>, a: int) -> u8 {
    if a < 0 || a > u64::MAX {
        0
    } else if in_blob(blob, a as u64) {
        blob[a - XML_BLOB_BASE]
    } else if cover_index(rs, a as u64) < rs.len() {
        rs[cover_index(rs, a as u64)].1[a - rs[cover_index(rs, a as u64)].0]
    } else {
        0
    }
}

/// What a read of `len` bytes at `addr` returns: the bytes at `addr` and after it.
pub open spec fn spec_read(blob: Seq<u8>, rs: Seq<(u64, Seq<u8>)>, addr: u64, len: nat) -> Seq<u8> {
    Seq::new(len, |j: int| byte_at(blob, rs, addr + j))
}

/// The registers after writing `data` at `addr`: into a register starting there, into one
/// holding that address (bytes past its end are dropped), or as a new register.
pub open spec fn spec_write(rs: Seq<(u64, Seq<u8>)>, addr: u64, data: Seq<u8>) -> Seq<(u64, Seq<u8>)> {
    if exact_index(rs, addr) < rs.len() {
        let e = exact_index(rs, addr);
        rs.update(e, (addr, overlay(rs[e].1, 0, data)))
    } else if cover_index(rs, addr) < rs.len() {
        let c = cover_index(rs, addr);
        rs.update(c, (rs[c].0, overlay(rs[c].1, addr - rs[c].0, data)))
    } else {
        rs.push((addr, data))
    }
}

pub(crate) proof fn lemma_exact_index(rs: Seq<(u64, Seq<u8>)>, addr: u64)
    ensures
        0 <= exact_index(rs, addr) <= rs.len(),
        exact_index(rs, addr) < rs.len() ==> rs[exact_index(rs, addr)].0 == addr,
        forall|j: int| 0 <= j < exact_index(rs, addr) ==> rs[j].0 != addr,
    decreases rs.len(),
{
    if rs.len() > 0 {
        lemma_exact_index(rs.drop_last(), addr);
        assert forall|j: int| 0 <= j < exact_index(rs, addr) implies rs[j].0 != addr by {
            if j < rs.len() - 1 {
                assert(rs[j] == rs.drop_last()[j]);
            }
        }
    }
}

pub(crate) proof fn lemma_exact_index_is(rs: Seq<(u64, Seq<u8>)>, addr: u64, i: int)
    requires
        0 <= i <= rs.len(),
        forall|j: int| 0 <= j < i ==> rs[j].0 != addr,
        i < rs.len() ==> rs[i].0 == addr,
    ensures
        exact_index(rs, addr) == i,
    decreases rs.len(),
{
    lemma_exact_index(rs, addr);
    if rs.len() > 0 {
        if i < rs.len() - 1 {
            lemma_exact_index_is(rs.drop_last(), addr, i);
        } else {
            lemma_exact_index_is(rs.drop_last(), addr, rs.len() - 1);
        }
    }
}

pub(crate) proof fn lemma_cover_index(rs: Seq<(u64, Seq<u8>)>, addr: u64)
    ensures
        0 <= cover_index(rs, addr) <= rs.len(),
        cover_index(rs, addr) < rs.len() ==> covers(rs[cover_index(rs, addr)], addr),
        forall|j: int| 0 <= j < cover_index(rs, addr) ==> !covers(rs[j], addr),
    decreases rs.len(),
{
    if rs.len() > 0 {
        lemma_cover_index(rs.drop_last(), addr);
        assert forall|j: int| 0 <= j < cover_index(rs, addr) implies !covers(rs[j], addr) by {
            if j < rs.len() - 1 {
                assert(rs[j] == rs.drop_last()[j]);
            }
        }
    }
}

pub(crate) proof fn lemma_cover_index_is(rs: Seq<(u64, Seq<u8>)>, addr: u64, i: int)
    requires
        0 <= i <= rs.len(),
        forall|j: int| 0 <= j < i ==> !covers(rs[j], addr),
        i < rs.len() ==> covers(rs[i], addr),
    ensures
        cover_index(rs, addr) == i,
    decreases rs.len(),
{
    lemma_cover_index(rs, addr);
    if rs.len() > 0 {
        if i < rs.len() - 1 {
            lemma_cover_index_is(rs.drop_last(), addr, i);
        } else {
            lemma_cover_index_is(rs.drop_last(), addr, rs.len() - 1);
        }
    }
}

/// `len` bytes of `d` from `off` on, zero-padded.
fn window_exec(d: &[u8], off: usize, len: usize) -> (r: Vec<u8>)
    requires
        off <= d@.len(),
    ensures
        r@ == window(d@, off as int, len as nat),
{
    let mut r: Vec<u8> = Vec::new();
    let dl = d.len();
    let avail = dl - off;
    let mut j: usize = 0;
    while j < len
        invariant
            dl == d@.len(),
            off <= d@.len(),
            avail == d@.len() - off,
            j <= len,
            r@ =~= window(d@, off as int, len as nat).subrange(0, j as int),
        decreases len - j,
    {
        if j < avail {
            assert(off + j < d@.len());
            r.push(d[off + j]);
        } else {
            r.push(0u8);
        }
        j = j + 1;
    }
    r
}

/// Replace the bytes of `d` from `off` on with `src`, as far as `d` reaches.
fn overlay_exec(d: &mut Vec<u8>, off: usize, src: &[u8])
    requires
        off <= old(d)@.len(),
    ensures
        final(d)@ == overlay(old(d)@, off as int, src@),
{
    let dl = d.len();
    let room = dl - off;
    let n = if src.len() < room {
        src.len()
    } else {
        room
    };
    let mut j: usize = 0;
    while j < n
        invariant
            dl == d@.len(),
            off + n <= d@.len(),
            n <= src@.len(),
            d@.len() == old(d)@.len(),
            n == (if src@.len() < old(d)@.len() - off { src@.len() as int } else { old(d)@.len() - off }),
            j <= n,
            forall|k: int| 0 <= k < d@.len() ==> d@[k] == (if off <= k < off + j { src@[k - off] } else {
                old(d)@[k]
            }),
        decreases n - j,
    {
        assert(off + j < d@.len());
        d.set(off + j, src[j]);
        j = j + 1;
    }
    assert(d@ =~= overlay(old(d)@, off as int, src@));
}

/// Pre-populated register store for the fake camera.
pub struct RegisterMap {
    regs: Vec<(u64, Vec<u8>)>,
    xml_blob: Vec<u8>,
}

/// Registers as `(address, bytes)` pairs.
pub open spec fn regs_of(v: Seq<(u64, Vec<u8>)>) -> Seq<(u64, Seq<u8>)> {
    v.map_values(|e: (u64, Vec<u8>)| (e.0, e.1@))
}

/// `Local:fake.xml;10000;`
pub open spec fn url_prefix() -> Seq<u8> {
    seq![76u8, 111, 99, 97, 108, 58, 102, 97, 107, 101, 46, 120, 109, 108, 59, 49, 48, 48, 48, 48, 59]
}

/// The URL of the XML blob of `n` bytes, NUL-terminated and padded with zeros to the register length.
pub open spec fn url_block(n: nat) -> Seq<u8> {
    let u = url_prefix() + hex_digits_lower(n) + seq![0u8];
    u + Seq::new((URL_REG_LEN - u.len()) as nat, |i: int| 0u8)
}

/// The registers of a fresh camera with the given image size and an XML blob of `n` bytes.
pub open spec fn initial_regs(width: u32, height: u32, n: nat) -> Seq<(u64, Seq<u8>)> {
    seq![
        (CCP, be_bytes(0, 4)),
        (HEARTBEAT_TIMEOUT, be_bytes(3000, 4)),
        ((STREAM_CHANNEL_BASE + SCP_HOST_PORT) as u64, be_bytes(0, 4)),
        ((STREAM_CHANNEL_BASE + SCP_PACKET_SIZE) as u64, be_bytes(1500, 4)),
        ((STREAM_CHANNEL_BASE + SCP_PACKET_DELAY) as u64, be_bytes(0, 4)),
        ((STREAM_CHANNEL_BASE + SCP_DEST_ADDR) as u64, be_bytes(0, 4)),
        (0x20000u64, be_bytes(width as nat, 4)),
        (0x20004u64, be_bytes(height as nat, 4)),
        (0x20008u64, be_bytes(MONO8 as nat, 4)),
        (0x20010u64, be_bytes(DEFAULT_EXPOSURE_BITS as nat, 8)),
        (0x20018u64, be_bytes(0, 8)),
        (0x20020u64, be_bytes(0, 4)),
        (0x20024u64, be_bytes(0, 4)),
        (0x20100u64, be_bytes(16, 4)),
        (0x20104u64, be_bytes(4096, 4)),
        (0x20108u64, be_bytes(16, 4)),
        (0x2010cu64, be_bytes(4096, 4)),
        (FIRST_URL_REG, url_block(n)),
    ]
}

/// `16` raised to the power `k`.
pub open spec fn pow16(k: nat) -> nat
    decreases k,
{
    if k == 0 {
        1
    } else {
        16 * pow16((k - 1) as nat)
    }
}

/// A value below `16^k` has at most `k` hexadecimal digits.
proof fn lemma_hex_len(v: nat, k: nat)
    requires
        1 <= k,
        v < pow16(k),
    ensures
        1 <= hex_digits_lower(v).len() <= k,
    decreases v,
{
    if v >= 16 {
        if k == 1 {
            assert(pow16(1) == 16 * pow16(0));
        } else {
            assert(v / 16 < pow16((k - 1) as nat));
            lemma_hex_len(v / 16, (k - 1) as nat);
        }
    }
}

impl RegisterMap {
    /// The registers, as `(address, bytes)` pairs in the order they were created.
    pub closed spec fn regs_view(&self) -> Seq<(u64, Seq<u8>)> {
        regs_of(self.regs@)
    }

    /// The XML blob served from `XML_BLOB_BASE`.
    pub closed spec fn blob(&self) -> Seq<u8> {
        self.xml_blob@
    }

    /// Create a register map with default values for an image of `width` by `height`.
    pub fn new(width: u32, height: u32) -> (m: RegisterMap)
        ensures
            m.blob() == FAKE_XML.spec_bytes(),
            m.regs_view() == initial_regs(width, height, m.blob().len()),
    {
        let mut regs: Vec<(u64, Vec<u8>)> = Vec::new();
        regs.push((CCP, be_encode(0, 4)));
        regs.push((HEARTBEAT_TIMEOUT, be_encode(3000, 4)));
        regs.push((STREAM_CHANNEL_BASE + SCP_HOST_PORT, be_encode(0, 4)));
        regs.push((STREAM_CHANNEL_BASE + SCP_PACKET_SIZE, be_encode(1500, 4)));
        regs.push((STREAM_CHANNEL_BASE + SCP_PACKET_DELAY, be_encode(0, 4)));
        regs.push((STREAM_CHANNEL_BASE + SCP_DEST_ADDR, be_encode(0, 4)));
        regs.push((0x20000, be_encode(width as u64, 4)));
        regs.push((0x20004, be_encode(height as u64, 4)));
        regs.push((0x20008, be_encode(MONO8 as u64, 4)));
        regs.push((0x20010, be_encode(DEFAULT_EXPOSURE_BITS, 8)));
        regs.push((0x20018, be_encode(0, 8)));
        regs.push((0x20020, be_encode(0, 4)));
        regs.push((0x20024, be_encode(0, 4)));
        regs.push((0x20100, be_encode(16, 4)));
        regs.push((0x20104, be_encode(4096, 4)));
        regs.push((0x20108, be_encode(16, 4)));
        regs.push((0x2010c, be_encode(4096, 4)));
        let xml_blob = vstd::slice::slice_to_vec(FAKE_XML.as_bytes());
        let prefix: [u8; 21] = [
            76, 111, 99, 97, 108, 58, 102, 97, 107, 101, 46, 120, 109, 108, 59, 49, 48, 48, 48, 48, 59,
        ];
        assert(prefix@ =~= url_prefix());
        let mut url: Vec<u8> = Vec::new();
        url.extend_from_slice(prefix.as_slice());
        push_hex_lower(&mut url, xml_blob.len() as u64);
        url.push(0u8);
        proof {
            assert(pow16(16) == 0x1_0000_0000_0000_0000) by {
                reveal_with_fuel(pow16, 17);
            }
            lemma_hex_len(xml_blob@.len(), 16);
            assert(url@ =~= url_prefix() + hex_digits_lower(xml_blob@.len()) + seq![0u8]);
        }
        let ghost u = url@;
        while url.len() < URL_REG_LEN
            invariant
                u.len() <= url@.len() <= URL_REG_LEN,
                url@ =~= u + Seq::new((url@.len() - u.len()) as nat, |i: int| 0u8),
            decreases URL_REG_LEN - url@.len(),
        {
            url.push(0u8);
        }
        regs.push((FIRST_URL_REG, url));
        let m = RegisterMap { regs, xml_blob };
        assert(m.regs_view() =~= initial_regs(width, height, m.blob().len()));
        m
    }

    /// The byte at `a`.
    fn byte_at_exec(&self, a: u64) -> (b: u8)
        ensures
            b == byte_at(self.blob(), self.regs_view(), a as int),
    {
        if a >= XML_BLOB_BASE && a - XML_BLOB_BASE < self.xml_blob.len() as u64 {
            return self.xml_blob[(a - XML_BLOB_BASE) as usize];
        }
        let ghost rs = self.regs_view();
        let mut k: usize = 0;
        while k < self.regs.len()
            invariant
                k <= self.regs@.len(),
                rs == regs_of(self.regs@),
                !in_blob(self.xml_blob@, a),
                forall|j: int| 0 <= j < k ==> !covers(rs[j], a),
            decreases self.regs@.len() - k,
        {
            let reg_addr = self.regs[k].0;
            if a >= reg_addr && a - reg_addr < self.regs[k].1.len() as u64 {
                proof {
                    lemma_cover_index_is(rs, a, k as int);
                }
                return self.regs[k].1[(a - reg_addr) as usize];
            }
            k = k + 1;
        }
        proof {
            lemma_cover_index_is(rs, a, k as int);
        }
        0
    }

    /// Read `len` bytes starting at `addr`.
    pub fn read(&self, addr: u64, len: usize) -> (r: Vec<u8>)
        ensures
            r@ == spec_read(self.blob(), self.regs_view(), addr, len as nat),
    {
        let mut r: Vec<u8> = Vec::new();
        let mut j: usize = 0;
        while j < len
            invariant
                j <= len,
                r@.len() == j,
                forall|i: int| 0 <= i < j ==> r@[i] == byte_at(self.blob(), self.regs_view(), addr + i),
            decreases len - j,
        {
            let b = match addr.checked_add(j as u64) {
                Some(a) => self.byte_at_exec(a),
                None => 0u8,
            };
            r.push(b);
            j = j + 1;
        }
        assert(r@ =~= spec_read(self.blob(), self.regs_view(), addr, len as nat));
        r
    }

    /// Write `data` starting at `addr`.
    pub fn write(&mut self, addr: u64, data: &[u8])
        ensures
            final(self).regs_view() == spec_write(old(self).regs_view(), addr, data@),
            final(self).blob() == old(self).blob(),
    {
        let ghost rs = self.regs_view();
        let mut i: usize = 0;
        while i < self.regs.len()
            invariant
                i <= self.regs@.len(),
                self.regs@ == old(self).regs@,
                self.xml_blob@ == old(self).xml_blob@,
                rs == regs_of(self.regs@),
                forall|j: int| 0 <= j < i ==> rs[j].0 != addr,
            decreases self.regs@.len() - i,
        {
            if self.regs[i].0 == addr {
                proof {
                    lemma_exact_index_is(rs, addr, i as int);
                }
                let mut entry = self.regs.remove(i);
                overlay_exec(&mut entry.1, 0, data);
                self.regs.insert(i, entry);
                assert(self.regs_view() =~= spec_write(rs, addr, data@));
                return;
            }
            i = i + 1;
        }
        proof {
            lemma_exact_index_is(rs, addr, i as int);
        }
        let mut k: usize = 0;
        while k < self.regs.len()
            invariant
                k <= self.regs@.len(),
                self.regs@ == old(self).regs@,
                self.xml_blob@ == old(self).xml_blob@,
                rs == regs_of(self.regs@),
                exact_index(rs, addr) == rs.len(),
                forall|j: int| 0 <= j < k ==> !covers(rs[j], addr),
            decreases self.regs@.len() - k,
        {
            let reg_addr = self.regs[k].0;
            if addr >= reg_addr && addr - reg_addr < self.regs[k].1.len() as u64 {
                proof {
                    lemma_cover_index_is(rs, addr, k as int);
                }
                let mut entry = self.regs.remove(k);
                overlay_exec(&mut entry.1, (addr - reg_addr) as usize, data);
                self.regs.insert(k, entry);
                assert(self.regs_view() =~= spec_write(rs, addr, data@));
                return;
            }
            k = k + 1;
        }
        proof {
            lemma_cover_index_is(rs, addr, k as int);
        }
        self.regs.push((addr, vstd::slice::slice_to_vec(data)));
        assert(self.regs_view() =~= spec_write(rs, addr, data@));
    }

    /// The stream destination address, most significant octet first.
    pub fn stream_dest_ip(&self) -> (ip: [u8; 4])
        ensures
            ip@ == spec_read(
                self.blob(),
                self.regs_view(),
                (STREAM_CHANNEL_BASE + SCP_DEST_ADDR) as u64,
                4,
            ),
    {
        let data = self.read(STREAM_CHANNEL_BASE + SCP_DEST_ADDR, 4);
        let ip = [data[0], data[1], data[2], data[3]];
        assert(ip@ =~= data@);
        ip
    }

    /// The stream destination port (the low two bytes of the host port register).
    pub fn stream_dest_port(&self) -> (p: u16)
        ensures
            p as nat == be_value(spec_read(
                self.blob(),
                self.regs_view(),
                (STREAM_CHANNEL_BASE + SCP_HOST_PORT) as u64,
                4,
            ).subrange(2, 4)),
    {
        let data = self.read(STREAM_CHANNEL_BASE + SCP_HOST_PORT, 4);
        let v = be_decode(data.as_slice(), 2, 4);
        proof {
            crate::wire::lemma_be_value_bound(data@.subrange(2, 4));
            crate::wire::lemma_pow256_values();
        }
        v as u16
    }

    /// The stream packet size.
    pub fn stream_packet_size(&self) -> (s: u32)
        ensures
            s as nat == be_value(spec_read(
                self.blob(),
                self.regs_view(),
                (STREAM_CHANNEL_BASE + SCP_PACKET_SIZE) as u64,
                4,
            )),
    {
        let data = self.read(STREAM_CHANNEL_BASE + SCP_PACKET_SIZE, 4);
        self.u32_of(data)
    }

    fn u32_of(&self, data: Vec<u8>) -> (v: u32)
        requires
            data@.len() == 4,
        ensures
            v as nat == be_value(data@),
    {
        proof {
            crate::wire::lemma_be_value_bound(data@);
            crate::wire::lemma_pow256_values();
        }
        assert(data@.subrange(0, 4) =~= data@);
        be_decode(data.as_slice(), 0, 4) as u32
    }

    /// The image width from the feature registers.
    pub fn width(&self) -> (w: u32)
        ensures
            w as nat == be_value(spec_read(self.blob(), self.regs_view(), 0x20000, 4)),
    {
        let data = self.read(0x20000, 4);
        self.u32_of(data)
    }

    /// The image height from the feature registers.
    pub fn height(&self) -> (h: u32)
        ensures
            h as nat == be_value(spec_read(self.blob(), self.regs_view(), 0x20004, 4)),
    {
        let data = self.read(0x20004, 4);
        self.u32_of(data)
    }

    /// The pixel format code from the feature registers.
    pub fn pixel_format_code(&self) -> (c: u32)
        ensures
            c as nat == be_value(spec_read(self.blob(), self.regs_view(), 0x20008, 4)),
    {
        let data = self.read(0x20008, 4);
        self.u32_of(data)
    }
}

// ---------------------------------------------------------------------------
// Command line
// ---------------------------------------------------------------------------

/// Message for a MAC address without six fields.
pub open spec fn six_bytes_msg(s: Seq<char>) -> Seq<char> {
    "expected six hex bytes, got '"@ + s + "'"@
}

/// Message for a MAC address field that is not a hexadecimal byte.
pub open spec fn hex_byte_msg(part: Seq<u8>) -> Seq<char> {
    "invalid hex byte '"@ + utf8_lossy(part) + "'"@
}

/// Parse `AA:BB:CC:DD:EE:FF` (either case, `:` or `-` separated).
pub fn parse_mac(s: &str) -> (r: Result<[u8; 6], String>)
    ensures
        ({
            let f = split_fields(s.spec_bytes(), 58, 45);
            if f.len() != 6 {
                r matches Err(m) && m@ == six_bytes_msg(s@)
            } else if first_bad_byte(f, 0) < 6 {
                r matches Err(m) && m@ == hex_byte_msg(f[first_bad_byte(f, 0)])
            } else {
                r matches Ok(mac) && mac@ == mac_of_fields(f)
            }
        }),
{
    let parts = split_bytes(s.as_bytes(), 58, 45);
    if parts.len() != 6 {
        let mut msg = String::from_str("expected six hex bytes, got '");
        msg.append(s);
        msg.append("'");
        return Err(msg);
    }
    proof {
        lemma_first_bad_byte(views(parts@), 0);
    }
    match parse_six_fields(&parts) {
        FieldsOutcome::Bytes(mac) => Ok(mac),
        FieldsOutcome::BadField(i) => {
            assert(views(parts@)[i as int] == parts@[i as int]@);
            let mut msg = String::from_str("invalid hex byte '");
            let part = lossy_string(parts[i].as_slice());
            msg.append(part.as_str());
            msg.append("'");
            Err(msg)
        },
    }
}

// ---------------------------------------------------------------------------
// Laws
// ---------------------------------------------------------------------------

/// The `len` bytes from `addr` on lie outside the XML blob and in no register, and no
/// register starts at `addr`.
pub open spec fn span_free(blob: Seq<u8>, rs: Seq<(u64, Seq<u8>)>, addr: u64, len: nat) -> bool {
    &&& addr + len <= u64::MAX + 1
    &&& exact_index(rs, addr) == rs.len()
    &&& forall|j: int| 0 <= j < len ==> !in_blob(blob, (addr + j) as u64) && #[trigger] cover_index(rs, (addr + j) as u64) == rs.len()
}

/// The `len` bytes from `addr` on lie outside the XML blob, in the register that starts at
/// `addr` and in no register before it.
pub open spec fn span_in_register(blob: Seq<u8>, rs: Seq<(u64, Seq<u8>)>, addr: u64, len: nat) -> bool {
    &&& addr + len <= u64::MAX + 1
    &&& exact_index(rs, addr) < rs.len()
    &&& forall|j: int| 0 <= j < len ==> !in_blob(blob, (addr + j) as u64) && #[trigger] cover_index(rs, (addr + j) as u64) == exact_index(rs, addr)
}

/// Writing `data` where no register and no XML byte lives creates a register there,
/// and reading as many bytes back gives `data`.
pub proof fn lemma_write_new_register_reads_back(
    blob: Seq<u8>,
    rs: Seq<(u64, Seq<u8>)>,
    addr: u64,
    data: Seq<u8>,
)
    requires
        span_free(blob, rs, addr, data.len()),
    ensures
        spec_read(blob, spec_write(rs, addr, data), addr, data.len()) == data,
{
    let rs2 = spec_write(rs, addr, data);
    if data.len() > 0 {
        assert(cover_index(rs, (addr + 0) as u64) == rs.len());
        assert(rs2 == rs.push((addr, data)));
        assert forall|j: int| 0 <= j < data.len() implies #[trigger] spec_read(blob, rs2, addr, data.len())[j] == data[j] by {
            let a = (addr + j) as u64;
            assert(cover_index(rs, a) == rs.len());
            lemma_cover_index(rs, a);
            assert forall|k: int| 0 <= k < rs.len() implies !covers(rs2[k], a) by {
                assert(rs2[k] == rs[k]);
            }
            lemma_cover_index_is(rs2, a, rs.len() as int);
        }
    }
    assert(spec_read(blob, rs2, addr, data.len()) =~= data);
}

/// Writing `data` at the start of a register at least as long, where no other register
/// and no XML byte lives, overwrites its first bytes: reading as many bytes back gives `data`.
pub proof fn lemma_write_register_reads_back(
    blob: Seq<u8>,
    rs: Seq<(u64, Seq<u8>)>,
    addr: u64,
    data: Seq<u8>,
)
    requires
        span_in_register(blob, rs, addr, data.len()),
        data.len() <= rs[exact_index(rs, addr)].1.len(),
    ensures
        spec_read(blob, spec_write(rs, addr, data), addr, data.len()) == data,
{
    let e = exact_index(rs, addr);
    let rs2 = spec_write(rs, addr, data);
    lemma_exact_index(rs, addr);
    assert(rs2 == rs.update(e, (addr, overlay(rs[e].1, 0, data))));
    assert forall|j: int| 0 <= j < data.len() implies #[trigger] spec_read(blob, rs2, addr, data.len())[j] == data[j] by {
        let a = (addr + j) as u64;
        assert(cover_index(rs, a) == e);
        lemma_cover_index(rs, a);
        assert forall|k: int| 0 <= k < e implies !covers(rs2[k], a) by {
            assert(rs2[k] == rs[k]);
        }
        assert(covers(rs2[e], a));
        lemma_cover_index_is(rs2, a, e);
    }
    assert(spec_read(blob, rs2, addr, data.len()) =~= data);
}

/// In a fresh camera the four bytes at the register `rs[i]`, which starts at `addr`, lie in
/// it alone.
proof fn lemma_initial_register_bytes(width: u32, height: u32, n: nat, blob: Seq<u8>, i: int, addr: u64)
    requires
        blob.len() == n,
        n <= 0x1_0000,
        6 <= i <= 8,
        addr == 0x20000 + 4 * (i - 6),
    ensures
        spec_read(blob, initial_regs(width, height, n), addr, 4) == initial_regs(width, height, n)[i].1,
{
    let rs = initial_regs(width, height, n);
    crate::wire::lemma_be_bytes_len(width as nat, 4);
    crate::wire::lemma_be_bytes_len(height as nat, 4);
    crate::wire::lemma_be_bytes_len(MONO8 as nat, 4);
    crate::wire::lemma_be_bytes_len(0, 4);
    crate::wire::lemma_be_bytes_len(3000, 4);
    crate::wire::lemma_be_bytes_len(1500, 4);
    assert forall|j: int| 0 <= j < 4 implies #[trigger] spec_read(blob, rs, addr, 4)[j] == rs[i].1[j] by {
        let a = (addr + j) as u64;
        assert forall|k: int| 0 <= k < i implies !covers(rs[k], a) by {}
        assert(covers(rs[i], a));
        lemma_cover_index_is(rs, a, i);
    }
    assert(spec_read(blob, rs, addr, 4) =~= rs[i].1);
}

/// A fresh camera reports the image size and pixel format it was made with,
/// as long as its XML blob does not reach the feature registers.
pub proof fn lemma_new_feature_registers(width: u32, height: u32, n: nat, blob: Seq<u8>)
    requires
        blob.len() == n,
        n <= 0x1_0000,
    ensures
        be_value(spec_read(blob, initial_regs(width, height, n), 0x20000, 4)) == width,
        be_value(spec_read(blob, initial_regs(width, height, n), 0x20004, 4)) == height,
        be_value(spec_read(blob, initial_regs(width, height, n), 0x20008, 4)) == MONO8,
{
    crate::wire::lemma_pow256_values();
    lemma_initial_register_bytes(width, height, n, blob, 6, 0x20000);
    lemma_initial_register_bytes(width, height, n, blob, 7, 0x20004);
    lemma_initial_register_bytes(width, height, n, blob, 8, 0x20008);
    crate::wire::lemma_be_value_of_bytes(width as nat, 4);
    crate::wire::lemma_be_value_of_bytes(height as nat, 4);
    crate::wire::lemma_be_value_of_bytes(MONO8 as nat, 4);
    vstd::arithmetic::div_mod::lemma_small_mod(width as nat, pow256_4());
    vstd::arithmetic::div_mod::lemma_small_mod(height as nat, pow256_4());
    vstd::arithmetic::div_mod::lemma_small_mod(MONO8 as nat, pow256_4());
}

spec fn pow256_4() -> nat {
    crate::wire::pow256(4)
}

} // verus!
