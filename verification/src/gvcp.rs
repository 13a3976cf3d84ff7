//! GVCP control path: request headers, discovery acknowledgements, memory access payloads,
//! stream channel registers, event masks and packet resend requests.
use vstd::prelude::*;
use crate::text::{first_index, find_byte, lossy_string, trim, trimmed, utf8_lossy};
use crate::url::cstring_text;
use crate::wire::{be_bytes, be_decode, be_value, put_be};

verus! {

/// GVCP well-known port.
pub const GVCP_PORT: u16 = 3956;
/// Discovery command code.
pub const DISCOVERY_COMMAND: u16 = 0x0002;
/// Discovery acknowledge code.
pub const DISCOVERY_ACK: u16 = 0x0003;
/// Packet resend command code.
pub const PACKET_RESEND_COMMAND: u16 = 0x0040;
/// Packet resend acknowledge code.
pub const PACKET_RESEND_ACK: u16 = 0x0041;
/// Control channel privilege register.
pub const CONTROL_CHANNEL_PRIVILEGE: u64 = 0x0a00;
/// Control bit of the privilege register.
pub const CCP_CONTROL: u32 = 2;
/// Message channel destination address register.
pub const MESSAGE_DESTINATION_ADDRESS: u64 = 0x0900_0200;
/// Message channel destination port register.
pub const MESSAGE_DESTINATION_PORT: u64 = 0x0900_0204;
/// First event notification mask register.
pub const EVENT_NOTIFICATION_BASE: u64 = 0x0900_0300;
/// Distance between event notification mask registers.
pub const EVENT_NOTIFICATION_STRIDE: u64 = 4;
/// Largest block moved by one memory command.
pub const GENCP_MAX_BLOCK: usize = 512;
/// Address prefix of a memory write command.
pub const GVCP_WRITE_OVERHEAD: usize = 4;
/// First stream channel register block.
pub const STREAM_CHANNEL_BASE: u64 = 0x0d00;
/// Distance between stream channel register blocks.
pub const STREAM_CHANNEL_STRIDE: u64 = 0x40;
/// Stream destination port, relative to a channel block.
pub const STREAM_DESTINATION_PORT: u64 = 0x00;
/// Stream packet size, relative to a channel block.
pub const STREAM_PACKET_SIZE: u64 = 0x04;
/// Stream packet delay, relative to a channel block.
pub const STREAM_PACKET_DELAY: u64 = 0x08;
/// Stream destination address, relative to a channel block.
pub const STREAM_DESTINATION_ADDRESS: u64 = 0x18;
/// GVCP command message key (first byte of every command packet).
pub const GVCP_CMD_KEY: u8 = 0x42;
/// Block size of a memory write: the largest block less the address prefix.
pub const WRITE_MEM_BLOCK: usize = 508;
/// Attempts made for one control transaction before giving up.
pub const MAX_RETRIES: usize = 4;
/// Base delay of the retry backoff, in milliseconds.
pub const RETRY_BASE_DELAY_MS: u64 = 20;
/// Largest random jitter added to a retry delay, in milliseconds.
pub const RETRY_JITTER_MS: u64 = 10;
/// Timeout of one control transaction, in milliseconds.
pub const CONTROL_TIMEOUT_MS: u64 = 500;

/// Size of GVCP command and acknowledge headers.
pub const HEADER_SIZE: usize = 8;

/// Errors of the GVCP control path.
#[derive(Debug)]
pub enum GigeError {
    /// The socket failed; the text is the system's message.
    Io(String),
    Protocol(String),
    Timeout,
    /// The acknowledge could not be decoded; the text says why.
    GenCp(String),
    /// The device answered with this non-success status.
    Status(u16),
}

// ---------------------------------------------------------------------------
// Request header
// ---------------------------------------------------------------------------

/// Request flags.
#[derive(Debug, Clone, Copy, PartialEq, Eq, Structural)]
pub struct CommandFlags {
    /// The device must acknowledge the request.
    pub ack_required: bool,
    /// The request is broadcast.
    pub broadcast: bool,
}

/// GVCP request header.
#[derive(Debug, Clone, Copy, PartialEq, Eq, Structural)]
pub struct GvcpRequestHeader {
    /// Request flags (acknowledgement, broadcast).
    pub flags: CommandFlags,
    /// Raw command/opcode value.
    pub command: u16,
    /// Payload length in bytes.
    pub length: u16,
    /// Request identifier.
    pub request_id: u16,
}

/// The flag byte: bit 0 asks for an acknowledge, bit 4 marks a broadcast.
pub open spec fn flags_byte(f: CommandFlags) -> u8 {
    ((if f.ack_required { 0x01int } else { 0 }) + (if f.broadcast { 0x10int } else { 0 })) as u8
}

/// The encoded command: key, flag byte, then command, length and request id big-endian, then the payload.
pub open spec fn request_bytes(h: GvcpRequestHeader, payload: Seq<u8>) -> Seq<u8> {
    seq![GVCP_CMD_KEY, flags_byte(h.flags)] + be_bytes(h.command as nat, 2) + be_bytes(
        h.length as nat,
        2,
    ) + be_bytes(h.request_id as nat, 2) + payload
}

impl GvcpRequestHeader {
    /// Encode the header followed by `payload`, ready to be transmitted.
    pub fn encode(self, payload: &[u8]) -> (b: Vec<u8>)
        ensures
            b@ == request_bytes(self, payload@),
    {
        let mut buf: Vec<u8> = Vec::new();
        buf.push(GVCP_CMD_KEY);
        buf.push(self.gvcp_flags_byte());
        put_be(&mut buf, self.command as u64, 2);
        put_be(&mut buf, self.length as u64, 2);
        put_be(&mut buf, self.request_id as u64, 2);
        buf.extend_from_slice(payload);
        assert(buf@ =~= request_bytes(self, payload@));
        buf
    }

    /// The single-byte GVCP flag field.
    pub fn gvcp_flags_byte(&self) -> (b: u8)
        ensures
            b == flags_byte(self.flags),
    {
        let mut byte: u8 = 0;
        if self.flags.ack_required {
            byte = byte + 0x01;
        }
        if self.flags.broadcast {
            byte = byte + 0x10;
        }
        byte
    }
}

// ---------------------------------------------------------------------------
// Discovery
// ---------------------------------------------------------------------------

/// Information returned by GVCP discovery packets.
#[derive(Debug, Clone)]
pub struct DeviceInfo {
    /// IPv4 address, most significant octet first.
    pub ip: [u8; 4],
    pub mac: [u8; 6],
    pub model: Option<String>,
    pub manufacturer: Option<String>,
}

/// A fixed-size string field: the text before the first NUL, trimmed; `None` when empty.
pub open spec fn fixed_string(b: Seq<u8>) -> Option<Seq<char>> {
    if cstring_text(b).len() == 0 {
        None
    } else {
        Some(utf8_lossy(cstring_text(b)))
    }
}

/// The text of a NUL-padded string field, trimmed; `None` when nothing is left.
pub fn parse_string(bytes: &[u8]) -> (r: Option<String>)
    ensures
        match fixed_string(bytes@) {
            Some(t) => r matches Some(s) && s@ == t,
            None => r is None,
        },
{
    crate::url::first_cstring(bytes)
}

/// Read the string field of `len` bytes at `pos`; the position moves past it.
pub fn read_fixed_string(buf: &[u8], pos: &mut usize, len: usize) -> (r: Result<Option<String>, GigeError>)
    requires
        *old(pos) <= buf@.len(),
    ensures
        old(pos) + len > buf@.len() ==> (r matches Err(GigeError::Protocol(m)) && m@
            == "discovery string truncated"@ && *final(pos) == *old(pos)),
        old(pos) + len <= buf@.len() ==> *final(pos) == old(pos) + len && match fixed_string(
            buf@.subrange(*old(pos) as int, old(pos) + len),
        ) {
            Some(t) => r matches Ok(Some(s)) && s@ == t,
            None => r matches Ok(None),
        },
{
    if buf.len() - *pos < len {
        return Err(GigeError::Protocol(String::from_str("discovery string truncated")));
    }
    let field = vstd::slice::slice_subrange(buf, *pos, *pos + len);
    *pos = *pos + len;
    Ok(parse_string(field))
}

/// What `parse_discovery_payload` finds: the MAC at 12, the IP at 36, the manufacturer at 72
/// and the model at 104, or the error for a payload too short to hold them.
pub open spec fn spec_discovery_payload(p: Seq<u8>, r: Result<DeviceInfo, GigeError>) -> bool {
    if p.len() < 40 {
        r matches Err(GigeError::Protocol(m)) && m@ == "discovery payload too small"@
    } else if p.len() < 136 {
        r matches Err(GigeError::Protocol(m)) && m@ == "discovery string truncated"@
    } else {
        r matches Ok(info) && info.mac@ == p.subrange(12, 18) && info.ip@ == p.subrange(36, 40)
            && match fixed_string(p.subrange(72, 104)) {
            Some(t) => info.manufacturer matches Some(s) && s@ == t,
            None => info.manufacturer is None,
        } && match fixed_string(p.subrange(104, 136)) {
            Some(t) => info.model matches Some(s) && s@ == t,
            None => info.model is None,
        }
    }
}

/// Parse a discovery acknowledge payload.
pub fn parse_discovery_payload(payload: &[u8]) -> (r: Result<DeviceInfo, GigeError>)
    requires
        !(40 <= payload@.len() < 72),
    ensures
        spec_discovery_payload(payload@, r),
{
    if payload.len() < 40 {
        return Err(GigeError::Protocol(String::from_str("discovery payload too small")));
    }
    let mut mac: [u8; 6] = [0u8; 6];
    let mut i: usize = 0;
    while i < 6
        invariant
            payload@.len() >= 40,
            i <= 6,
            forall|j: int| 0 <= j < i ==> mac@[j] == payload@[12 + j],
        decreases 6 - i,
    {
        mac[i] = payload[12 + i];
        i = i + 1;
    }
    assert(mac@ =~= payload@.subrange(12, 18));
    let ip: [u8; 4] = [payload[36], payload[37], payload[38], payload[39]];
    assert(ip@ =~= payload@.subrange(36, 40));
    let mut pos: usize = 72;
    let manufacturer = match read_fixed_string(payload, &mut pos, 32) {
        Ok(m) => m,
        Err(e) => return Err(e),
    };
    let model = match read_fixed_string(payload, &mut pos, 32) {
        Ok(m) => m,
        Err(e) => return Err(e),
    };
    Ok(DeviceInfo { ip, mac, model, manufacturer })
}

/// What `parse_discovery_ack` makes of an acknowledge answering `expected` (header big-endian).
pub open spec fn spec_discovery_ack(b: Seq<u8>, expected: u16, r: Result<Option<DeviceInfo>, GigeError>) -> bool {
    let status = be_value(b.subrange(0, 2));
    let command = be_value(b.subrange(2, 4));
    let length = be_value(b.subrange(4, 6));
    let request_id = be_value(b.subrange(6, 8));
    if b.len() < 8 {
        r matches Err(GigeError::Protocol(m)) && m@ == "GVCP ack too short"@
    } else if request_id != expected {
        r matches Ok(None)
    } else if command != DISCOVERY_ACK {
        r matches Err(GigeError::Protocol(m)) && m@ == "unexpected discovery opcode 0x"@
            + hex4(command)
    } else if status != 0 {
        r matches Err(GigeError::Protocol(m)) && m@ == "discovery returned status 0x"@ + hex4(status)
    } else if b.len() < 8 + length {
        r matches Err(GigeError::Protocol(m)) && m@ == "discovery payload truncated"@
    } else {
        match r {
            Ok(Some(info)) => spec_discovery_payload(b.subrange(8, 8 + length as int), Ok(info)),
            Ok(None) => false,
            Err(e) => spec_discovery_payload(b.subrange(8, 8 + length as int), Err(e)),
        }
    }
}

/// Four lower-case hexadecimal digits of a 16-bit value.
pub open spec fn hex4(v: nat) -> Seq<char> {
    Seq::new(4, |i: int| hex_char((v / pow16_of(3 - i)) % 16))
}

/// `16` raised to `k` for `k` up to three.
pub open spec fn pow16_of(k: int) -> nat {
    if k <= 0 {
        1
    } else if k == 1 {
        16
    } else if k == 2 {
        256
    } else {
        4096
    }
}

/// Lower-case hexadecimal digit.
pub open spec fn hex_char(d: nat) -> char {
    if d < 10 {
        ((48 + d) as u8) as char
    } else {
        ((87 + d) as u8) as char
    }
}

fn hex4_string(v: u16) -> (s: String)
    ensures
        s@ == hex4(v as nat),
{
    let mut buf: Vec<u8> = Vec::new();
    let mut k: usize = 0;
    while k < 4
        invariant
            k <= 4,
            buf@.len() == k,
            forall|j: int| 0 <= j < k ==> (buf@[j] as char) == hex4(v as nat)[j],
            forall|j: int| 0 <= j < k ==> #[trigger] buf@[j] < 128,
        decreases 4 - k,
    {
        let p: u16 = if k == 0 {
            4096
        } else if k == 1 {
            256
        } else if k == 2 {
            16
        } else {
            1
        };
        let d = (v / p) % 16;
        let c: u8 = if d < 10 {
            48 + d as u8
        } else {
            87 + d as u8
        };
        buf.push(c);
        k = k + 1;
    }
    proof {
        assert forall|j: int| 0 <= j < buf@.len() implies buf@[j] < 128 by {}
        assert(crate::text::ascii_chars(buf@) =~= hex4(v as nat));
    }
    crate::text::ascii_string(buf)
}

/// Whether a discovery acknowledge declares a payload that is not cut inside its fixed fields.
pub open spec fn discovery_ack_fits(b: Seq<u8>) -> bool {
    b.len() >= 8 ==> !(40 <= be_value(b.subrange(4, 6)) < 72)
}

/// Parse a discovery acknowledge; `None` when it answers another request.
pub fn parse_discovery_ack(buf: &[u8], expected_request: u16) -> (r: Result<Option<DeviceInfo>, GigeError>)
    requires
        discovery_ack_fits(buf@),
    ensures
        spec_discovery_ack(buf@, expected_request, r),
{
    if buf.len() < HEADER_SIZE {
        return Err(GigeError::Protocol(String::from_str("GVCP ack too short")));
    }
    proof {
        crate::wire::lemma_pow256_values();
        crate::wire::lemma_be_value_bound(buf@.subrange(0, 2));
        crate::wire::lemma_be_value_bound(buf@.subrange(2, 4));
        crate::wire::lemma_be_value_bound(buf@.subrange(4, 6));
        crate::wire::lemma_be_value_bound(buf@.subrange(6, 8));
    }
    let status = be_decode(buf, 0, 2) as u16;
    let command = be_decode(buf, 2, 4) as u16;
    let length = be_decode(buf, 4, 6) as usize;
    let request_id = be_decode(buf, 6, 8) as u16;
    if request_id != expected_request {
        return Ok(None);
    }
    if command != DISCOVERY_ACK {
        let mut m = String::from_str("unexpected discovery opcode 0x");
        let h = hex4_string(command);
        m.append(h.as_str());
        return Err(GigeError::Protocol(m));
    }
    if status != 0 {
        let mut m = String::from_str("discovery returned status 0x");
        let h = hex4_string(status);
        m.append(h.as_str());
        return Err(GigeError::Protocol(m));
    }
    if buf.len() - HEADER_SIZE < length {
        return Err(GigeError::Protocol(String::from_str("discovery payload truncated")));
    }
    let payload = vstd::slice::slice_subrange(buf, HEADER_SIZE, HEADER_SIZE + length);
    match parse_discovery_payload(payload) {
        Ok(info) => Ok(Some(info)),
        Err(e) => Err(e),
    }
}

/// `AA:BB:CC:DD:EE:FF` text of the device MAC.
impl DeviceInfo {
    pub fn mac_string(&self) -> (s: String)
        ensures
            s@ == crate::text::ascii_chars(crate::camctl::mac_text(self.mac@)),
    {
        crate::camctl::format_mac(&self.mac)
    }
}

// ---------------------------------------------------------------------------
// Requests
// ---------------------------------------------------------------------------

/// The request id handed out, and the next one: one more, skipping zero after wrapping.
pub fn next_request_id(current: u16) -> (r: (u16, u16))
    ensures
        r.0 == current,
        r.1 == (if current == u16::MAX { 1 } else { current + 1 }),
{
    let next = current.wrapping_add(1);
    if next == 0 {
        (current, 1)
    } else {
        (current, next)
    }
}

/// Address of a stream channel register.
pub fn stream_reg(channel: u32, offset: u64) -> (a: u64)
    requires
        STREAM_CHANNEL_BASE + channel * STREAM_CHANNEL_STRIDE + offset <= u64::MAX,
    ensures
        a == STREAM_CHANNEL_BASE + channel * STREAM_CHANNEL_STRIDE + offset,
{
    STREAM_CHANNEL_BASE + channel as u64 * STREAM_CHANNEL_STRIDE + offset
}

/// Payload of a memory read of `count` bytes at the low 32 bits of `addr`.
pub open spec fn read_mem_payload_bytes(addr: nat, count: u16) -> Seq<u8> {
    be_bytes(addr % 0x1_0000_0000, 4) + be_bytes(0, 2) + be_bytes(count as nat, 2)
}

/// The payloads of the memory reads fetching `len` bytes from `addr`, in blocks of at most
/// `GENCP_MAX_BLOCK` bytes.
pub open spec fn read_mem_plan(addr: nat, len: nat) -> Seq<Seq<u8>> {
    let n = ((len + GENCP_MAX_BLOCK - 1) / GENCP_MAX_BLOCK as int) as nat;
    Seq::new(
        n,
        |k: int|
            read_mem_payload_bytes(
                (addr + k * GENCP_MAX_BLOCK) as nat,
                (if len - k * GENCP_MAX_BLOCK < GENCP_MAX_BLOCK {
                    len - k * GENCP_MAX_BLOCK
                } else {
                    GENCP_MAX_BLOCK as int
                }) as u16,
            ),
    )
}

/// The payloads of the memory reads that fetch `len` bytes from `addr`.
pub fn read_mem_payloads(addr: u64, len: usize) -> (ps: Vec<Vec<u8>>)
    requires
        addr + len <= u64::MAX,
    ensures
        ps@.map_values(|p: Vec<u8>| p@) == read_mem_plan(addr as nat, len as nat),
{
    let mut ps: Vec<Vec<u8>> = Vec::new();
    let mut offset: usize = 0;
    let ghost n = ((len + GENCP_MAX_BLOCK - 1) / GENCP_MAX_BLOCK as int) as nat;
    while offset < len
        invariant
            addr + len <= u64::MAX,
            n == ((len + GENCP_MAX_BLOCK - 1) / GENCP_MAX_BLOCK as int) as nat,
            offset == (if ps@.len() * GENCP_MAX_BLOCK < len { ps@.len() * GENCP_MAX_BLOCK } else {
                len as int
            }),
            ps@.len() >= 1 ==> (ps@.len() - 1) * GENCP_MAX_BLOCK < len,
            forall|k: int| 0 <= k < ps@.len() ==> #[trigger] ps@[k]@ == read_mem_plan(
                addr as nat,
                len as nat,
            )[k],
            ps@.len() <= n,
        decreases len - offset,
    {
        let remaining = len - offset;
        let chunk = if remaining < GENCP_MAX_BLOCK {
            remaining
        } else {
            GENCP_MAX_BLOCK
        };
        let a: u64 = (addr + offset as u64) % 0x1_0000_0000;
        let mut p: Vec<u8> = Vec::new();
        put_be(&mut p, a, 4);
        put_be(&mut p, 0, 2);
        put_be(&mut p, chunk as u64, 2);
        proof {
            let k = ps@.len() as int;
            assert(offset == k * GENCP_MAX_BLOCK);
            assert(k < n) by (nonlinear_arith)
                requires
                    k * 512 < len,
                    n == (len + 511) / 512,
            ;
            assert(p@ =~= read_mem_plan(addr as nat, len as nat)[k]);
        }
        ps.push(p);
        offset = offset + chunk;
        proof {
            let k = ps@.len() as int;
            assert((k - 1) * 512 + 512 == k * 512) by (nonlinear_arith);
        }
    }
    proof {
        let k = ps@.len() as int;
        assert(k == n) by (nonlinear_arith)
            requires
                n == (len + 511) / 512,
                offset == (if k * 512 < len { k * 512 } else { len as int }),
                offset >= len,
                k >= 1 ==> (k - 1) * 512 < len,
                k <= n,
                len >= 0,
        {
            if k < n {
                assert(k * 512 < len) by (nonlinear_arith)
                    requires
                        k < n,
                        n == (len + 511) / 512,
                        k >= 0,
                ;
            }
        }
    }
    assert(ps@.map_values(|p: Vec<u8>| p@) =~= read_mem_plan(addr as nat, len as nat));
    ps
}

/// The bytes a memory read acknowledge carries for a block of `chunk` bytes: after the
/// four-byte address echo, or the whole payload when the device left the echo out.
pub fn read_mem_ack_data(ack_payload: &[u8], chunk: usize) -> (r: Result<Vec<u8>, GigeError>)
    ensures
        ack_payload@.len() >= 4 + chunk ==> (r matches Ok(d) && d@ == ack_payload@.subrange(
            4,
            4 + chunk,
        )),
        ack_payload@.len() < 4 + chunk && ack_payload@.len() == chunk ==> (r matches Ok(d) && d@
            == ack_payload@),
        ack_payload@.len() < 4 + chunk && ack_payload@.len() != chunk ==> (r matches Err(
            GigeError::Protocol(m),
        ) && m@ == "expected "@ + crate::text::ascii_chars(crate::text::dec_digits(chunk as nat))
            + " bytes but device returned "@ + crate::text::ascii_chars(
            crate::text::dec_digits(ack_payload@.len()),
        )),
{
    if ack_payload.len() >= 4 && ack_payload.len() - 4 >= chunk {
        Ok(vstd::slice::slice_to_vec(vstd::slice::slice_subrange(ack_payload, 4, 4 + chunk)))
    } else if ack_payload.len() == chunk {
        Ok(vstd::slice::slice_to_vec(ack_payload))
    } else {
        let mut m = String::from_str("expected ");
        let a = crate::text::decimal_string(chunk as u64);
        m.append(a.as_str());
        m.append(" bytes but device returned ");
        let b = crate::text::decimal_string(ack_payload.len() as u64);
        m.append(b.as_str());
        Err(GigeError::Protocol(m))
    }
}

/// The packet delay for a link MTU: `2 µs` in units of 80 ns without jumbo frames, none otherwise.
pub fn packet_delay_for(mtu: u32) -> (d: u32)
    ensures
        d == (if mtu <= 1500 { 25u32 } else { 0u32 }),
{
    if mtu <= 1500 {
        2_000 / 80
    } else {
        0
    }
}

/// Register and bit controlling delivery of event `id`.
pub fn event_register(id: u16) -> (r: (u64, u32))
    ensures
        r.0 == EVENT_NOTIFICATION_BASE + (id / 32) * EVENT_NOTIFICATION_STRIDE,
        r.1 as nat == vstd::arithmetic::power2::pow2((id % 32) as nat),
{
    let index = (id / 32) as u64;
    let shift = (id % 32) as u32;
    let mut bit: u32 = 1;
    let mut k: u32 = 0;
    proof {
        vstd::arithmetic::power2::lemma2_to64();
    }
    while k < shift
        invariant
            k <= shift < 32,
            bit as nat == vstd::arithmetic::power2::pow2(k as nat),
        decreases shift - k,
    {
        proof {
            vstd::arithmetic::power2::lemma_pow2_unfold((k + 1) as nat);
            vstd::arithmetic::power2::lemma_pow2_strictly_increases((k + 1) as nat, 32);
            vstd::arithmetic::power2::lemma2_to64();
        }
        bit = bit * 2;
        k = k + 1;
    }
    (EVENT_NOTIFICATION_BASE + index * EVENT_NOTIFICATION_STRIDE, bit)
}

/// The event mask with `bit` set when `on`, cleared otherwise.
pub fn updated_event_mask(value: u32, bit: u32, on: bool) -> (m: u32)
    ensures
        on ==> m == value | bit,
        !on ==> m == value & !bit,
{
    if on {
        value | bit
    } else {
        value & !bit
    }
}

/// Payload of a packet resend request.
pub open spec fn resend_payload_bytes(block_id: u16, first: u16, last: u16) -> Seq<u8> {
    be_bytes(block_id as nat, 2) + be_bytes(0, 2) + be_bytes(first as nat, 2) + be_bytes(last as nat, 2)
}

/// The packet resend request for packets `first..=last` of block `block_id`.
pub fn resend_request(block_id: u16, first_packet: u16, last_packet: u16, request_id: u16) -> (b: Vec<u8>)
    ensures
        b@ == request_bytes(
            GvcpRequestHeader {
                flags: CommandFlags { ack_required: true, broadcast: false },
                command: PACKET_RESEND_COMMAND,
                length: 8,
                request_id,
            },
            resend_payload_bytes(block_id, first_packet, last_packet),
        ),
{
    let mut payload: Vec<u8> = Vec::new();
    put_be(&mut payload, block_id as u64, 2);
    put_be(&mut payload, 0, 2);
    put_be(&mut payload, first_packet as u64, 2);
    put_be(&mut payload, last_packet as u64, 2);
    assert(payload@ =~= resend_payload_bytes(block_id, first_packet, last_packet));
    let header = GvcpRequestHeader {
        flags: CommandFlags { ack_required: true, broadcast: false },
        command: PACKET_RESEND_COMMAND,
        length: 8,
        request_id,
    };
    header.encode(payload.as_slice())
}

/// Check the acknowledge of a packet resend request with id `request_id`.
pub fn check_resend_ack(ack: &[u8], request_id: u16) -> (r: Result<(), GigeError>)
    ensures
        ack@.len() != 8 ==> (r matches Err(GigeError::Protocol(m)) && m@ == "resend ack length mismatch"@),
        ack@.len() == 8 && be_value(ack@.subrange(2, 4)) != PACKET_RESEND_ACK ==> (r matches Err(
            GigeError::Protocol(m),
        ) && m@ == "unexpected resend ack opcode"@),
        ack@.len() == 8 && be_value(ack@.subrange(2, 4)) == PACKET_RESEND_ACK && be_value(
            ack@.subrange(4, 6),
        ) != 0 ==> (r matches Err(GigeError::Protocol(m)) && m@ == "resend ack carried payload"@),
        ack@.len() == 8 && be_value(ack@.subrange(2, 4)) == PACKET_RESEND_ACK && be_value(
            ack@.subrange(4, 6),
        ) == 0 && be_value(ack@.subrange(6, 8)) != request_id ==> (r matches Err(
            GigeError::Protocol(m),
        ) && m@ == "resend ack request id mismatch"@),
        ack@.len() == 8 && be_value(ack@.subrange(2, 4)) == PACKET_RESEND_ACK && be_value(
            ack@.subrange(4, 6),
        ) == 0 && be_value(ack@.subrange(6, 8)) == request_id ==> (if be_value(ack@.subrange(0, 2))
            == 0 {
            r is Ok
        } else {
            r matches Err(GigeError::Status(s)) && s as nat == be_value(ack@.subrange(0, 2))
        }),
{
    if ack.len() != HEADER_SIZE {
        return Err(GigeError::Protocol(String::from_str("resend ack length mismatch")));
    }
    proof {
        crate::wire::lemma_pow256_values();
        crate::wire::lemma_be_value_bound(ack@.subrange(0, 2));
    }
    let status = be_decode(ack, 0, 2) as u16;
    let command = be_decode(ack, 2, 4);
    let length = be_decode(ack, 4, 6);
    let ack_request_id = be_decode(ack, 6, 8);
    if command != PACKET_RESEND_ACK as u64 {
        return Err(GigeError::Protocol(String::from_str("unexpected resend ack opcode")));
    }
    if length != 0 {
        return Err(GigeError::Protocol(String::from_str("resend ack carried payload")));
    }
    if ack_request_id != request_id as u64 {
        return Err(GigeError::Protocol(String::from_str("resend ack request id mismatch")));
    }
    if status != 0 {
        return Err(GigeError::Status(status));
    }
    Ok(())
}


// ---------------------------------------------------------------------------
// Memory writes
// ---------------------------------------------------------------------------

/// Length of block `k` when `len` bytes are written in blocks of `WRITE_MEM_BLOCK` bytes.
pub open spec fn write_block_len(len: nat, k: int) -> int {
    if len - k * WRITE_MEM_BLOCK < WRITE_MEM_BLOCK {
        len - k * WRITE_MEM_BLOCK
    } else {
        WRITE_MEM_BLOCK as int
    }
}

/// The payloads of the memory writes storing `data` at `addr`: each the low 32 bits of its
/// address, big-endian, then its block of at most `WRITE_MEM_BLOCK` bytes.
pub open spec fn write_mem_plan(addr: nat, data: Seq<u8>) -> Seq<Seq<u8>> {
    let n = ((data.len() + WRITE_MEM_BLOCK - 1) / WRITE_MEM_BLOCK as int) as nat;
    Seq::new(
        n,
        |k: int|
            be_bytes(((addr + k * WRITE_MEM_BLOCK) % 0x1_0000_0000) as nat, 4) + data.subrange(
                k * WRITE_MEM_BLOCK,
                k * WRITE_MEM_BLOCK + write_block_len(data.len(), k),
            ),
    )
}

/// The payloads of the memory writes that store `data` at `addr`.
pub fn write_mem_payloads(addr: u64, data: &[u8]) -> (ps: Vec<Vec<u8>>)
    requires
        addr + data@.len() <= u64::MAX,
    ensures
        ps@.map_values(|p: Vec<u8>| p@) == write_mem_plan(addr as nat, data@),
{
    let len = data.len();
    let mut ps: Vec<Vec<u8>> = Vec::new();
    let mut offset: usize = 0;
    let ghost n = ((len + WRITE_MEM_BLOCK - 1) / WRITE_MEM_BLOCK as int) as nat;
    while offset < len
        invariant
            len == data@.len(),
            addr + len <= u64::MAX,
            n == ((len + WRITE_MEM_BLOCK - 1) / WRITE_MEM_BLOCK as int) as nat,
            offset == (if ps@.len() * WRITE_MEM_BLOCK < len { ps@.len() * WRITE_MEM_BLOCK } else {
                len as int
            }),
            ps@.len() >= 1 ==> (ps@.len() - 1) * WRITE_MEM_BLOCK < len,
            forall|k: int| 0 <= k < ps@.len() ==> #[trigger] ps@[k]@ == write_mem_plan(
                addr as nat,
                data@,
            )[k],
            ps@.len() <= n,
        decreases len - offset,
    {
        let remaining = len - offset;
        let chunk = if remaining < WRITE_MEM_BLOCK {
            remaining
        } else {
            WRITE_MEM_BLOCK
        };
        let a: u64 = (addr + offset as u64) % 0x1_0000_0000;
        let mut p: Vec<u8> = Vec::new();
        put_be(&mut p, a, 4);
        let block = vstd::slice::slice_subrange(data, offset, offset + chunk);
        p.extend_from_slice(block);
        proof {
            let k = ps@.len() as int;
            assert(offset == k * WRITE_MEM_BLOCK);
            assert(k < n) by (nonlinear_arith)
                requires
                    k * 508 < len,
                    n == (len + 507) / 508,
            ;
            assert(p@ =~= write_mem_plan(addr as nat, data@)[k]);
        }
        ps.push(p);
        offset = offset + chunk;
        proof {
            let k = ps@.len() as int;
            assert((k - 1) * 508 + 508 == k * 508) by (nonlinear_arith);
        }
    }
    proof {
        let k = ps@.len() as int;
        assert(k == n) by (nonlinear_arith)
            requires
                n == (len + 507) / 508,
                offset == (if k * 508 < len { k * 508 } else { len as int }),
                offset >= len,
                k >= 1 ==> (k - 1) * 508 < len,
                k <= n,
                len >= 0,
        {
            if k < n {
                assert(k * 508 < len) by (nonlinear_arith)
                    requires
                        k < n,
                        n == (len + 507) / 508,
                        k >= 0,
                ;
            }
        }
    }
    assert(ps@.map_values(|p: Vec<u8>| p@) =~= write_mem_plan(addr as nat, data@));
    ps
}

/// Check the acknowledge of a memory write: its payload holds at most the four reserved bytes.
pub fn check_write_ack(ack_payload: &[u8]) -> (r: Result<(), GigeError>)
    ensures
        ack_payload@.len() <= 4 <==> r is Ok,
        ack_payload@.len() > 4 ==> (r matches Err(GigeError::Protocol(m)) && m@
            == "write acknowledgement carried unexpected payload"@),
{
    if ack_payload.len() > 4 {
        Err(GigeError::Protocol(String::from_str("write acknowledgement carried unexpected payload")))
    } else {
        Ok(())
    }
}

// ---------------------------------------------------------------------------
// Control transactions with retries
// ---------------------------------------------------------------------------

/// Status of a decoded acknowledge, as far as the retry policy tells them apart.
#[derive(Debug, Clone, Copy, PartialEq, Eq, Structural)]
pub enum AckStatus {
    Success,
    /// The device is busy; its raw status code.
    DeviceBusy(u16),
    /// Any other status, by its raw code.
    Other(u16),
}

/// What came of one attempt of a control transaction.
#[derive(Debug)]
pub enum TransactEvent {
    /// The command could not be sent; the text is the system's message.
    SendFailed(String),
    /// The answer could not be decoded as an acknowledge; the text says why.
    DecodeFailed(String),
    /// An acknowledge arrived.
    Acked {
        /// Request id of the acknowledge.
        request_id: u16,
        /// Whether the acknowledge answers the opcode that was sent.
        opcode_matches: bool,
        /// Its status.
        status: AckStatus,
    },
    /// Receiving failed; the text is the system's message.
    ReceiveFailed(String),
    /// No answer came within the control timeout.
    TimedOut,
}

/// What the transaction does next.
#[derive(Debug)]
pub enum TransactAction {
    /// The acknowledge is accepted.
    Accept,
    /// Wait the backoff of this attempt and send again with a fresh request id.
    Retry,
    /// Give up with this error.
    Fail(GigeError),
}

/// The decision after attempt `attempt` (counted from one) of a transaction whose request
/// carried `request_id`, as a kind: 0 accept, 1 retry, 2 fail.
pub open spec fn transact_kind(attempt: nat, request_id: u16, event: TransactEvent) -> int {
    match event {
        TransactEvent::SendFailed(_) => if attempt >= MAX_RETRIES { 2 } else { 1 },
        TransactEvent::DecodeFailed(_) => 2,
        TransactEvent::Acked { request_id: got, opcode_matches, status } => {
            if got != request_id {
                if attempt >= MAX_RETRIES { 2 } else { 1 }
            } else if !opcode_matches {
                2
            } else {
                match status {
                    AckStatus::Success => 0,
                    AckStatus::DeviceBusy(_) => if attempt < MAX_RETRIES { 1 } else { 2 },
                    AckStatus::Other(_) => 2,
                }
            }
        },
        TransactEvent::ReceiveFailed(_) => if attempt >= MAX_RETRIES { 2 } else { 1 },
        TransactEvent::TimedOut => if attempt >= MAX_RETRIES { 2 } else { 1 },
    }
}

/// The error a transaction gives up with, when `transact_kind` is 2.
pub open spec fn transact_error_holds(event: TransactEvent, request_id: u16, e: GigeError) -> bool {
    match event {
        TransactEvent::SendFailed(m) => e matches GigeError::Io(t) && t@ == m@,
        TransactEvent::DecodeFailed(m) => e matches GigeError::GenCp(t) && t@ == m@,
        TransactEvent::Acked { request_id: got, opcode_matches, status } => {
            if got != request_id {
                e matches GigeError::Protocol(t) && t@ == "acknowledgement id mismatch"@
            } else if !opcode_matches {
                e matches GigeError::Protocol(t) && t@ == "unexpected opcode in acknowledgement"@
            } else {
                match status {
                    AckStatus::Success => false,
                    AckStatus::DeviceBusy(code) => e matches GigeError::Status(c) && c == code,
                    AckStatus::Other(code) => e matches GigeError::Status(c) && c == code,
                }
            }
        },
        TransactEvent::ReceiveFailed(m) => e matches GigeError::Io(t) && t@ == m@,
        TransactEvent::TimedOut => e is Timeout,
    }
}

/// Decide what a control transaction does after attempt `attempt` ended in `event`.
///
/// A busy device is retried while attempts remain; a lost, mismatched or unanswered
/// exchange is retried until `MAX_RETRIES` attempts were made; a decode failure, a wrong
/// opcode and any other status end the transaction at once.
pub fn transact_step(attempt: usize, request_id: u16, event: TransactEvent) -> (a: TransactAction)
    requires
        attempt >= 1,
    ensures
        transact_kind(attempt as nat, request_id, event) == 0 <==> a is Accept,
        transact_kind(attempt as nat, request_id, event) == 1 <==> a is Retry,
        a matches TransactAction::Fail(e) ==> transact_error_holds(event, request_id, e),
{
    match event {
        TransactEvent::SendFailed(m) => {
            if attempt >= MAX_RETRIES {
                TransactAction::Fail(GigeError::Io(m))
            } else {
                TransactAction::Retry
            }
        },
        TransactEvent::DecodeFailed(m) => TransactAction::Fail(GigeError::GenCp(m)),
        TransactEvent::Acked { request_id: got, opcode_matches, status } => {
            if got != request_id {
                if attempt >= MAX_RETRIES {
                    TransactAction::Fail(
                        GigeError::Protocol(String::from_str("acknowledgement id mismatch")),
                    )
                } else {
                    TransactAction::Retry
                }
            } else if !opcode_matches {
                TransactAction::Fail(
                    GigeError::Protocol(String::from_str("unexpected opcode in acknowledgement")),
                )
            } else {
                match status {
                    AckStatus::Success => TransactAction::Accept,
                    AckStatus::DeviceBusy(code) => {
                        if attempt < MAX_RETRIES {
                            TransactAction::Retry
                        } else {
                            TransactAction::Fail(GigeError::Status(code))
                        }
                    },
                    AckStatus::Other(code) => TransactAction::Fail(GigeError::Status(code)),
                }
            }
        },
        TransactEvent::ReceiveFailed(m) => {
            if attempt >= MAX_RETRIES {
                TransactAction::Fail(GigeError::Io(m))
            } else {
                TransactAction::Retry
            }
        },
        TransactEvent::TimedOut => {
            if attempt >= MAX_RETRIES {
                TransactAction::Fail(GigeError::Timeout)
            } else {
                TransactAction::Retry
            }
        },
    }
}

/// Law: a transaction never retries once `MAX_RETRIES` attempts were made, so at most
/// `MAX_RETRIES` commands go out for one transaction.
pub proof fn lemma_retries_bounded(attempt: nat, request_id: u16, event: TransactEvent)
    requires
        attempt >= MAX_RETRIES,
    ensures
        transact_kind(attempt, request_id, event) != 1,
{
}

/// Law: an acknowledge that answers the request, with its opcode and a success status, is
/// accepted on every attempt.
pub proof fn lemma_success_accepted(attempt: nat, request_id: u16)
    ensures
        transact_kind(
            attempt,
            request_id,
            TransactEvent::Acked { request_id, opcode_matches: true, status: AckStatus::Success },
        ) == 0,
{
}

/// Backoff multiplier before retry `attempt`: doubling from one, at most eight.
pub open spec fn backoff_multiplier(attempt: nat) -> nat {
    if attempt <= 1 {
        1
    } else if attempt == 2 {
        2
    } else if attempt == 3 {
        4
    } else {
        8
    }
}

/// Delay before the retry that follows attempt `attempt`, in milliseconds: the base delay
/// times the multiplier, plus `jitter_ms` drawn by the caller from `0..=RETRY_JITTER_MS`.
pub fn backoff_delay_ms(attempt: usize, jitter_ms: u64) -> (d: u64)
    requires
        jitter_ms <= RETRY_JITTER_MS,
    ensures
        d == RETRY_BASE_DELAY_MS * backoff_multiplier(attempt as nat) + jitter_ms,
{
    let steps: usize = if attempt == 0 {
        0
    } else if attempt - 1 < 3 {
        attempt - 1
    } else {
        3
    };
    let multiplier: u64 = if steps == 0 {
        1
    } else if steps == 1 {
        2
    } else if steps == 2 {
        4
    } else {
        8
    };
    RETRY_BASE_DELAY_MS * multiplier + jitter_ms
}


/// GenCP status of a successful command.
pub const STATUS_SUCCESS: u16 = 0x0000;
/// GenCP status of a device too busy to serve the command.
pub const STATUS_BUSY: u16 = 0x8007;

/// GVCP acknowledge header.
#[derive(Debug, Clone, Copy, PartialEq, Eq, Structural)]
pub struct GvcpAckHeader {
    /// Status reported by the device.
    pub status: u16,
    /// Raw acknowledge code.
    pub command: u16,
    /// Payload length in bytes.
    pub length: u16,
    /// Identifier of the answered request.
    pub request_id: u16,
}

/// The header fields of an acknowledge, big-endian from its first eight bytes.
pub open spec fn ack_header_of(buf: Seq<u8>) -> GvcpAckHeader {
    GvcpAckHeader {
        status: be_value(buf.subrange(0, 2)) as u16,
        command: be_value(buf.subrange(2, 4)) as u16,
        length: be_value(buf.subrange(4, 6)) as u16,
        request_id: be_value(buf.subrange(6, 8)) as u16,
    }
}

/// Split an acknowledge into its header and payload; `None` when it is shorter than a header.
pub fn parse_ack(buf: &[u8]) -> (r: Option<(GvcpAckHeader, Vec<u8>)>)
    ensures
        buf@.len() < HEADER_SIZE <==> r is None,
        r matches Some((h, p)) ==> h == ack_header_of(buf@) && p@ == buf@.subrange(
            HEADER_SIZE as int,
            buf@.len() as int,
        ),
{
    if buf.len() < HEADER_SIZE {
        return None;
    }
    proof {
        crate::wire::lemma_pow256_values();
        crate::wire::lemma_be_value_bound(buf@.subrange(0, 2));
        crate::wire::lemma_be_value_bound(buf@.subrange(2, 4));
        crate::wire::lemma_be_value_bound(buf@.subrange(4, 6));
        crate::wire::lemma_be_value_bound(buf@.subrange(6, 8));
    }
    let header = GvcpAckHeader {
        status: be_decode(buf, 0, 2) as u16,
        command: be_decode(buf, 2, 4) as u16,
        length: be_decode(buf, 4, 6) as u16,
        request_id: be_decode(buf, 6, 8) as u16,
    };
    let payload = vstd::slice::slice_to_vec(vstd::slice::slice_subrange(buf, HEADER_SIZE, buf.len()));
    Some((header, payload))
}

/// The event an acknowledge with `header` makes of an attempt that sent command `command`
/// with id `request_id`: the acknowledge code of a command is the command code plus one.
pub fn ack_event(header: &GvcpAckHeader, request_id: u16, command: u16) -> (e: TransactEvent)
    ensures
        e matches TransactEvent::Acked { request_id: got, opcode_matches, status } && got
            == header.request_id && opcode_matches == (header.command == command + 1) && status == (
            if header.status == STATUS_SUCCESS {
                AckStatus::Success
            } else if header.status == STATUS_BUSY {
                AckStatus::DeviceBusy(header.status)
            } else {
                AckStatus::Other(header.status)
            }),
{
    let status = if header.status == STATUS_SUCCESS {
        AckStatus::Success
    } else if header.status == STATUS_BUSY {
        AckStatus::DeviceBusy(header.status)
    } else {
        AckStatus::Other(header.status)
    };
    let opcode_matches = command < u16::MAX && header.command == command + 1;
    TransactEvent::Acked { request_id: header.request_id, opcode_matches, status }
}


// ---------------------------------------------------------------------------
// Discovery rounds
// ---------------------------------------------------------------------------

/// Request id of the discovery command sent on the interface with index `idx`.
pub fn discovery_request_id(idx: usize) -> (id: u16)
    ensures
        id == (0x0100 + idx) % 0x1_0000,
{
    let low = (idx % 0x1_0000) as u16;
    (0x0100u16).wrapping_add(low)
}

/// The broadcast discovery command with id `request_id`: it asks for an acknowledge and
/// carries no payload.
pub fn discovery_request(request_id: u16) -> (b: Vec<u8>)
    ensures
        b@ == request_bytes(
            GvcpRequestHeader {
                flags: CommandFlags { ack_required: true, broadcast: true },
                command: DISCOVERY_COMMAND,
                length: 0,
                request_id,
            },
            Seq::empty(),
        ),
{
    let header = GvcpRequestHeader {
        flags: CommandFlags { ack_required: true, broadcast: true },
        command: DISCOVERY_COMMAND,
        length: 0,
        request_id,
    };
    let empty: Vec<u8> = Vec::new();
    header.encode(empty.as_slice())
}

/// The IPv4 address as a number, most significant octet first.
pub open spec fn ip_key(ip: Seq<u8>) -> nat {
    be_value(ip)
}

/// Whether two answers come from the same device: same address, same MAC.
pub open spec fn same_device(a: DeviceInfo, b: DeviceInfo) -> bool {
    a.ip@ == b.ip@ && a.mac@ == b.mac@
}

/// Whether some answer in `s` comes from the same device as `d`.
pub open spec fn seen_device(s: Seq<DeviceInfo>, d: DeviceInfo) -> bool {
    exists|k: int| 0 <= k < s.len() && same_device(#[trigger] s[k], d)
}

/// The first answer of each device, in the order they came.
pub open spec fn first_answers(s: Seq<DeviceInfo>) -> Seq<DeviceInfo>
    decreases s.len(),
{
    if s.len() == 0 {
        Seq::empty()
    } else if seen_device(s.drop_last(), s.last()) {
        first_answers(s.drop_last())
    } else {
        first_answers(s.drop_last()).push(s.last())
    }
}

/// `d` placed into `s` after every answer whose address is not above its own.
pub open spec fn insert_by_ip(s: Seq<DeviceInfo>, d: DeviceInfo) -> Seq<DeviceInfo>
    decreases s.len(),
{
    if s.len() == 0 {
        seq![d]
    } else if ip_key(s.last().ip@) <= ip_key(d.ip@) {
        s.push(d)
    } else {
        insert_by_ip(s.drop_last(), d).push(s.last())
    }
}

/// The answers ordered by address, answers with the same address keeping their order.
pub open spec fn sorted_by_ip(s: Seq<DeviceInfo>) -> Seq<DeviceInfo>
    decreases s.len(),
{
    if s.len() == 0 {
        Seq::empty()
    } else {
        insert_by_ip(sorted_by_ip(s.drop_last()), s.last())
    }
}

fn same_device_exec(a: &DeviceInfo, b: &DeviceInfo) -> (r: bool)
    ensures
        r == same_device(*a, *b),
{
    let mut k: usize = 0;
    while k < 4
        invariant
            k <= 4,
            a.ip@.len() == 4,
            b.ip@.len() == 4,
            forall|j: int| 0 <= j < k ==> a.ip@[j] == b.ip@[j],
        decreases 4 - k,
    {
        if a.ip[k] != b.ip[k] {
            return false;
        }
        k = k + 1;
    }
    assert(a.ip@ =~= b.ip@);
    let mut k: usize = 0;
    while k < 6
        invariant
            k <= 6,
            a.mac@.len() == 6,
            b.mac@.len() == 6,
            a.ip@ == b.ip@,
            forall|j: int| 0 <= j < k ==> a.mac@[j] == b.mac@[j],
        decreases 6 - k,
    {
        if a.mac[k] != b.mac[k] {
            return false;
        }
        k = k + 1;
    }
    assert(a.mac@ =~= b.mac@);
    true
}

fn ip_value(ip: &[u8; 4]) -> (v: u32)
    ensures
        v as nat == ip_key(ip@),
{
    let v = be_decode(ip.as_slice(), 0, 4);
    proof {
        assert(ip@.subrange(0, 4) =~= ip@);
        crate::wire::lemma_pow256_values();
        crate::wire::lemma_be_value_bound(ip@);
    }
    v as u32
}

proof fn lemma_insert_split(s: Seq<DeviceInfo>, d: DeviceInfo, m: int)
    requires
        0 <= m <= s.len(),
        forall|k: int| m <= k < s.len() ==> ip_key(#[trigger] s[k].ip@) > ip_key(d.ip@),
        m > 0 ==> ip_key(s[m - 1].ip@) <= ip_key(d.ip@),
    ensures
        insert_by_ip(s, d) == s.insert(m, d),
    decreases s.len(),
{
    if s.len() == 0 {
        assert(s.insert(m, d) =~= seq![d]);
    } else if s.len() == m {
        assert(s.insert(m, d) =~= s.push(d));
    } else {
        let t = s.drop_last();
        assert forall|k: int| m <= k < t.len() implies ip_key(#[trigger] t[k].ip@) > ip_key(d.ip@) by {
            assert(t[k] == s[k]);
        }
        lemma_insert_split(t, d, m);
        assert(s.insert(m, d) =~= t.insert(m, d).push(s.last()));
    }
}

/// Insert `d` into `sorted` after every answer whose address is not above its own.
fn insert_device(sorted: &mut Vec<DeviceInfo>, d: DeviceInfo)
    ensures
        final(sorted)@ == insert_by_ip(old(sorted)@, d),
{
    let key = ip_value(&d.ip);
    let mut m: usize = sorted.len();
    while m > 0 && ip_value(&sorted[m - 1].ip) > key
        invariant
            m <= sorted@.len(),
            sorted@ == old(sorted)@,
            key as nat == ip_key(d.ip@),
            forall|k: int| m <= k < sorted@.len() ==> ip_key(#[trigger] sorted@[k].ip@) > ip_key(d.ip@),
        decreases m,
    {
        m = m - 1;
    }
    proof {
        lemma_insert_split(sorted@, d, m as int);
    }
    sorted.insert(m, d);
}

/// The first answers name the same devices as all the answers.
proof fn lemma_first_answers_seen(s: Seq<DeviceInfo>, d: DeviceInfo)
    ensures
        seen_device(first_answers(s), d) <==> seen_device(s, d),
    decreases s.len(),
{
    if s.len() > 0 {
        let t = s.drop_last();
        let x = s.last();
        lemma_first_answers_seen(t, d);
        lemma_first_answers_seen(t, x);
        let f = first_answers(t);
        let fs = first_answers(s);
        assert(forall|k: int| 0 <= k < t.len() ==> t[k] == s[k]);
        if seen_device(t, x) {
            assert(fs == f);
            if seen_device(s, d) {
                let k = choose|k: int| 0 <= k < s.len() && same_device(#[trigger] s[k], d);
                if k < t.len() {
                    assert(same_device(t[k], d));
                    assert(seen_device(t, d));
                } else {
                    let j = choose|j: int| 0 <= j < f.len() && same_device(#[trigger] f[j], x);
                    assert(same_device(f[j], d));
                    assert(seen_device(f, d));
                }
            }
            if seen_device(fs, d) {
                assert(seen_device(t, d));
                let j = choose|j: int| 0 <= j < t.len() && same_device(#[trigger] t[j], d);
                assert(same_device(s[j], d));
            }
        } else {
            assert(fs == f.push(x));
            if seen_device(s, d) {
                let k = choose|k: int| 0 <= k < s.len() && same_device(#[trigger] s[k], d);
                if k < t.len() {
                    assert(same_device(t[k], d));
                    assert(seen_device(t, d));
                    let j = choose|j: int| 0 <= j < f.len() && same_device(#[trigger] f[j], d);
                    assert(fs[j] == f[j]);
                    assert(same_device(fs[j], d));
                } else {
                    assert(fs[f.len() as int] == x);
                    assert(same_device(fs[f.len() as int], d));
                }
            }
            if seen_device(fs, d) {
                let k = choose|k: int| 0 <= k < fs.len() && same_device(#[trigger] fs[k], d);
                if k < f.len() {
                    assert(fs[k] == f[k]);
                    assert(seen_device(f, d));
                    let j = choose|j: int| 0 <= j < t.len() && same_device(#[trigger] t[j], d);
                    assert(same_device(s[j], d));
                } else {
                    assert(same_device(s[s.len() - 1], d));
                }
            }
        }
    }
}

/// An address as a number is its octets read first octet most significant.
proof fn lemma_ip_key_octets(ip: Seq<u8>)
    requires
        ip.len() == 4,
    ensures
        ip_key(ip) == ip[0] as nat * 16777216 + ip[1] as nat * 65536 + ip[2] as nat * 256 + ip[3] as nat,
{
    reveal_with_fuel(be_value, 5);
    let s3 = ip.drop_last();
    let s2 = s3.drop_last();
    let s1 = s2.drop_last();
    let s0 = s1.drop_last();
    assert(s0.len() == 0);
    assert(s1.last() == ip[0] && s2.last() == ip[1] && s3.last() == ip[2] && ip.last() == ip[3]);
}

/// Whether the answers are in nondecreasing order of address.
pub open spec fn ip_sorted(s: Seq<DeviceInfo>) -> bool {
    forall|i: int, j: int| 0 <= i < j < s.len() ==> ip_key(#[trigger] s[i].ip@) <= ip_key(#[trigger] s[j].ip@)
}

/// Inserting keeps every address of the result at or below a bound that the answers and the
/// inserted one respect.
proof fn lemma_insert_bound(s: Seq<DeviceInfo>, d: DeviceInfo, b: nat)
    requires
        forall|k: int| 0 <= k < s.len() ==> ip_key(#[trigger] s[k].ip@) <= b,
        ip_key(d.ip@) <= b,
    ensures
        forall|k: int| 0 <= k < insert_by_ip(s, d).len() ==> ip_key(#[trigger] insert_by_ip(s, d)[k].ip@) <= b,
        insert_by_ip(s, d).len() == s.len() + 1,
    decreases s.len(),
{
    if s.len() > 0 && ip_key(s.last().ip@) > ip_key(d.ip@) {
        let t = s.drop_last();
        assert forall|k: int| 0 <= k < t.len() implies ip_key(#[trigger] t[k].ip@) <= b by {
            assert(t[k] == s[k]);
        }
        lemma_insert_bound(t, d, b);
        let r = insert_by_ip(t, d);
        assert forall|k: int| 0 <= k < r.push(s.last()).len() implies ip_key(#[trigger] r.push(s.last())[k].ip@) <= b by {
            if k < r.len() {
                assert(r.push(s.last())[k] == r[k]);
            }
        }
    } else if s.len() > 0 {
        assert forall|k: int| 0 <= k < s.push(d).len() implies ip_key(#[trigger] s.push(d)[k].ip@) <= b by {
            if k < s.len() {
                assert(s.push(d)[k] == s[k]);
            }
        }
    }
}

/// Inserting into answers in address order keeps them in address order.
proof fn lemma_insert_sorted(s: Seq<DeviceInfo>, d: DeviceInfo)
    requires
        ip_sorted(s),
    ensures
        ip_sorted(insert_by_ip(s, d)),
    decreases s.len(),
{
    if s.len() == 0 {
    } else if ip_key(s.last().ip@) <= ip_key(d.ip@) {
        let r = s.push(d);
        assert forall|i: int, j: int| 0 <= i < j < r.len() implies ip_key(#[trigger] r[i].ip@) <= ip_key(#[trigger] r[j].ip@) by {
            assert(r[i] == s[i]);
            if j < s.len() {
                assert(r[j] == s[j]);
            } else if i < s.len() - 1 {
                assert(ip_key(s[i].ip@) <= ip_key(s[s.len() - 1].ip@));
            }
        }
    } else {
        let t = s.drop_last();
        let x = s.last();
        assert forall|i: int, j: int| 0 <= i < j < t.len() implies ip_key(#[trigger] t[i].ip@) <= ip_key(#[trigger] t[j].ip@) by {
            assert(t[i] == s[i] && t[j] == s[j]);
        }
        lemma_insert_sorted(t, d);
        assert forall|k: int| 0 <= k < t.len() implies ip_key(#[trigger] t[k].ip@) <= ip_key(x.ip@) by {
            assert(t[k] == s[k]);
            assert(ip_key(s[k].ip@) <= ip_key(s[s.len() - 1].ip@));
        }
        lemma_insert_bound(t, d, ip_key(x.ip@));
        let q = insert_by_ip(t, d);
        let r = q.push(x);
        assert forall|i: int, j: int| 0 <= i < j < r.len() implies ip_key(#[trigger] r[i].ip@) <= ip_key(#[trigger] r[j].ip@) by {
            assert(r[i] == q[i]);
            if j < q.len() {
                assert(r[j] == q[j]);
            }
        }
    }
}

/// Ordering by address gives answers in address order.
proof fn lemma_sorted_by_ip_sorted(s: Seq<DeviceInfo>)
    ensures
        ip_sorted(sorted_by_ip(s)),
    decreases s.len(),
{
    if s.len() > 0 {
        lemma_sorted_by_ip_sorted(s.drop_last());
        lemma_insert_sorted(sorted_by_ip(s.drop_last()), s.last());
    }
}

/// Law: the devices a discovery round lists come in the order of their IPv4 addresses read
/// with the first octet most significant (the order of `Ipv4Addr`): each device's address,
/// as a big-endian number, is at most the next one's.
pub proof fn lemma_merged_in_address_order(answers: Seq<DeviceInfo>)
    ensures
        forall|k: int|
            0 <= k < sorted_by_ip(first_answers(answers)).len() - 1 ==> {
                let a = #[trigger] sorted_by_ip(first_answers(answers))[k].ip@;
                let b = sorted_by_ip(first_answers(answers))[k + 1].ip@;
                a[0] as nat * 16777216 + a[1] as nat * 65536 + a[2] as nat * 256 + a[3] as nat
                    <= b[0] as nat * 16777216 + b[1] as nat * 65536 + b[2] as nat * 256 + b[3] as nat
            },
{
    let r = sorted_by_ip(first_answers(answers));
    lemma_sorted_by_ip_sorted(first_answers(answers));
    assert forall|k: int| 0 <= k < r.len() - 1 implies {
        let a = #[trigger] r[k].ip@;
        let b = r[k + 1].ip@;
        a[0] as nat * 16777216 + a[1] as nat * 65536 + a[2] as nat * 256 + a[3] as nat
            <= b[0] as nat * 16777216 + b[1] as nat * 65536 + b[2] as nat * 256 + b[3] as nat
    } by {
        lemma_ip_key_octets(r[k].ip@);
        lemma_ip_key_octets(r[k + 1].ip@);
        assert(ip_key(r[k].ip@) <= ip_key(r[k + 1].ip@));
    }
}

/// The devices a discovery round found: the first answer of each device (same address and
/// MAC), ordered by address, first octet most significant.
pub fn merge_discovered(answers: Vec<DeviceInfo>) -> (devices: Vec<DeviceInfo>)
    ensures
        devices@ == sorted_by_ip(first_answers(answers@)),
        forall|k: int|
            0 <= k < devices@.len() - 1 ==> {
                let a = #[trigger] devices@[k].ip@;
                let b = devices@[k + 1].ip@;
                a[0] as nat * 16777216 + a[1] as nat * 65536 + a[2] as nat * 256 + a[3] as nat
                    <= b[0] as nat * 16777216 + b[1] as nat * 65536 + b[2] as nat * 256 + b[3] as nat
            },
{
    proof {
        lemma_merged_in_address_order(answers@);
    }
    let mut rest = answers;
    let mut firsts: Vec<DeviceInfo> = Vec::new();
    let ghost all = rest@;
    let ghost n = all.len();
    while rest.len() > 0
        invariant
            rest@.len() <= n,
            n == all.len(),
            rest@ == all.skip(n - rest@.len()),
            firsts@ == first_answers(all.take(n - rest@.len())),
        decreases rest@.len(),
    {
        let ghost i = n - rest@.len();
        let d = rest.remove(0);
        proof {
            assert(rest@ =~= all.skip(i + 1));
            assert(all.take(i + 1).drop_last() =~= all.take(i));
            assert(all.take(i + 1).last() == d);
        }
        let mut seen = false;
        let mut k: usize = 0;
        while k < firsts.len()
            invariant
                k <= firsts@.len(),
                !seen ==> forall|j: int| 0 <= j < k ==> !same_device(#[trigger] firsts@[j], d),
                seen ==> seen_device(firsts@, d),
            decreases firsts@.len() - k,
        {
            if same_device_exec(&firsts[k], &d) {
                seen = true;
            }
            k = k + 1;
        }
        proof {
            lemma_first_answers_seen(all.take(i), d);
        }
        if !seen {
            firsts.push(d);
        }
    }
    proof {
        assert(all.take(n as int) =~= all);
    }
    let mut sorted: Vec<DeviceInfo> = Vec::new();
    let ghost fs = firsts@;
    let ghost m = fs.len();
    while firsts.len() > 0
        invariant
            firsts@.len() <= m,
            m == fs.len(),
            firsts@ == fs.skip(m - firsts@.len()),
            sorted@ == sorted_by_ip(fs.take(m - firsts@.len())),
        decreases firsts@.len(),
    {
        let ghost i = m - firsts@.len();
        let d = firsts.remove(0);
        proof {
            assert(firsts@ =~= fs.skip(i + 1));
            assert(fs.take(i + 1).drop_last() =~= fs.take(i));
            assert(fs.take(i + 1).last() == d);
        }
        insert_device(&mut sorted, d);
    }
    proof {
        assert(fs.take(m as int) =~= fs);
    }
    sorted
}

/// Whether `ip` is an IPv4 loopback address (`127.0.0.0/8`).
pub open spec fn is_loopback(ip: Seq<u8>) -> bool {
    ip[0] == 127
}

/// Whether discovery runs on the interface `name` with address `ip`: loopback interfaces
/// only when asked for, and only the interface named by `filter` when there is one.
pub fn interface_selected(name: &str, ip: [u8; 4], include_loopback: bool, filter: Option<&str>) -> (b: bool)
    ensures
        b == ((include_loopback || !is_loopback(ip@)) && (filter matches Some(f) ==> f@ == name@)),
{
    if !include_loopback && ip[0] == 127 {
        return false;
    }
    match filter {
        Some(f) => {
            proof {
                vstd::utf8::encode_utf8_decode_utf8(f@);
                vstd::utf8::encode_utf8_decode_utf8(name@);
            }
            crate::text::bytes_eq(f.as_bytes(), name.as_bytes())
        },
        None => true,
    }
}

/// Where the discovery command of an interface with address `ip` goes: to the interface
/// itself on loopback, which cannot broadcast everywhere, else to its broadcast address or
/// to `255.255.255.255`; the flag says whether the socket must broadcast.
pub fn discovery_destination(ip: [u8; 4], broadcast: Option<[u8; 4]>) -> (r: ([u8; 4], bool))
    ensures
        is_loopback(ip@) ==> r == (ip, false),
        !is_loopback(ip@) ==> r.1 && r.0 == (match broadcast {
            Some(b) => b,
            None => [255u8, 255, 255, 255],
        }),
{
    if ip[0] == 127 {
        (ip, false)
    } else {
        match broadcast {
            Some(b) => (b, true),
            None => ([255, 255, 255, 255], true),
        }
    }
}


/// The current value of an event notification mask from the four bytes read back.
pub fn event_mask_of(current: &[u8]) -> (r: Result<u32, GigeError>)
    ensures
        current@.len() == 4 ==> (r matches Ok(v) && v as nat == be_value(current@)),
        current@.len() != 4 ==> (r matches Err(GigeError::Protocol(m)) && m@
            == "event notification register length mismatch"@),
{
    if current.len() != 4 {
        return Err(GigeError::Protocol(String::from_str("event notification register length mismatch")));
    }
    let v = be_decode(current, 0, 4);
    proof {
        assert(current@.subrange(0, 4) =~= current@);
        crate::wire::lemma_pow256_values();
        crate::wire::lemma_be_value_bound(current@);
    }
    Ok(v as u32)
}

/// The MTU a stream is negotiated for: the interface's, capped by the requested limit.
pub fn negotiated_mtu(iface_mtu: u32, target: Option<u32>) -> (m: u32)
    ensures
        m == (match target {
            Some(t) => if t < iface_mtu { t } else { iface_mtu },
            None => iface_mtu,
        }),
{
    match target {
        Some(t) => if t < iface_mtu {
            t
        } else {
            iface_mtu
        },
        None => iface_mtu,
    }
}

} // verus!
