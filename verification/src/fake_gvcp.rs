//! Control channel of the simulated GigE Vision camera: discovery answers and register and
//! memory commands served from its register space.
use vstd::prelude::*;
use vstd::string::StringSliceAdditionalSpecFns;
use crate::fake_gige::{spec_read, spec_write, RegisterMap};
use crate::wire::{be_bytes, be_decode, be_value, put_be};

verus! {

/// First byte of every GVCP command.
pub const GVCP_CMD_KEY: u8 = 0x42;
/// Discovery command.
pub const DISCOVERY_CMD: u16 = 0x0002;
/// Register read command.
pub const READREG_CMD: u16 = 0x0080;
/// Register write command.
pub const WRITEREG_CMD: u16 = 0x0082;
/// Memory read command.
pub const READMEM_CMD: u16 = 0x0084;
/// Memory write command.
pub const WRITEMEM_CMD: u16 = 0x0086;
/// Discovery acknowledge.
pub const DISCOVERY_ACK: u16 = 0x0003;
/// Register read acknowledge.
pub const READREG_ACK: u16 = 0x0081;
/// Register write acknowledge.
pub const WRITEREG_ACK: u16 = 0x0083;
/// Memory read acknowledge.
pub const READMEM_ACK: u16 = 0x0085;
/// Memory write acknowledge.
pub const WRITEMEM_ACK: u16 = 0x0087;
/// Status code for success.
pub const STATUS_SUCCESS: u16 = 0x0000;
/// Register whose non-zero write starts acquisition.
pub const ACQUISITION_START_REG: u64 = 0x20020;
/// Register whose non-zero write stops acquisition.
pub const ACQUISITION_STOP_REG: u64 = 0x20024;

/// `n` zero bytes.
pub open spec fn zeros(n: nat) -> Seq<u8> {
    Seq::new(n, |i: int| 0u8)
}

/// A fixed-width text field: the first `len` bytes of `s`, padded with zeros to `len`.
pub open spec fn fixed_field(s: Seq<u8>, len: nat) -> Seq<u8> {
    let n = if s.len() < len { s.len() } else { len };
    s.subrange(0, n as int) + zeros((len - n) as nat)
}

/// Append `s` to `buf` as a field of `len` bytes, cut or zero-padded.
pub fn put_fixed_string(buf: &mut Vec<u8>, s: &str, len: usize)
    ensures
        final(buf)@ == old(buf)@ + fixed_field(s.spec_bytes(), len as nat),
{
    let bytes = s.as_bytes();
    let copy_len = if bytes.len() < len {
        bytes.len()
    } else {
        len
    };
    buf.extend_from_slice(vstd::slice::slice_subrange(bytes, 0, copy_len));
    let ghost start = buf@;
    let mut k: usize = copy_len;
    while k < len
        invariant
            copy_len <= k <= len,
            buf@ == start + zeros((k - copy_len) as nat),
        decreases len - k,
    {
        buf.push(0u8);
        k = k + 1;
        assert(buf@ =~= start + zeros((k - copy_len) as nat));
    }
    assert(buf@ =~= old(buf)@ + fixed_field(s.spec_bytes(), len as nat));
}

/// An acknowledge: success status, the acknowledge code, the payload length (its low
/// sixteen bits) and the request id, big-endian, then the payload.
pub open spec fn ack_bytes(ack_cmd: u16, request_id: u16, payload: Seq<u8>) -> Seq<u8> {
    be_bytes(STATUS_SUCCESS as nat, 2) + be_bytes(ack_cmd as nat, 2) + be_bytes(payload.len(), 2)
        + be_bytes(request_id as nat, 2) + payload
}

/// Build an acknowledge carrying `payload`.
pub fn build_ack(ack_cmd: u16, request_id: u16, payload: &[u8]) -> (b: Vec<u8>)
    ensures
        b@ == ack_bytes(ack_cmd, request_id, payload@),
{
    let mut buf: Vec<u8> = Vec::new();
    put_be(&mut buf, STATUS_SUCCESS as u64, 2);
    put_be(&mut buf, ack_cmd as u64, 2);
    put_be(&mut buf, payload.len() as u64, 2);
    put_be(&mut buf, request_id as u64, 2);
    buf.extend_from_slice(payload);
    assert(buf@ =~= ack_bytes(ack_cmd, request_id, payload@));
    buf
}

/// The discovery payload of the simulated camera at `ip`.
pub open spec fn discovery_payload(ip: Seq<u8>) -> Seq<u8> {
    be_bytes(2, 2) + be_bytes(0, 2) + be_bytes(0, 4) + be_bytes(0, 4) + seq![
        0xDEu8,
        0xAD,
        0xBE,
        0xEF,
        0xCA,
        0xFE,
    ] + be_bytes(7, 4) + be_bytes(5, 4) + zeros(10) + ip + zeros(12) + seq![255u8, 255, 255, 0]
        + zeros(12) + zeros(4) + fixed_field("genicam-rs".spec_bytes(), 32) + fixed_field(
        "FakeGigE".spec_bytes(),
        32,
    ) + fixed_field("1.0.0".spec_bytes(), 32) + fixed_field(
        "Fake camera for testing".spec_bytes(),
        48,
    ) + fixed_field("FAKE-001".spec_bytes(), 16) + fixed_field("FakeCamera".spec_bytes(), 16)
}

/// The discovery acknowledge: its header announces a 248-byte payload.
pub open spec fn discovery_ack_bytes(request_id: u16, ip: Seq<u8>) -> Seq<u8> {
    be_bytes(STATUS_SUCCESS as nat, 2) + be_bytes(DISCOVERY_ACK as nat, 2) + be_bytes(248, 2)
        + be_bytes(request_id as nat, 2) + discovery_payload(ip)
}

/// The answer to a discovery command with id `request_id`, for a camera at `ip`.
#[verifier::rlimit(40)]
pub fn build_discovery_ack(request_id: u16, ip: [u8; 4]) -> (b: Vec<u8>)
    ensures
        b@ == discovery_ack_bytes(request_id, ip@),
{
    let mut buf: Vec<u8> = Vec::new();
    put_be(&mut buf, STATUS_SUCCESS as u64, 2);
    put_be(&mut buf, DISCOVERY_ACK as u64, 2);
    put_be(&mut buf, 248, 2);
    put_be(&mut buf, request_id as u64, 2);
    let ghost header = buf@;
    put_be(&mut buf, 2, 2);
    put_be(&mut buf, 0, 2);
    put_be(&mut buf, 0, 4);
    put_be(&mut buf, 0, 4);
    let mac: [u8; 6] = [0xDE, 0xAD, 0xBE, 0xEF, 0xCA, 0xFE];
    buf.extend_from_slice(mac.as_slice());
    put_be(&mut buf, 7, 4);
    put_be(&mut buf, 5, 4);
    push_zeros(&mut buf, 10);
    buf.extend_from_slice(ip.as_slice());
    push_zeros(&mut buf, 12);
    let mask: [u8; 4] = [255, 255, 255, 0];
    buf.extend_from_slice(mask.as_slice());
    push_zeros(&mut buf, 12);
    push_zeros(&mut buf, 4);
    put_fixed_string(&mut buf, "genicam-rs", 32);
    put_fixed_string(&mut buf, "FakeGigE", 32);
    put_fixed_string(&mut buf, "1.0.0", 32);
    put_fixed_string(&mut buf, "Fake camera for testing", 48);
    put_fixed_string(&mut buf, "FAKE-001", 16);
    put_fixed_string(&mut buf, "FakeCamera", 16);
    assert(buf@ =~= discovery_ack_bytes(request_id, ip@));
    buf
}

/// Append `n` zero bytes.
fn push_zeros(buf: &mut Vec<u8>, n: usize)
    ensures
        final(buf)@ == old(buf)@ + zeros(n as nat),
{
    let mut k: usize = 0;
    while k < n
        invariant
            k <= n,
            buf@ == old(buf)@ + zeros(k as nat),
        decreases n - k,
    {
        buf.push(0u8);
        k = k + 1;
        assert(buf@ =~= old(buf)@ + zeros(k as nat));
    }
}

// ---------------------------------------------------------------------------
// Acquisition control
// ---------------------------------------------------------------------------

/// A change of acquisition state asked for by a register write.
#[derive(Debug, Clone, Copy, PartialEq, Eq, Structural)]
pub enum AcqSignal {
    /// Clear the stop flag and wake the stream sender.
    Start,
    /// Set the stop flag.
    Stop,
}

/// The signal a write of `data` at `addr` raises: a non-zero first word written to the
/// start or the stop register.
pub open spec fn acq_signal(addr: u64, data: Seq<u8>) -> Option<AcqSignal> {
    if addr == ACQUISITION_START_REG && data.len() >= 4 && be_value(data.subrange(0, 4)) != 0 {
        Some(AcqSignal::Start)
    } else if addr == ACQUISITION_STOP_REG && data.len() >= 4 && be_value(data.subrange(0, 4)) != 0 {
        Some(AcqSignal::Stop)
    } else {
        None
    }
}

/// The acquisition signal raised by writing `data` at `addr`, if any.
pub fn check_acquisition(addr: u64, data: &[u8]) -> (s: Option<AcqSignal>)
    ensures
        s == acq_signal(addr, data@),
{
    if addr == ACQUISITION_START_REG && data.len() >= 4 {
        if be_decode(data, 0, 4) != 0 {
            Some(AcqSignal::Start)
        } else {
            None
        }
    } else if addr == ACQUISITION_STOP_REG && data.len() >= 4 {
        if be_decode(data, 0, 4) != 0 {
            Some(AcqSignal::Stop)
        } else {
            None
        }
    } else {
        None
    }
}

/// The signal as a sequence of zero or one elements.
pub open spec fn signal_seq(s: Option<AcqSignal>) -> Seq<AcqSignal> {
    match s {
        Some(a) => seq![a],
        None => Seq::empty(),
    }
}

// ---------------------------------------------------------------------------
// Register and memory commands
// ---------------------------------------------------------------------------

/// The 32-bit big-endian address at `off` in `p`.
pub open spec fn addr_at(p: Seq<u8>, off: int) -> u64 {
    be_value(p.subrange(off, off + 4)) as u64
}

/// The data a register read answers for the addresses in `p`, four bytes for each.
pub open spec fn readreg_data(blob: Seq<u8>, rs: Seq<(u64, Seq<u8>)>, p: Seq<u8>) -> Seq<u8>
    decreases p.len(),
{
    if p.len() < 4 {
        Seq::empty()
    } else {
        readreg_data(blob, rs, p.subrange(0, p.len() - 4)) + spec_read(
            blob,
            rs,
            addr_at(p, p.len() - 4),
            4,
        )
    }
}

/// The registers after the address/value pairs of `p` were written in order.
pub open spec fn writereg_regs(rs: Seq<(u64, Seq<u8>)>, p: Seq<u8>) -> Seq<(u64, Seq<u8>)>
    decreases p.len(),
{
    if p.len() < 8 {
        rs
    } else {
        spec_write(
            writereg_regs(rs, p.subrange(0, p.len() - 8)),
            addr_at(p, p.len() - 8),
            p.subrange(p.len() - 4, p.len() as int),
        )
    }
}

/// The acquisition signals the pairs of `p` raise, in order.
pub open spec fn writereg_signals(p: Seq<u8>) -> Seq<AcqSignal>
    decreases p.len(),
{
    if p.len() < 8 {
        Seq::empty()
    } else {
        writereg_signals(p.subrange(0, p.len() - 8)) + signal_seq(
            acq_signal(addr_at(p, p.len() - 8), p.subrange(p.len() - 4, p.len() as int)),
        )
    }
}

/// What the camera does with one command packet.
#[derive(Debug)]
pub struct ServerReply {
    /// The acknowledge to send back, if any.
    pub response: Option<Vec<u8>>,
    /// Acquisition signals to raise, in order.
    pub signals: Vec<AcqSignal>,
}

/// The addresses of `p` up to `i + 4` are those up to `i` and the one at `i`.
proof fn lemma_readreg_step(blob: Seq<u8>, rs: Seq<(u64, Seq<u8>)>, p: Seq<u8>, i: int)
    requires
        0 <= i,
        i + 4 <= p.len(),
    ensures
        readreg_data(blob, rs, p.subrange(0, i + 4)) == readreg_data(blob, rs, p.subrange(0, i))
            + spec_read(blob, rs, addr_at(p, i), 4),
{
    let q = p.subrange(0, i + 4);
    assert(q.subrange(0, q.len() - 4) =~= p.subrange(0, i));
    assert(q.subrange(q.len() - 4, q.len() as int) =~= p.subrange(i, i + 4));
}

/// Answer a register read: `None` unless the payload is a non-empty list of four-byte
/// addresses.
pub fn handle_readreg(regs: &RegisterMap, request_id: u16, payload: &[u8]) -> (r: Option<Vec<u8>>)
    ensures
        (payload@.len() < 4 || payload@.len() % 4 != 0) <==> r is None,
        r matches Some(b) ==> b@ == ack_bytes(
            READREG_ACK,
            request_id,
            readreg_data(regs.blob(), regs.regs_view(), payload@),
        ),
{
    if payload.len() < 4 || payload.len() % 4 != 0 {
        return None;
    }
    let mut resp: Vec<u8> = Vec::new();
    let mut i: usize = 0;
    while i < payload.len()
        invariant
            i <= payload@.len(),
            i % 4 == 0,
            payload@.len() % 4 == 0,
            resp@ == readreg_data(regs.blob(), regs.regs_view(), payload@.subrange(0, i as int)),
        decreases payload@.len() - i,
    {
        let addr = be_decode(payload, i, i + 4);
        let data = regs.read(addr, 4);
        resp.extend_from_slice(data.as_slice());
        proof {
            lemma_readreg_step(regs.blob(), regs.regs_view(), payload@, i as int);
        }
        i = i + 4;
    }
    assert(payload@.subrange(0, payload@.len() as int) =~= payload@);
    Some(build_ack(READREG_ACK, request_id, resp.as_slice()))
}

/// The pairs of `p` up to `i + 8` are those up to `i` and the pair at `i`.
proof fn lemma_writereg_step(rs: Seq<(u64, Seq<u8>)>, p: Seq<u8>, i: int)
    requires
        0 <= i,
        i + 8 <= p.len(),
    ensures
        writereg_regs(rs, p.subrange(0, i + 8)) == spec_write(
            writereg_regs(rs, p.subrange(0, i)),
            addr_at(p, i),
            p.subrange(i + 4, i + 8),
        ),
        writereg_signals(p.subrange(0, i + 8)) == writereg_signals(p.subrange(0, i)) + signal_seq(
            acq_signal(addr_at(p, i), p.subrange(i + 4, i + 8)),
        ),
{
    let q = p.subrange(0, i + 8);
    assert(q.subrange(0, q.len() - 8) =~= p.subrange(0, i));
    assert(q.subrange(q.len() - 8, q.len() - 4) =~= p.subrange(i, i + 4));
    assert(q.subrange(q.len() - 4, q.len() as int) =~= p.subrange(i + 4, i + 8));
}

/// Apply a register write: `None`, with nothing written, unless the payload is a non-empty
/// list of eight-byte address/value pairs; the acknowledge carries four zero bytes.
pub fn handle_writereg(regs: &mut RegisterMap, request_id: u16, payload: &[u8]) -> (r: Option<
    (Vec<u8>, Vec<AcqSignal>),
>)
    ensures
        (payload@.len() < 8 || payload@.len() % 8 != 0) <==> r is None,
        r is None ==> final(regs).regs_view() == old(regs).regs_view(),
        r is Some ==> final(regs).regs_view() == writereg_regs(old(regs).regs_view(), payload@),
        final(regs).blob() == old(regs).blob(),
        r matches Some((b, s)) ==> b@ == ack_bytes(WRITEREG_ACK, request_id, zeros(4)) && s@
            == writereg_signals(payload@),
{
    if payload.len() < 8 || payload.len() % 8 != 0 {
        return None;
    }
    let mut signals: Vec<AcqSignal> = Vec::new();
    let mut i: usize = 0;
    while i < payload.len()
        invariant
            i <= payload@.len(),
            i % 8 == 0,
            payload@.len() % 8 == 0,
            regs.blob() == old(regs).blob(),
            regs.regs_view() == writereg_regs(old(regs).regs_view(), payload@.subrange(0, i as int)),
            signals@ == writereg_signals(payload@.subrange(0, i as int)),
        decreases payload@.len() - i,
    {
        let addr = be_decode(payload, i, i + 4);
        let value = vstd::slice::slice_subrange(payload, i + 4, i + 8);
        regs.write(addr, value);
        match check_acquisition(addr, value) {
            Some(s) => signals.push(s),
            None => {},
        }
        proof {
            lemma_writereg_step(old(regs).regs_view(), payload@, i as int);
        }
        i = i + 8;
    }
    assert(payload@.subrange(0, payload@.len() as int) =~= payload@);
    let zero: [u8; 4] = [0, 0, 0, 0];
    assert(zero@ =~= zeros(4));
    Some((build_ack(WRITEREG_ACK, request_id, zero.as_slice()), signals))
}

/// The acknowledge payload of a memory read: the address echo, then the bytes read.
pub open spec fn readmem_payload(blob: Seq<u8>, rs: Seq<(u64, Seq<u8>)>, p: Seq<u8>) -> Seq<u8> {
    be_bytes(addr_at(p, 0) as nat, 4) + spec_read(blob, rs, addr_at(p, 0), be_value(p.subrange(6, 8)))
}

/// Answer a memory read of `count` bytes at `address` (payload: address, two reserved
/// bytes, count); `None` for a payload under eight bytes.
pub fn handle_readmem(regs: &RegisterMap, request_id: u16, payload: &[u8]) -> (r: Option<Vec<u8>>)
    ensures
        payload@.len() < 8 <==> r is None,
        r matches Some(b) ==> b@ == ack_bytes(
            READMEM_ACK,
            request_id,
            readmem_payload(regs.blob(), regs.regs_view(), payload@),
        ),
{
    if payload.len() < 8 {
        return None;
    }
    let addr = be_decode(payload, 0, 4);
    let count = be_decode(payload, 6, 8);
    proof {
        crate::wire::lemma_pow256_values();
        crate::wire::lemma_be_value_bound(payload@.subrange(0, 4));
        crate::wire::lemma_be_value_bound(payload@.subrange(6, 8));
    }
    let data = regs.read(addr, count as usize);
    let mut resp: Vec<u8> = Vec::new();
    put_be(&mut resp, addr, 4);
    resp.extend_from_slice(data.as_slice());
    assert(resp@ =~= readmem_payload(regs.blob(), regs.regs_view(), payload@));
    Some(build_ack(READMEM_ACK, request_id, resp.as_slice()))
}

/// Apply a memory write (payload: address, then the data); `None`, with nothing written,
/// for a payload under four bytes. The acknowledge echoes the address.
pub fn handle_writemem(regs: &mut RegisterMap, request_id: u16, payload: &[u8]) -> (r: Option<
    (Vec<u8>, Option<AcqSignal>),
>)
    ensures
        payload@.len() < 4 <==> r is None,
        r is None ==> final(regs).regs_view() == old(regs).regs_view(),
        r is Some ==> final(regs).regs_view() == spec_write(
            old(regs).regs_view(),
            addr_at(payload@, 0),
            payload@.subrange(4, payload@.len() as int),
        ),
        final(regs).blob() == old(regs).blob(),
        r matches Some((b, s)) ==> b@ == ack_bytes(
            WRITEMEM_ACK,
            request_id,
            be_bytes(addr_at(payload@, 0) as nat, 4),
        ) && s == acq_signal(addr_at(payload@, 0), payload@.subrange(4, payload@.len() as int)),
{
    if payload.len() < 4 {
        return None;
    }
    let addr = be_decode(payload, 0, 4);
    proof {
        crate::wire::lemma_pow256_values();
        crate::wire::lemma_be_value_bound(payload@.subrange(0, 4));
    }
    let data = vstd::slice::slice_subrange(payload, 4, payload.len());
    regs.write(addr, data);
    let signal = check_acquisition(addr, data);
    let mut resp: Vec<u8> = Vec::new();
    put_be(&mut resp, addr, 4);
    Some((build_ack(WRITEMEM_ACK, request_id, resp.as_slice()), signal))
}

/// Serve one command packet received by the camera at `bind_ip`: packets that are too
/// short, lack the command key, carry an unknown command or a malformed payload get no
/// answer and change nothing.
pub fn handle_packet(regs: &mut RegisterMap, packet: &[u8], bind_ip: [u8; 4]) -> (r: ServerReply)
    ensures
        final(regs).blob() == old(regs).blob(),
        (packet@.len() < 8 || packet@[0] != GVCP_CMD_KEY) ==> r.response is None && r.signals@
            == Seq::<AcqSignal>::empty() && final(regs).regs_view() == old(regs).regs_view(),
        packet@.len() >= 8 && packet@[0] == GVCP_CMD_KEY ==> ({
            let command = be_value(packet@.subrange(2, 4));
            let rid = be_value(packet@.subrange(6, 8)) as u16;
            let p = packet@.subrange(8, packet@.len() as int);
            let rs = old(regs).regs_view();
            let blob = old(regs).blob();
            if command == DISCOVERY_CMD {
                &&& r.response matches Some(b) && b@ == discovery_ack_bytes(rid, bind_ip@)
                &&& r.signals@ == Seq::<AcqSignal>::empty()
                &&& final(regs).regs_view() == rs
            } else if command == READREG_CMD {
                &&& (p.len() < 4 || p.len() % 4 != 0) <==> r.response is None
                &&& r.response matches Some(b) ==> b@ == ack_bytes(
                    READREG_ACK,
                    rid,
                    readreg_data(blob, rs, p),
                )
                &&& r.signals@ == Seq::<AcqSignal>::empty()
                &&& final(regs).regs_view() == rs
            } else if command == WRITEREG_CMD {
                if p.len() < 8 || p.len() % 8 != 0 {
                    &&& r.response is None
                    &&& r.signals@ == Seq::<AcqSignal>::empty()
                    &&& final(regs).regs_view() == rs
                } else {
                    &&& r.response matches Some(b) && b@ == ack_bytes(WRITEREG_ACK, rid, zeros(4))
                    &&& r.signals@ == writereg_signals(p)
                    &&& final(regs).regs_view() == writereg_regs(rs, p)
                }
            } else if command == READMEM_CMD {
                &&& p.len() < 8 <==> r.response is None
                &&& r.response matches Some(b) ==> b@ == ack_bytes(
                    READMEM_ACK,
                    rid,
                    readmem_payload(blob, rs, p),
                )
                &&& r.signals@ == Seq::<AcqSignal>::empty()
                &&& final(regs).regs_view() == rs
            } else if command == WRITEMEM_CMD {
                if p.len() < 4 {
                    &&& r.response is None
                    &&& r.signals@ == Seq::<AcqSignal>::empty()
                    &&& final(regs).regs_view() == rs
                } else {
                    &&& r.response matches Some(b) && b@ == ack_bytes(
                        WRITEMEM_ACK,
                        rid,
                        be_bytes(addr_at(p, 0) as nat, 4),
                    )
                    &&& r.signals@ == signal_seq(acq_signal(addr_at(p, 0), p.subrange(4, p.len() as int)))
                    &&& final(regs).regs_view() == spec_write(
                        rs,
                        addr_at(p, 0),
                        p.subrange(4, p.len() as int),
                    )
                }
            } else {
                &&& r.response is None
                &&& r.signals@ == Seq::<AcqSignal>::empty()
                &&& final(regs).regs_view() == rs
            }
        }),
{
    if packet.len() < 8 || packet[0] != GVCP_CMD_KEY {
        return ServerReply { response: None, signals: Vec::new() };
    }
    let command = be_decode(packet, 2, 4);
    let request_id = be_decode(packet, 6, 8);
    proof {
        crate::wire::lemma_pow256_values();
        crate::wire::lemma_be_value_bound(packet@.subrange(6, 8));
    }
    let request_id = request_id as u16;
    let payload = vstd::slice::slice_subrange(packet, 8, packet.len());
    if command == DISCOVERY_CMD as u64 {
        ServerReply { response: Some(build_discovery_ack(request_id, bind_ip)), signals: Vec::new() }
    } else if command == READREG_CMD as u64 {
        ServerReply { response: handle_readreg(regs, request_id, payload), signals: Vec::new() }
    } else if command == WRITEREG_CMD as u64 {
        match handle_writereg(regs, request_id, payload) {
            Some((b, s)) => ServerReply { response: Some(b), signals: s },
            None => ServerReply { response: None, signals: Vec::new() },
        }
    } else if command == READMEM_CMD as u64 {
        ServerReply { response: handle_readmem(regs, request_id, payload), signals: Vec::new() }
    } else if command == WRITEMEM_CMD as u64 {
        match handle_writemem(regs, request_id, payload) {
            Some((b, s)) => {
                let mut signals: Vec<AcqSignal> = Vec::new();
                match s {
                    Some(a) => signals.push(a),
                    None => {},
                }
                assert(signals@ =~= signal_seq(s));
                ServerReply { response: Some(b), signals }
            },
            None => ServerReply { response: None, signals: Vec::new() },
        }
    } else {
        ServerReply { response: None, signals: Vec::new() }
    }
}


/// Law: a memory write answered by the camera is read back by a memory read of the same
/// address and length, outside the XML blob, where the address starts a register long
/// enough for the data or lies in no register at all.
pub proof fn lemma_writemem_then_readmem(
    blob: Seq<u8>,
    rs: Seq<(u64, Seq<u8>)>,
    write_payload: Seq<u8>,
    read_payload: Seq<u8>,
)
    requires
        write_payload.len() >= 4,
        read_payload.len() >= 8,
        addr_at(read_payload, 0) == addr_at(write_payload, 0),
        be_value(read_payload.subrange(6, 8)) == write_payload.len() - 4,
        ({
            let addr = addr_at(write_payload, 0);
            let n = (write_payload.len() - 4) as nat;
            ||| (crate::fake_gige::span_in_register(blob, rs, addr, n) && n <= rs[crate::fake_gige::exact_index(rs, addr)].1.len())
            ||| crate::fake_gige::span_free(blob, rs, addr, n)
        }),
    ensures
        readmem_payload(
            blob,
            spec_write(rs, addr_at(write_payload, 0), write_payload.subrange(4, write_payload.len() as int)),
            read_payload,
        ) == be_bytes(addr_at(write_payload, 0) as nat, 4) + write_payload.subrange(
            4,
            write_payload.len() as int,
        ),
{
    let addr = addr_at(write_payload, 0);
    let data = write_payload.subrange(4, write_payload.len() as int);
    if crate::fake_gige::span_in_register(blob, rs, addr, data.len()) && data.len() <= rs[crate::fake_gige::exact_index(rs, addr)].1.len() {
        crate::fake_gige::lemma_write_register_reads_back(blob, rs, addr, data);
    } else {
        crate::fake_gige::lemma_write_new_register_reads_back(blob, rs, addr, data);
    }
}


/// Law: the client reads back every field of an acknowledge the camera builds: success
/// status, acknowledge code, payload length, request id, and the payload itself.
pub proof fn lemma_ack_roundtrip(ack_cmd: u16, request_id: u16, payload: Seq<u8>)
    requires
        payload.len() <= u16::MAX,
    ensures
        crate::gvcp::ack_header_of(ack_bytes(ack_cmd, request_id, payload))
            == (crate::gvcp::GvcpAckHeader {
            status: STATUS_SUCCESS,
            command: ack_cmd,
            length: payload.len() as u16,
            request_id,
        }),
        ack_bytes(ack_cmd, request_id, payload).subrange(
            8,
            ack_bytes(ack_cmd, request_id, payload).len() as int,
        ) == payload,
{
    let b = ack_bytes(ack_cmd, request_id, payload);
    crate::wire::lemma_pow256_values();
    crate::wire::lemma_be_bytes_len(STATUS_SUCCESS as nat, 2);
    crate::wire::lemma_be_bytes_len(ack_cmd as nat, 2);
    crate::wire::lemma_be_bytes_len(payload.len(), 2);
    crate::wire::lemma_be_bytes_len(request_id as nat, 2);
    assert(b.subrange(0, 2) =~= be_bytes(STATUS_SUCCESS as nat, 2));
    assert(b.subrange(2, 4) =~= be_bytes(ack_cmd as nat, 2));
    assert(b.subrange(4, 6) =~= be_bytes(payload.len(), 2));
    assert(b.subrange(6, 8) =~= be_bytes(request_id as nat, 2));
    crate::wire::lemma_be_value_of_bytes(STATUS_SUCCESS as nat, 2);
    crate::wire::lemma_be_value_of_bytes(ack_cmd as nat, 2);
    crate::wire::lemma_be_value_of_bytes(payload.len(), 2);
    crate::wire::lemma_be_value_of_bytes(request_id as nat, 2);
    assert(b.subrange(8, b.len() as int) =~= payload);
}


/// Law: the camera reads back what the client's command header says: the command key, the
/// command, the request id, and the payload after the header.
pub proof fn lemma_request_roundtrip(h: crate::gvcp::GvcpRequestHeader, payload: Seq<u8>)
    ensures
        ({
            let p = crate::gvcp::request_bytes(h, payload);
            &&& p.len() == 8 + payload.len()
            &&& p[0] == GVCP_CMD_KEY
            &&& be_value(p.subrange(2, 4)) == h.command
            &&& be_value(p.subrange(6, 8)) == h.request_id
            &&& p.subrange(8, p.len() as int) == payload
        }),
{
    let p = crate::gvcp::request_bytes(h, payload);
    crate::wire::lemma_pow256_values();
    crate::wire::lemma_be_bytes_len(h.command as nat, 2);
    crate::wire::lemma_be_bytes_len(h.length as nat, 2);
    crate::wire::lemma_be_bytes_len(h.request_id as nat, 2);
    assert(p.subrange(2, 4) =~= be_bytes(h.command as nat, 2));
    assert(p.subrange(6, 8) =~= be_bytes(h.request_id as nat, 2));
    crate::wire::lemma_be_value_of_bytes(h.command as nat, 2);
    crate::wire::lemma_be_value_of_bytes(h.request_id as nat, 2);
    assert(p.subrange(8, p.len() as int) =~= payload);
}

} // verus!
