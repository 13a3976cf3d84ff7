//! Command-line helpers: MAC addresses, PGM/PPM images, event lists and stream modes.
use vstd::prelude::*;
use vstd::string::StringSliceAdditionalSpecFns;
use crate::text::{
    all_ascii, ascii_chars, ascii_string, bytes_eq, dec_digits, decimal_string, digits_value,
    digit_value, hex_digit_upper, is_sep, lemma_split_fields_nonempty, lossy_string, lowered, push_decimal,
    parse_unsigned, spec_parse_unsigned, split_bytes, split_fields, to_ascii_lower, trim, trimmed,
    utf8_lossy, views, IntErrorKind,
};
use crate::xml_model::AccessMode;

verus! {

// ---------------------------------------------------------------------------
// MAC addresses
// ---------------------------------------------------------------------------

/// Two upper-case hexadecimal digits of a byte.
pub open spec fn hex2(b: u8) -> Seq<u8> {
    seq![hex_digit_upper(b as nat / 16), hex_digit_upper(b as nat % 16)]
}

/// `AA:BB:...` text of a sequence of bytes.
pub open spec fn mac_text(m: Seq<u8>) -> Seq<u8>
    decreases m.len(),
{
    if m.len() == 0 {
        Seq::empty()
    } else if m.len() == 1 {
        hex2(m[0])
    } else {
        mac_text(m.drop_last()) + seq![58u8] + hex2(m.last())
    }
}

proof fn lemma_mac_text_ascii(m: Seq<u8>)
    ensures
        all_ascii(mac_text(m)),
    decreases m.len(),
{
    if m.len() > 1 {
        lemma_mac_text_ascii(m.drop_last());
    }
}

fn push_hex2(buf: &mut Vec<u8>, b: u8)
    ensures
        final(buf)@ == old(buf)@ + hex2(b),
{
    let hi = b / 16;
    let lo = b % 16;
    let c1: u8 = if hi < 10 {
        48 + hi
    } else {
        55 + hi
    };
    let c2: u8 = if lo < 10 {
        48 + lo
    } else {
        55 + lo
    };
    buf.push(c1);
    buf.push(c2);
    assert(buf@ =~= old(buf)@ + hex2(b));
}

/// Format a MAC address as `AA:BB:CC:DD:EE:FF` (upper-case hex).
pub fn format_mac(mac: &[u8; 6]) -> (s: String)
    ensures
        s@ == ascii_chars(mac_text(mac@)),
{
    let mut buf: Vec<u8> = Vec::new();
    let mut i: usize = 0;
    while i < 6
        invariant
            i <= 6,
            mac@.len() == 6,
            buf@ == mac_text(mac@.subrange(0, i as int)),
        decreases 6 - i,
    {
        let ghost pre = mac@.subrange(0, i as int);
        assert(mac@.subrange(0, i + 1).drop_last() =~= pre);
        if i > 0 {
            buf.push(58u8);
        }
        push_hex2(&mut buf, mac[i]);
        proof {
            if i == 0 {
                assert(buf@ =~= mac_text(mac@.subrange(0, 1)));
            } else {
                assert(buf@ =~= mac_text(mac@.subrange(0, i + 1)));
            }
        }
        i = i + 1;
    }
    proof {
        assert(mac@.subrange(0, 6) =~= mac@);
        lemma_mac_text_ascii(mac@);
    }
    ascii_string(buf)
}

/// Index of the first field at or after `k` that is not a hexadecimal byte, or `f.len()`.
pub open spec fn first_bad_byte(f: Seq<Seq<u8>>, k: int) -> int
    decreases f.len() - k,
{
    if k >= f.len() {
        f.len() as int
    } else if spec_parse_unsigned(f[k], 16, 255) is Err {
        k
    } else {
        first_bad_byte(f, k + 1)
    }
}

pub(crate) proof fn lemma_first_bad_byte(f: Seq<Seq<u8>>, k: int)
    requires
        0 <= k <= f.len(),
    ensures
        k <= first_bad_byte(f, k) <= f.len(),
        first_bad_byte(f, k) < f.len() ==> spec_parse_unsigned(f[first_bad_byte(f, k)], 16, 255) is Err,
        forall|j: int| k <= j < first_bad_byte(f, k) ==> spec_parse_unsigned(f[j], 16, 255) is Ok,
    decreases f.len() - k,
{
    if k < f.len() && spec_parse_unsigned(f[k], 16, 255) is Ok {
        lemma_first_bad_byte(f, k + 1);
    }
}

/// The six bytes named by six hexadecimal fields.
pub open spec fn mac_of_fields(f: Seq<Seq<u8>>) -> Seq<u8> {
    Seq::new(6, |i: int| spec_parse_unsigned(f[i], 16, 255)->Ok_0 as u8)
}

/// Outcome of reading six hexadecimal fields: the bytes, or the index of the first bad field.
pub(crate) enum FieldsOutcome {
    Bytes([u8; 6]),
    BadField(usize),
}

pub(crate) fn parse_six_fields(f: &Vec<Vec<u8>>) -> (r: FieldsOutcome)
    requires
        f@.len() == 6,
    ensures
        r matches FieldsOutcome::BadField(i) ==> i < 6 && i as int == first_bad_byte(views(f@), 0),
        first_bad_byte(views(f@), 0) < 6 ==> r == FieldsOutcome::BadField(
            first_bad_byte(views(f@), 0) as usize,
        ),
        first_bad_byte(views(f@), 0) == 6 ==> (r matches FieldsOutcome::Bytes(m) && m@
            == mac_of_fields(views(f@))),
{
    let ghost fv = views(f@);
    proof {
        lemma_first_bad_byte(fv, 0);
    }
    let mut mac: [u8; 6] = [0u8; 6];
    let mut i: usize = 0;
    while i < 6
        invariant
            i <= 6,
            f@.len() == 6,
            fv == views(f@),
            first_bad_byte(fv, 0) == first_bad_byte(fv, i as int),
            forall|j: int| 0 <= j < i ==> mac@[j] == mac_of_fields(fv)[j],
            forall|j: int| 0 <= j < i ==> spec_parse_unsigned(#[trigger] fv[j], 16, 255) is Ok,
        decreases 6 - i,
    {
        assert(fv[i as int] == f@[i as int]@);
        match parse_unsigned(f[i].as_slice(), 16, 255) {
            Ok(v) => {
                proof {
                    crate::text::lemma_parse_unsigned_bound(fv[i as int], 16, 255);
                }
                mac[i] = v as u8;
            },
            Err(_) => {
                return FieldsOutcome::BadField(i);
            },
        }
        i = i + 1;
    }
    assert(mac@ =~= mac_of_fields(fv));
    FieldsOutcome::Bytes(mac)
}

/// Message for a MAC address without six colon-separated fields.
pub open spec fn mac_count_msg(s: Seq<char>) -> Seq<char> {
    "invalid MAC address '"@ + s + "': expected 6 colon-separated hex bytes"@
}

/// Message for a MAC address field that is not a hexadecimal byte.
pub open spec fn mac_byte_msg(part: Seq<u8>) -> Seq<char> {
    "invalid hex byte '"@ + utf8_lossy(part) + "' in MAC address"@
}

/// Parse a MAC address string like `DE:AD:BE:EF:CA:FE` into six bytes.
pub fn parse_mac(s: &str) -> (r: Result<[u8; 6], String>)
    ensures
        ({
            let f = split_fields(s.spec_bytes(), 58, 58);
            if f.len() != 6 {
                r matches Err(m) && m@ == mac_count_msg(s@)
            } else if first_bad_byte(f, 0) < 6 {
                r matches Err(m) && m@ == mac_byte_msg(f[first_bad_byte(f, 0)])
            } else {
                r matches Ok(mac) && mac@ == mac_of_fields(f)
            }
        }),
{
    let bytes = s.as_bytes();
    let parts = split_bytes(bytes, 58, 58);
    if parts.len() != 6 {
        let mut msg = String::from_str("invalid MAC address '");
        msg.append(s);
        msg.append("': expected 6 colon-separated hex bytes");
        return Err(msg);
    }
    proof {
        lemma_first_bad_byte(views(parts@), 0);
    }
    match parse_six_fields(&parts) {
        FieldsOutcome::Bytes(mac) => Ok(mac),
        FieldsOutcome::BadField(i) => {
            assert(views(parts@)[i as int] == parts@[i as int]@);
            let mut msg = String::from_str("invalid hex byte '");
            let part = lossy_string(parts[i].as_slice());
            msg.append(part.as_str());
            msg.append("' in MAC address");
            Err(msg)
        },
    }
}

// ---------------------------------------------------------------------------
// Portable graymap / pixmap images
// ---------------------------------------------------------------------------

/// `P<kind>\n<width> <height>\n255\n`.
pub open spec fn pnm_header(kind: u8, width: u32, height: u32) -> Seq<u8> {
    seq![80u8, kind, 10u8] + dec_digits(width as nat) + seq![32u8] + dec_digits(height as nat) + seq![
        10u8,
        50u8,
        53u8,
        53u8,
        10u8,
    ]
}

/// Message for an image payload of the wrong size.
pub open spec fn pnm_mismatch_msg(kind: Seq<char>, expected: nat, got: nat) -> Seq<char> {
    kind + " payload length mismatch: expected "@ + ascii_chars(dec_digits(expected))
        + ", got "@ + ascii_chars(dec_digits(got))
}

fn pnm_encode(kind: u8, width: u32, height: u32, channels: usize, data: &[u8]) -> (r: Result<Vec<u8>, String>)
    requires
        kind == 53 || kind == 54,
        channels == 1 || channels == 3,
    ensures
        ({
            let area = width as nat * height as nat * channels as nat;
            let label = if kind == 53 { "PGM"@ } else { "PPM"@ };
            if area > usize::MAX {
                r matches Err(m) && m@ == "image area overflow"@
            } else if area != data@.len() {
                r matches Err(m) && m@ == pnm_mismatch_msg(label, area, data@.len() as nat)
            } else {
                r matches Ok(buf) && buf@ == pnm_header(kind, width, height) + data@
            }
        }),
{
    let w = width as usize;
    let h = height as usize;
    let px = match w.checked_mul(h) {
        Some(v) => v,
        None => {
            proof {
                assert(width as nat * height as nat * channels as nat >= width as nat * height as nat)
                    by (nonlinear_arith)
                    requires
                        channels >= 1,
                ;
            }
            return Err(String::from_str("image area overflow"));
        },
    };
    let expected = match px.checked_mul(channels) {
        Some(v) => v,
        None => {
            return Err(String::from_str("image area overflow"));
        },
    };
    if expected != data.len() {
        let mut msg = if kind == 53 {
            String::from_str("PGM")
        } else {
            String::from_str("PPM")
        };
        msg.append(" payload length mismatch: expected ");
        let e = decimal_string(expected as u64);
        msg.append(e.as_str());
        msg.append(", got ");
        let g = decimal_string(data.len() as u64);
        msg.append(g.as_str());
        return Err(msg);
    }
    let mut buf: Vec<u8> = Vec::new();
    buf.push(80u8);
    buf.push(kind);
    buf.push(10u8);
    push_decimal(&mut buf, width as u64);
    buf.push(32u8);
    push_decimal(&mut buf, height as u64);
    buf.push(10u8);
    buf.push(50u8);
    buf.push(53u8);
    buf.push(53u8);
    buf.push(10u8);
    assert(buf@ =~= pnm_header(kind, width, height));
    buf.extend_from_slice(data);
    assert(buf@ =~= pnm_header(kind, width, height) + data@);
    Ok(buf)
}

/// Encode an 8-bit grayscale image as a binary PGM file.
pub fn encode_pgm(width: u32, height: u32, data: &[u8]) -> (r: Result<Vec<u8>, String>)
    ensures
        ({
            let area = width as nat * height as nat;
            if area > usize::MAX {
                r matches Err(m) && m@ == "image area overflow"@
            } else if area != data@.len() {
                r matches Err(m) && m@ == pnm_mismatch_msg("PGM"@, area, data@.len() as nat)
            } else {
                r matches Ok(buf) && buf@ == pnm_header(53, width, height) + data@
            }
        }),
{
    proof {
        assert(width as nat * height as nat * 1 == width as nat * height as nat);
    }
    pnm_encode(53, width, height, 1, data)
}

/// Encode an 8-bit RGB image as a binary PPM file.
pub fn encode_ppm(width: u32, height: u32, data: &[u8]) -> (r: Result<Vec<u8>, String>)
    ensures
        ({
            let area = width as nat * height as nat * 3;
            if area > usize::MAX {
                r matches Err(m) && m@ == "image area overflow"@
            } else if area != data@.len() {
                r matches Err(m) && m@ == pnm_mismatch_msg("PPM"@, area, data@.len() as nat)
            } else {
                r matches Ok(buf) && buf@ == pnm_header(54, width, height) + data@
            }
        }),
{
    pnm_encode(54, width, height, 3, data)
}

// ---------------------------------------------------------------------------
// Event lists, stream modes, read-back
// ---------------------------------------------------------------------------

/// The non-empty trimmed fields of a comma-separated list.
pub open spec fn kept_fields(f: Seq<Seq<u8>>) -> Seq<Seq<u8>>
    decreases f.len(),
{
    if f.len() == 0 {
        Seq::empty()
    } else if trimmed(f.last()).len() > 0 {
        kept_fields(f.drop_last()).push(trimmed(f.last()))
    } else {
        kept_fields(f.drop_last())
    }
}

/// The text of a list of strings.
pub open spec fn string_views(v: Seq<String>) -> Seq<Seq<char>> {
    v.map_values(|s: String| s@)
}

/// Split a comma-separated list of event names, dropping blanks.
pub fn parse_events(csv: &str) -> (out: Vec<String>)
    ensures
        string_views(out@) == kept_fields(split_fields(csv.spec_bytes(), 44, 44)).map_values(
            |b: Seq<u8>| utf8_lossy(b),
        ),
{
    let parts = split_bytes(csv.as_bytes(), 44, 44);
    let ghost f = views(parts@);
    let mut out: Vec<String> = Vec::new();
    let mut i: usize = 0;
    while i < parts.len()
        invariant
            i <= parts@.len(),
            f == views(parts@),
            string_views(out@) =~= kept_fields(f.subrange(0, i as int)).map_values(
                |b: Seq<u8>| utf8_lossy(b),
            ),
        decreases parts@.len() - i,
    {
        assert(f.subrange(0, i + 1).drop_last() =~= f.subrange(0, i as int));
        assert(f[i as int] == parts@[i as int]@);
        let t = trim(parts[i].as_slice());
        if t.len() > 0 {
            let ghost before = out@;
            out.push(lossy_string(t));
            assert(string_views(out@) =~= string_views(before).push(utf8_lossy(t@)));
        }
        i = i + 1;
    }
    assert(f.subrange(0, f.len() as int) =~= f);
    out
}

/// How a stream is delivered to the host.
#[derive(Debug, Clone, Copy, PartialEq, Eq, Structural)]
pub enum StreamMode {
    Unicast,
    Multicast,
}

/// Message for an unknown stream mode.
pub open spec fn stream_mode_msg(word: Seq<u8>) -> Seq<char> {
    "unknown stream mode '"@ + utf8_lossy(word) + "' (expected unicast or multicast)"@
}

/// Parse `unicast` or `multicast` (any case).
pub fn parse_mode(value: &str) -> (r: Result<StreamMode, String>)
    ensures
        ({
            let w = lowered(value.spec_bytes());
            if w == seq![117u8, 110, 105, 99, 97, 115, 116] {
                r == Ok::<StreamMode, String>(StreamMode::Unicast)
            } else if w == seq![109u8, 117, 108, 116, 105, 99, 97, 115, 116] {
                r == Ok::<StreamMode, String>(StreamMode::Multicast)
            } else {
                r matches Err(m) && m@ == stream_mode_msg(w)
            }
        }),
{
    let w = to_ascii_lower(value.as_bytes());
    let uni: [u8; 7] = [117u8, 110, 105, 99, 97, 115, 116];
    let multi: [u8; 9] = [109u8, 117, 108, 116, 105, 99, 97, 115, 116];
    assert(uni@ =~= seq![117u8, 110, 105, 99, 97, 115, 116]);
    assert(multi@ =~= seq![109u8, 117, 108, 116, 105, 99, 97, 115, 116]);
    if bytes_eq(w.as_slice(), uni.as_slice()) {
        Ok(StreamMode::Unicast)
    } else if bytes_eq(w.as_slice(), multi.as_slice()) {
        Ok(StreamMode::Multicast)
    } else {
        let mut msg = String::from_str("unknown stream mode '");
        let other = lossy_string(w.as_slice());
        msg.append(other.as_str());
        msg.append("' (expected unicast or multicast)");
        Err(msg)
    }
}

/// Whether a node's value can be read back after writing it: only readable nodes can.
pub fn can_read_back(access: Option<AccessMode>) -> (r: bool)
    ensures
        r == (access == Some(AccessMode::RO) || access == Some(AccessMode::RW)),
{
    match access {
        Some(AccessMode::RO) | Some(AccessMode::RW) => true,
        _ => false,
    }
}

// ---------------------------------------------------------------------------
// Laws
// ---------------------------------------------------------------------------

/// A field without separators splits into itself.
proof fn lemma_split_plain(h: Seq<u8>, a: u8, b: u8)
    requires
        forall|i: int| 0 <= i < h.len() ==> !is_sep(h[i], a, b),
    ensures
        split_fields(h, a, b) == seq![h],
    decreases h.len(),
{
    if h.len() > 0 {
        lemma_split_plain(h.drop_last(), a, b);
        assert(h.drop_last().push(h.last()) =~= h);
        assert(seq![h.drop_last()].update(0, h.drop_last().push(h.last())) =~= seq![h]);
    } else {
        assert(h =~= Seq::<u8>::empty());
    }
}

/// Appending a separator and a field without separators adds that field.
proof fn lemma_split_append(t: Seq<u8>, sep: u8, h: Seq<u8>, a: u8, b: u8)
    requires
        is_sep(sep, a, b),
        forall|i: int| 0 <= i < h.len() ==> !is_sep(h[i], a, b),
    ensures
        split_fields(t + seq![sep] + h, a, b) == split_fields(t, a, b).push(h),
    decreases h.len(),
{
    let s = t + seq![sep] + h;
    if h.len() == 0 {
        assert(s.drop_last() =~= t);
        assert(s.last() == sep);
        assert(h =~= Seq::<u8>::empty());
    } else {
        lemma_split_append(t, sep, h.drop_last(), a, b);
        assert(s.drop_last() =~= t + seq![sep] + h.drop_last());
        assert(s.last() == h.last());
        let f = split_fields(t, a, b).push(h.drop_last());
        assert(h.drop_last().push(h.last()) =~= h);
        assert(f.update(f.len() - 1, f.last().push(h.last())) =~= split_fields(t, a, b).push(h));
    }
}

proof fn lemma_hex2_fields(x: u8)
    ensures
        forall|i: int| 0 <= i < hex2(x).len() ==> !is_sep(#[trigger] hex2(x)[i], 58, 58),
        forall|i: int| 0 <= i < hex2(x).len() ==> !is_sep(#[trigger] hex2(x)[i], 58, 45),
        spec_parse_unsigned(hex2(x), 16, 255) == Ok::<nat, IntErrorKind>(x as nat),
{
    let s = hex2(x);
    let hi = x as nat / 16;
    let lo = x as nat % 16;
    assert(digit_value(hex_digit_upper(hi), 16) == Some(hi));
    assert(digit_value(hex_digit_upper(lo), 16) == Some(lo));
    assert(s.drop_last() =~= seq![hex_digit_upper(hi)]);
    assert(s.drop_last().drop_last() =~= Seq::<u8>::empty());
    assert(digits_value(s.drop_last().drop_last(), 16, 255, IntErrorKind::PosOverflow) == Ok::<
        nat,
        IntErrorKind,
    >(0));
    assert(digits_value(s.drop_last(), 16, 255, IntErrorKind::PosOverflow) == Ok::<nat, IntErrorKind>(
        hi,
    ));
    assert(hi * 16 + lo == x);
    assert(digits_value(s, 16, 255, IntErrorKind::PosOverflow) == Ok::<nat, IntErrorKind>(x as nat));
}

/// The fields of the text of the first `k` bytes of a MAC address are their hex pairs.
proof fn lemma_mac_fields(m: Seq<u8>, a: u8, b: u8)
    requires
        m.len() >= 1,
        is_sep(58, a, b),
        forall|x: u8, i: int| 0 <= i < 2 ==> !is_sep(#[trigger] hex2(x)[i], a, b),
    ensures
        split_fields(mac_text(m), a, b) == Seq::new(m.len(), |i: int| hex2(m[i])),
    decreases m.len(),
{
    if m.len() == 1 {
        lemma_split_plain(hex2(m[0]), a, b);
        assert(Seq::new(1, |i: int| hex2(m[i])) =~= seq![hex2(m[0])]);
    } else {
        lemma_mac_fields(m.drop_last(), a, b);
        lemma_split_append(mac_text(m.drop_last()), 58, hex2(m.last()), a, b);
        assert(Seq::new(m.drop_last().len(), |i: int| hex2(m.drop_last()[i])).push(hex2(m.last()))
            =~= Seq::new(m.len(), |i: int| hex2(m[i])));
    }
}

/// Formatting a MAC address and parsing the text gives the address back: the fields
/// of the formatted text are six hexadecimal bytes, and they are the address's bytes.
pub proof fn lemma_mac_roundtrip(m: Seq<u8>)
    requires
        m.len() == 6,
    ensures
        split_fields(mac_text(m), 58, 58).len() == 6,
        first_bad_byte(split_fields(mac_text(m), 58, 58), 0) == 6,
        mac_of_fields(split_fields(mac_text(m), 58, 58)) == m,
        split_fields(mac_text(m), 58, 45) == split_fields(mac_text(m), 58, 58),
{
    assert forall|x: u8, i: int| 0 <= i < 2 implies !is_sep(#[trigger] hex2(x)[i], 58, 58) by {
        lemma_hex2_fields(x);
    }
    assert forall|x: u8, i: int| 0 <= i < 2 implies !is_sep(#[trigger] hex2(x)[i], 58, 45) by {
        lemma_hex2_fields(x);
    }
    lemma_mac_fields(m, 58, 58);
    lemma_mac_fields(m, 58, 45);
    let f = split_fields(mac_text(m), 58, 58);
    assert forall|k: int| 0 <= k < 6 implies spec_parse_unsigned(#[trigger] f[k], 16, 255)
        == Ok::<nat, IntErrorKind>(m[k] as nat) by {
        lemma_hex2_fields(m[k]);
    }
    assert(first_bad_byte(f, 6) == 6);
    assert(first_bad_byte(f, 5) == 6);
    assert(first_bad_byte(f, 4) == 6);
    assert(first_bad_byte(f, 3) == 6);
    assert(first_bad_byte(f, 2) == 6);
    assert(first_bad_byte(f, 1) == 6);
    assert(first_bad_byte(f, 0) == 6);
    assert(mac_of_fields(f) =~= m);
}


/// Law: parsing the text `format_mac` gives for an address gives the address back. `s` is
/// that text, as `format_mac` states it; `parse_mac` reads the fields of its bytes.
pub proof fn lemma_format_then_parse_mac(m: Seq<u8>, s: Seq<char>)
    requires
        m.len() == 6,
        s == ascii_chars(mac_text(m)),
    ensures
        split_fields(vstd::utf8::encode_utf8(s), 58, 58).len() == 6,
        first_bad_byte(split_fields(vstd::utf8::encode_utf8(s), 58, 58), 0) == 6,
        mac_of_fields(split_fields(vstd::utf8::encode_utf8(s), 58, 58)) == m,
{
    lemma_mac_text_ascii(m);
    crate::text::lemma_ascii_encode(mac_text(m));
    lemma_mac_roundtrip(m);
}

// ---------------------------------------------------------------------------
// USB3 Vision stream size
// ---------------------------------------------------------------------------

/// Bytes per pixel of a pixel format name: three for the 8-bit colour formats, two for
/// `Mono16`, one otherwise.
pub open spec fn bytes_per_pixel(pf: Seq<u8>) -> nat {
    if pf == seq![82u8, 71, 66, 56, 80, 97, 99, 107, 101, 100] || pf == seq![82u8, 71, 66, 56]
        || pf == seq![66u8, 71, 82, 56] || pf == seq![66u8, 71, 82, 56, 80, 97, 99, 107, 101, 100] {
        3
    } else if pf == seq![77u8, 111, 110, 111, 49, 54] {
        2
    } else {
        1
    }
}

fn bpp_of(pf: &[u8]) -> (n: usize)
    ensures
        n == bytes_per_pixel(pf@),
{
    let rgb8p: [u8; 10] = [82, 71, 66, 56, 80, 97, 99, 107, 101, 100];
    let rgb8: [u8; 4] = [82, 71, 66, 56];
    let bgr8: [u8; 4] = [66, 71, 82, 56];
    let bgr8p: [u8; 10] = [66, 71, 82, 56, 80, 97, 99, 107, 101, 100];
    let mono16: [u8; 6] = [77, 111, 110, 111, 49, 54];
    proof {
        assert(rgb8p@ =~= seq![82u8, 71, 66, 56, 80, 97, 99, 107, 101, 100]);
        assert(rgb8@ =~= seq![82u8, 71, 66, 56]);
        assert(bgr8@ =~= seq![66u8, 71, 82, 56]);
        assert(bgr8p@ =~= seq![66u8, 71, 82, 56, 80, 97, 99, 107, 101, 100]);
        assert(mono16@ =~= seq![77u8, 111, 110, 111, 49, 54]);
    }
    if bytes_eq(pf, rgb8p.as_slice()) || bytes_eq(pf, rgb8.as_slice()) || bytes_eq(pf, bgr8.as_slice())
        || bytes_eq(pf, bgr8p.as_slice()) {
        3
    } else if bytes_eq(pf, mono16.as_slice()) {
        2
    } else {
        1
    }
}

/// Law: the 8-bit colour formats `RGB8Packed`, `RGB8`, `BGR8` and `BGR8Packed` take three
/// bytes per pixel.
pub proof fn lemma_colour_formats_three_bytes(pf: &str)
    requires
        pf@ == "RGB8Packed"@ || pf@ == "RGB8"@ || pf@ == "BGR8"@ || pf@ == "BGR8Packed"@,
    ensures
        bytes_per_pixel(pf.spec_bytes()) == 3,
{
    reveal_strlit("RGB8Packed");
    reveal_strlit("RGB8");
    reveal_strlit("BGR8");
    reveal_strlit("BGR8Packed");
    let c = pf@;
    assert(vstd::utf8::is_ascii_chars(c));
    vstd::utf8::is_ascii_chars_encode_utf8(c);
    let b = pf.spec_bytes();
    assert(b.len() == c.len());
    if c == "RGB8Packed"@ {
        assert(b =~= seq![82u8, 71, 66, 56, 80, 97, 99, 107, 101, 100]);
    } else if c == "RGB8"@ {
        assert(b =~= seq![82u8, 71, 66, 56]);
    } else if c == "BGR8"@ {
        assert(b =~= seq![66u8, 71, 82, 56]);
    } else {
        assert(b =~= seq![66u8, 71, 82, 56, 80, 97, 99, 107, 101, 100]);
    }
}

/// Law: `Mono16` takes two bytes per pixel.
pub proof fn lemma_mono16_two_bytes(pf: &str)
    requires
        pf@ == "Mono16"@,
    ensures
        bytes_per_pixel(pf.spec_bytes()) == 2,
{
    reveal_strlit("Mono16");
    let c = pf@;
    assert(vstd::utf8::is_ascii_chars(c));
    vstd::utf8::is_ascii_chars_encode_utf8(c);
    let b = pf.spec_bytes();
    assert(b.len() == c.len());
    assert(b =~= seq![77u8, 111, 110, 111, 49, 54]);
}

/// Payload size of a USB3 Vision frame: width times height times the bytes per pixel of the
/// pixel format, with 640 by 480 where the camera's width or height could not be read;
/// `None` where the size does not fit in `usize`. The 8-bit colour formats take three bytes
/// per pixel.
pub fn u3v_payload_size(width: Option<u32>, height: Option<u32>, pixel_format: &str) -> (n: Option<usize>)
    ensures
        ({
            let w: nat = if width is Some { width->Some_0 as nat } else { 640 };
            let h: nat = if height is Some { height->Some_0 as nat } else { 480 };
            let size = w * h * bytes_per_pixel(pixel_format.spec_bytes());
            if size <= usize::MAX { n == Some(size as usize) } else { n is None }
        }),
        pixel_format@ == "RGB8Packed"@ || pixel_format@ == "RGB8"@ || pixel_format@ == "BGR8"@ || pixel_format@
            == "BGR8Packed"@ ==> ({
            let w: nat = if width is Some { width->Some_0 as nat } else { 640 };
            let h: nat = if height is Some { height->Some_0 as nat } else { 480 };
            if w * h * 3 <= usize::MAX { n == Some((w * h * 3) as usize) } else { n is None }
        }),
        pixel_format@ == "Mono16"@ ==> ({
            let w: nat = if width is Some { width->Some_0 as nat } else { 640 };
            let h: nat = if height is Some { height->Some_0 as nat } else { 480 };
            if w * h * 2 <= usize::MAX { n == Some((w * h * 2) as usize) } else { n is None }
        }),
{
    proof {
        if pixel_format@ == "RGB8Packed"@ || pixel_format@ == "RGB8"@ || pixel_format@ == "BGR8"@ || pixel_format@
            == "BGR8Packed"@ {
            lemma_colour_formats_three_bytes(pixel_format);
        }
        if pixel_format@ == "Mono16"@ {
            lemma_mono16_two_bytes(pixel_format);
        }
    }
    let w: u32 = match width {
        Some(v) => v,
        None => 640,
    };
    let h: u32 = match height {
        Some(v) => v,
        None => 480,
    };
    let bpp = bpp_of(pixel_format.as_bytes());
    proof {
        assert((w as int) * (h as int) <= 0xffff_fffe_0000_0001) by (nonlinear_arith)
            requires
                0 <= w <= 0xffff_ffff,
                0 <= h <= 0xffff_ffff,
        ;
    }
    let wh = (w as u64) * (h as u64);
    match (wh as u128).checked_mul(bpp as u128) {
        Some(size) => if size <= usize::MAX as u128 {
            Some(size as usize)
        } else {
            None
        },
        None => None,
    }
}

// ---------------------------------------------------------------------------
// Frame assembly from stream packets
// ---------------------------------------------------------------------------

/// A block being received: what its leader announced and the payload so far.
#[derive(Debug)]
pub struct BlockState {
    pub block_id: u64,
    pub width: u32,
    pub height: u32,
    /// PFNC code of the pixel format.
    pub pixel_format: u32,
    pub timestamp: u64,
    pub payload: Vec<u8>,
}

/// A stream packet, as far as frame assembly reads it.
#[derive(Debug)]
pub enum StreamPacket {
    Leader { block_id: u64, width: u32, height: u32, pixel_format: u32, timestamp: u64 },
    Payload { block_id: u64, data: Vec<u8> },
    Trailer { block_id: u64, status: u16 },
}

/// Take one packet: a leader starts a new block, a payload of the block under way extends
/// it, and that block's trailer completes it. A payload of another block is dropped; a
/// trailer always ends the block under way, which completes only if the ids agree. Returns
/// the block under way afterwards and the block completed, if any.
pub fn assemble(state: Option<BlockState>, packet: StreamPacket) -> (r: (Option<BlockState>, Option<BlockState>))
    ensures
        match packet {
            StreamPacket::Leader { block_id, width, height, pixel_format, timestamp } => r.1 is None && (
            r.0 matches Some(b) && b.block_id == block_id && b.width == width && b.height == height
                && b.pixel_format == pixel_format && b.timestamp == timestamp && b.payload@ == Seq::<u8>::empty()),
            StreamPacket::Payload { block_id, data } => r.1 is None && match state {
                Some(a) => if a.block_id == block_id {
                    r.0 matches Some(b) && b.block_id == a.block_id && b.width == a.width && b.height
                        == a.height && b.pixel_format == a.pixel_format && b.timestamp == a.timestamp
                        && b.payload@ == a.payload@ + data@
                } else {
                    r.0 == Some(a)
                },
                None => r.0 is None,
            },
            StreamPacket::Trailer { block_id, status } => r.0 is None && match state {
                Some(a) => if a.block_id == block_id {
                    r.1 == Some(a)
                } else {
                    r.1 is None
                },
                None => r.1 is None,
            },
        },
{
    match packet {
        StreamPacket::Leader { block_id, width, height, pixel_format, timestamp } => (
            Some(BlockState { block_id, width, height, pixel_format, timestamp, payload: Vec::new() }),
            None,
        ),
        StreamPacket::Payload { block_id, data } => match state {
            Some(mut a) => {
                if a.block_id == block_id {
                    a.payload.extend_from_slice(data.as_slice());
                }
                (Some(a), None)
            },
            None => (None, None),
        },
        StreamPacket::Trailer { block_id, status } => match state {
            Some(a) => {
                if a.block_id == block_id {
                    (None, Some(a))
                } else {
                    (None, None)
                }
            },
            None => (None, None),
        },
    }
}

} // verus!
