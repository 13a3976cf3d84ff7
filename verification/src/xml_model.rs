//! Declarations extracted from a GenICam XML description.
use vstd::prelude::*;
use vstd::string::StringSliceAdditionalSpecFns;
use crate::text::{
    bytes_eq, find_byte, first_index, lossy_string, lowered, parse_signed, parse_unsigned, remove_byte, spec_parse_signed,
    spec_parse_unsigned, starts_with, to_ascii_lower, to_ascii_upper, trim, trimmed, uppered,
    utf8_lossy, without, IntErrorKind,
};

verus! {

/// Source of the numeric value backing an enumeration entry.
#[derive(Debug, Clone, PartialEq, Eq)]
pub enum EnumValueSrc {
    /// Numeric literal declared directly in the XML.
    Literal(i64),
    /// Value obtained from another node referenced via `<pValue>`.
    FromNode(String),
}

/// Declaration for a single enumeration entry.
#[derive(Debug, Clone, PartialEq, Eq)]
pub struct EnumEntryDecl {
    /// Symbolic entry name exposed to clients.
    pub name: String,
    /// Source describing how to resolve the numeric value for this entry.
    pub value: EnumValueSrc,
    /// Optional user facing label.
    pub display_name: Option<String>,
}

/// Errors raised while loading or interpreting an XML description.
#[derive(Debug, Clone, PartialEq, Eq)]
pub enum XmlError {
    Xml(String),
    Invalid(String),
    Transport(String),
    Unsupported(String),
}

/// Access privileges for a GenICam node as described in the XML.
#[derive(Debug, Clone, Copy, PartialEq, Eq, Structural)]
pub enum AccessMode {
    /// Read-only node. The underlying register must not be modified by the client.
    RO,
    /// Write-only node. Reading the register is not permitted.
    WO,
    /// Read-write node. The register may be read and written by the client.
    RW,
}

/// Message of an `XmlError::Invalid` naming an unknown access mode.
pub open spec fn unknown_access_msg(word: Seq<u8>) -> Seq<char> {
    "unknown access mode: "@ + utf8_lossy(word)
}

/// The access mode named by `text` (case-insensitive, surrounding whitespace ignored).
pub open spec fn spec_access_mode(text: Seq<u8>) -> Option<AccessMode> {
    let w = uppered(trimmed(text));
    if w == seq![82u8, 79u8] {
        Some(AccessMode::RO)
    } else if w == seq![87u8, 79u8] {
        Some(AccessMode::WO)
    } else if w == seq![82u8, 87u8] {
        Some(AccessMode::RW)
    } else {
        None
    }
}

impl AccessMode {
    /// Parse `RO`, `WO` or `RW` (any case, surrounding whitespace ignored).
    pub fn parse(value: &str) -> (r: Result<AccessMode, XmlError>)
        ensures
            match spec_access_mode(value.spec_bytes()) {
                Some(m) => r == Ok::<AccessMode, XmlError>(m),
                None => r matches Err(XmlError::Invalid(msg)) && msg@ == unknown_access_msg(
                    uppered(trimmed(value.spec_bytes())),
                ),
            },
    {
        let word = to_ascii_upper(trim(value.as_bytes()));
        let ro: [u8; 2] = [82u8, 79u8];
        let wo: [u8; 2] = [87u8, 79u8];
        let rw: [u8; 2] = [82u8, 87u8];
        assert(ro@ =~= seq![82u8, 79u8]);
        assert(wo@ =~= seq![87u8, 79u8]);
        assert(rw@ =~= seq![82u8, 87u8]);
        if bytes_eq(word.as_slice(), ro.as_slice()) {
            Ok(AccessMode::RO)
        } else if bytes_eq(word.as_slice(), wo.as_slice()) {
            Ok(AccessMode::WO)
        } else if bytes_eq(word.as_slice(), rw.as_slice()) {
            Ok(AccessMode::RW)
        } else {
            let mut msg = String::from_str("unknown access mode: ");
            let other = lossy_string(word.as_slice());
            msg.append(other.as_str());
            Err(XmlError::Invalid(msg))
        }
    }
}

/// Register addressing metadata for a node.
#[derive(Debug, Clone, PartialEq, Eq)]
pub enum Addressing {
    /// Node uses a fixed register block regardless of selector state.
    Fixed { address: u64, len: u32 },
    /// Node switches between register blocks based on a selector value.
    BySelector {
        /// Name of the selector node controlling the address.
        selector: String,
        /// Mapping of selector value to `(address, length)` pair.
        map: Vec<(String, (u64, u32))>,
    },
    /// Node resolves its register block through another node providing the address.
    Indirect {
        /// Node providing the register address at runtime.
        p_address_node: String,
        /// Length of the target register block in bytes.
        len: u32,
    },
}

/// Byte order used to interpret a multi-byte register payload.
#[derive(Debug, Clone, Copy, PartialEq, Eq, Structural)]
pub enum ByteOrder {
    /// The first byte contains the least significant bits.
    Little,
    /// The first byte contains the most significant bits.
    Big,
}

/// The byte order named by `text` (`LittleEndian` or `BigEndian`, any case).
pub open spec fn spec_byte_order(text: Seq<u8>) -> Option<ByteOrder> {
    let w = lowered(trimmed(text));
    if w == seq![108u8, 105, 116, 116, 108, 101, 101, 110, 100, 105, 97, 110] {
        Some(ByteOrder::Little)
    } else if w == seq![98u8, 105, 103, 101, 110, 100, 105, 97, 110] {
        Some(ByteOrder::Big)
    } else {
        None
    }
}

impl ByteOrder {
    /// Parse `LittleEndian` or `BigEndian` (any case, surrounding whitespace ignored).
    pub fn parse(tag: &str) -> (r: Option<ByteOrder>)
        ensures
            r == spec_byte_order(tag.spec_bytes()),
    {
        let w = to_ascii_lower(trim(tag.as_bytes()));
        let little: [u8; 12] = [108u8, 105, 116, 116, 108, 101, 101, 110, 100, 105, 97, 110];
        let big: [u8; 9] = [98u8, 105, 103, 101, 110, 100, 105, 97, 110];
        assert(little@ =~= seq![108u8, 105, 116, 116, 108, 101, 101, 110, 100, 105, 97, 110]);
        assert(big@ =~= seq![98u8, 105, 103, 101, 110, 100, 105, 97, 110]);
        if bytes_eq(w.as_slice(), little.as_slice()) {
            Some(ByteOrder::Little)
        } else if bytes_eq(w.as_slice(), big.as_slice()) {
            Some(ByteOrder::Big)
        } else {
            None
        }
    }
}

/// Bitfield metadata describing a sub-range of a register payload.
#[derive(Debug, Clone, Copy, PartialEq, Eq, Structural)]
pub struct BitField {
    /// Starting bit offset within the interpreted register value.
    pub bit_offset: u16,
    /// Number of bits covered by the field.
    pub bit_length: u16,
    /// Byte order used when interpreting the enclosing register.
    pub byte_order: ByteOrder,
}

/// Output type of a SwissKnife expression node.
#[derive(Debug, Clone, Copy, PartialEq, Eq, Structural)]
pub enum SkOutput {
    /// Integer output. The runtime rounds the computed value to the nearest
    /// integer with ties going towards zero.
    Integer,
    /// Floating point output, exposed without any additional processing.
    Float,
}

/// The output type named by `text` (`Integer` or `Float`, any case).
pub open spec fn spec_sk_output(text: Seq<u8>) -> Option<SkOutput> {
    let w = lowered(trimmed(text));
    if w == seq![105u8, 110, 116, 101, 103, 101, 114] {
        Some(SkOutput::Integer)
    } else if w == seq![102u8, 108, 111, 97, 116] {
        Some(SkOutput::Float)
    } else {
        None
    }
}

impl SkOutput {
    /// Parse `Integer` or `Float` (any case, surrounding whitespace ignored).
    pub fn parse(tag: &str) -> (r: Option<SkOutput>)
        ensures
            r == spec_sk_output(tag.spec_bytes()),
    {
        let w = to_ascii_lower(trim(tag.as_bytes()));
        let integer: [u8; 7] = [105u8, 110, 116, 101, 103, 101, 114];
        let float: [u8; 5] = [102u8, 108, 111, 97, 116];
        assert(integer@ =~= seq![105u8, 110, 116, 101, 103, 101, 114]);
        assert(float@ =~= seq![102u8, 108, 111, 97, 116]);
        if bytes_eq(w.as_slice(), integer.as_slice()) {
            Some(SkOutput::Integer)
        } else if bytes_eq(w.as_slice(), float.as_slice()) {
            Some(SkOutput::Float)
        } else {
            None
        }
    }
}

impl Default for SkOutput {
    fn default() -> (r: SkOutput)
        ensures
            r == SkOutput::Float,
    {
        SkOutput::Float
    }
}

/// Declaration of a SwissKnife node consisting of an arithmetic expression.
#[derive(Debug, Clone)]
pub struct SwissKnifeDecl {
    /// Feature name exposed to clients.
    pub name: String,
    /// Raw expression string to be parsed by the runtime.
    pub expr: String,
    /// Mapping of variables used in the expression to provider node names.
    pub variables: Vec<(String, String)>,
    /// Desired output type (integer or float).
    pub output: SkOutput,
}

/// Minimal metadata collected from an XML description.
#[derive(Debug, Clone)]
pub struct MinimalXmlInfo {
    pub schema_version: Option<String>,
    pub top_level_features: Vec<String>,
}

/// Display text of a `ParseIntError` of the given kind.
pub open spec fn int_error_text(k: IntErrorKind) -> Seq<char> {
    match k {
        IntErrorKind::Empty => "cannot parse integer from empty string"@,
        IntErrorKind::InvalidDigit => "invalid digit found in string"@,
        IntErrorKind::PosOverflow => "number too large to fit in target type"@,
        IntErrorKind::NegOverflow => "number too small to fit in target type"@,
    }
}

/// Display text of a `ParseIntError` of the given kind.
pub fn int_error_message(k: IntErrorKind) -> (s: String)
    ensures
        s@ == int_error_text(k),
{
    match k {
        IntErrorKind::Empty => String::from_str("cannot parse integer from empty string"),
        IntErrorKind::InvalidDigit => String::from_str("invalid digit found in string"),
        IntErrorKind::PosOverflow => String::from_str("number too large to fit in target type"),
        IntErrorKind::NegOverflow => String::from_str("number too small to fit in target type"),
    }
}

/// Whether trimmed number text carries the `0x` prefix.
pub open spec fn has_hex_prefix(t: Seq<u8>) -> bool {
    t.len() >= 2 && t[0] == 48 && t[1] == 120
}

/// The digits of trimmed number text: after `0x` when present, underscores removed.
pub open spec fn number_digits(t: Seq<u8>) -> Seq<u8> {
    if has_hex_prefix(t) {
        without(t.subrange(2, t.len() as int), 95)
    } else {
        without(t, 95)
    }
}

/// Radix of trimmed number text.
pub open spec fn number_radix(t: Seq<u8>) -> nat {
    if has_hex_prefix(t) {
        16
    } else {
        10
    }
}

/// Message of the `XmlError::Invalid` for a number that failed to parse.
pub open spec fn number_error_msg(t: Seq<u8>, k: IntErrorKind) -> Seq<char> {
    if has_hex_prefix(t) {
        "invalid hex value: "@ + int_error_text(k)
    } else {
        "invalid integer: "@ + int_error_text(k)
    }
}

fn number_error(hex: bool, k: IntErrorKind) -> (e: XmlError)
    ensures
        e matches XmlError::Invalid(m) && m@ == (if hex {
            "invalid hex value: "@
        } else {
            "invalid integer: "@
        }) + int_error_text(k),
{
    let mut msg = if hex {
        String::from_str("invalid hex value: ")
    } else {
        String::from_str("invalid integer: ")
    };
    let text = int_error_message(k);
    msg.append(text.as_str());
    XmlError::Invalid(msg)
}

fn number_digits_of(t: &[u8]) -> (r: (Vec<u8>, bool))
    ensures
        r.0@ == number_digits(t@),
        r.1 == has_hex_prefix(t@),
{
    let prefix: [u8; 2] = [48u8, 120u8];
    if starts_with(t, prefix.as_slice()) {
        assert(t@.subrange(0, 2) == prefix@ ==> t@[0] == 48 && t@[1] == 120);
        (remove_byte(vstd::slice::slice_subrange(t, 2, t.len()), 95), true)
    } else {
        assert(has_hex_prefix(t@) ==> t@.subrange(0, 2) =~= prefix@);
        (remove_byte(t, 95), false)
    }
}

/// Outcome of `parse_u64` on the bytes of a text.
pub open spec fn spec_parse_u64(text: Seq<u8>, r: Result<u64, XmlError>) -> bool {
    let t = trimmed(text);
    match spec_parse_unsigned(number_digits(t), number_radix(t), u64::MAX as nat) {
        Ok(v) => r == Ok::<u64, XmlError>(v as u64),
        Err(k) => r matches Err(XmlError::Invalid(m)) && m@ == number_error_msg(t, k),
    }
}

/// Parse an unsigned 64-bit integer (decimal, or hex after a `0x` prefix; `_` ignored).
pub fn parse_u64(value: &str) -> (r: Result<u64, XmlError>)
    ensures
        spec_parse_u64(value.spec_bytes(), r),
{
    parse_u64_bytes(value.as_bytes())
}

/// `parse_u64` on UTF-8 bytes.
pub fn parse_u64_bytes(value: &[u8]) -> (r: Result<u64, XmlError>)
    ensures
        spec_parse_u64(value@, r),
{
    let t = trim(value);
    let (digits, hex) = number_digits_of(t);
    let radix: u32 = if hex {
        16
    } else {
        10
    };
    match parse_unsigned(digits.as_slice(), radix, u64::MAX) {
        Ok(v) => Ok(v),
        Err(k) => Err(number_error(hex, k)),
    }
}

/// Law: `parse_u64` reads the decimal digits of a value back as that value.
pub proof fn lemma_parse_u64_decimal(v: u64)
    ensures
        spec_parse_u64(crate::text::dec_digits(v as nat), Ok::<u64, XmlError>(v)),
{
    let t = crate::text::dec_digits(v as nat);
    crate::text::lemma_dec_digits_value(v as nat, u64::MAX as nat, IntErrorKind::PosOverflow);
    crate::text::lemma_plain_trimmed(t);
    assert(!has_hex_prefix(t));
    crate::text::lemma_without_absent(t, 95);
    assert(t[0] != 43);
}

/// Law: `parse_u64` reads `0x` and the lower-case hexadecimal digits of a value back as
/// that value.
pub proof fn lemma_parse_u64_hex(v: u64)
    ensures
        spec_parse_u64(seq![48u8, 120u8] + crate::text::hex_digits_lower(v as nat), Ok::<u64, XmlError>(v)),
{
    let h = crate::text::hex_digits_lower(v as nat);
    let t = seq![48u8, 120u8] + h;
    crate::text::lemma_hex_digits_value(v as nat, u64::MAX as nat, IntErrorKind::PosOverflow);
    assert forall|i: int| 0 <= i < t.len() implies crate::text::plain_byte(#[trigger] t[i]) by {
        if i >= 2 {
            assert(t[i] == h[i - 2]);
        }
    }
    crate::text::lemma_plain_trimmed(t);
    assert(has_hex_prefix(t));
    assert(t.subrange(2, t.len() as int) =~= h);
    crate::text::lemma_without_absent(h, 95);
    assert(h[0] != 43);
}

/// Outcome of `parse_i64` on the bytes of a text.
pub open spec fn spec_parse_i64(text: Seq<u8>, r: Result<i64, XmlError>) -> bool {
    let t = trimmed(text);
    match spec_parse_signed(number_digits(t), number_radix(t)) {
        Ok(v) => r == Ok::<i64, XmlError>(v),
        Err(k) => r matches Err(XmlError::Invalid(m)) && m@ == number_error_msg(t, k),
    }
}

/// Parse a signed 64-bit integer (decimal, or hex after a `0x` prefix; `_` ignored).
pub fn parse_i64(value: &str) -> (r: Result<i64, XmlError>)
    ensures
        spec_parse_i64(value.spec_bytes(), r),
{
    parse_i64_bytes(value.as_bytes())
}

/// `parse_i64` on UTF-8 bytes.
pub fn parse_i64_bytes(value: &[u8]) -> (r: Result<i64, XmlError>)
    ensures
        spec_parse_i64(value@, r),
{
    let t = trim(value);
    let (digits, hex) = number_digits_of(t);
    let radix: u32 = if hex {
        16
    } else {
        10
    };
    match parse_signed(digits.as_slice(), radix) {
        Ok(v) => Ok(v),
        Err(k) => Err(number_error(hex, k)),
    }
}

/// A scale factor as written in the XML.
#[derive(Debug, Clone, PartialEq, Eq)]
pub enum ScaleSpec {
    /// `numerator/denominator`, denominator non-zero.
    Ratio(i64, i64),
    /// A decimal number (the trimmed text), converted to a ratio over `1_000_000` by the caller.
    Decimal(String),
}

/// Outcome of `parse_scale` on the bytes of a text.
pub open spec fn spec_parse_scale(text: Seq<u8>, r: Result<ScaleSpec, XmlError>) -> bool {
    let t = trimmed(text);
    let k = first_index(t, 47);
    if t.len() == 0 {
        r matches Err(XmlError::Invalid(m)) && m@ == "empty scale value"@
    } else if k < t.len() {
        let num = t.subrange(0, k);
        let den = t.subrange(k + 1, t.len() as int);
        match spec_parse_signed(number_digits(trimmed(num)), number_radix(trimmed(num))) {
            Err(e) => r matches Err(XmlError::Invalid(m)) && m@ == number_error_msg(trimmed(num), e),
            Ok(n) => match spec_parse_signed(number_digits(trimmed(den)), number_radix(trimmed(den))) {
                Err(e) => r matches Err(XmlError::Invalid(m)) && m@ == number_error_msg(
                    trimmed(den),
                    e,
                ),
                Ok(d) => if d == 0 {
                    r matches Err(XmlError::Invalid(m)) && m@ == "scale denominator is zero"@
                } else {
                    r == Ok::<ScaleSpec, XmlError>(ScaleSpec::Ratio(n, d))
                },
            },
        }
    } else {
        r matches Ok(ScaleSpec::Decimal(s)) && s@ == utf8_lossy(t)
    }
}

/// Parse a scale factor: `num/den` as a ratio, anything else as decimal text.
pub fn parse_scale(text: &str) -> (r: Result<ScaleSpec, XmlError>)
    ensures
        spec_parse_scale(text.spec_bytes(), r),
{
    let t = trim(text.as_bytes());
    if t.len() == 0 {
        return Err(XmlError::Invalid(String::from_str("empty scale value")));
    }
    let k = find_byte(t, 47);
    if k < t.len() {
        let num = vstd::slice::slice_subrange(t, 0, k);
        let den = vstd::slice::slice_subrange(t, k + 1, t.len());
        let n = match parse_i64_bytes(num) {
            Ok(n) => n,
            Err(e) => return Err(e),
        };
        let d = match parse_i64_bytes(den) {
            Ok(d) => d,
            Err(e) => return Err(e),
        };
        if d == 0 {
            return Err(XmlError::Invalid(String::from_str("scale denominator is zero")));
        }
        Ok(ScaleSpec::Ratio(n, d))
    } else {
        Ok(ScaleSpec::Decimal(lossy_string(t)))
    }
}

/// UTF-8 bytes of a string.
pub open spec fn sbytes(s: String) -> Seq<u8> {
    vstd::utf8::encode_utf8(s@)
}

/// An optional text trimmed, dropped when nothing is left.
pub open spec fn trimmed_opt(o: Option<String>) -> Option<Seq<u8>> {
    match o {
        Some(s) => if trimmed(sbytes(s)).len() > 0 {
            Some(trimmed(sbytes(s)))
        } else {
            None
        },
        None => None,
    }
}

fn trim_opt(o: Option<String>) -> (r: Option<String>)
    ensures
        match trimmed_opt(o) {
            Some(t) => r matches Some(s) && s@ == utf8_lossy(t),
            None => r is None,
        },
{
    match o {
        Some(s) => {
            let t = trim(s.as_str().as_bytes());
            if t.len() > 0 {
                Some(lossy_string(t))
            } else {
                None
            }
        },
        None => None,
    }
}

/// Message for an enumeration entry without a value.
pub open spec fn entry_missing_value_msg(name: Seq<char>) -> Seq<char> {
    "EnumEntry "@ + name + " is missing <Value> or <pValue>"@
}

/// Build an enumeration entry, preferring a `<pValue>` provider over a literal `<Value>`.
pub fn build_enum_entry(
    name: String,
    literal: Option<String>,
    provider: Option<String>,
    display_name: Option<String>,
) -> (r: Result<EnumEntryDecl, XmlError>)
    ensures
        match trimmed_opt(provider) {
            Some(p) => r matches Ok(e) && e.name@ == name@ && e.display_name == display_name && (
            e.value matches EnumValueSrc::FromNode(n) && n@ == utf8_lossy(p)),
            None => match trimmed_opt(literal) {
                Some(l) => {
                    let t = trimmed(l);
                    match spec_parse_signed(number_digits(t), number_radix(t)) {
                        Ok(v) => r matches Ok(e) && e.name@ == name@ && e.display_name
                            == display_name && e.value == EnumValueSrc::Literal(v),
                        Err(k) => r matches Err(XmlError::Invalid(m)) && m@ == number_error_msg(
                            t,
                            k,
                        ),
                    }
                },
                None => r matches Err(XmlError::Invalid(m)) && m@ == entry_missing_value_msg(
                    name@,
                ),
            },
        },
{
    let provider = trim_opt(provider);
    let value = if let Some(node) = provider {
        EnumValueSrc::FromNode(node)
    } else {
        let lit_bytes: Option<Vec<u8>> = match &literal {
            Some(l) => {
                let t = trim(l.as_str().as_bytes());
                if t.len() > 0 {
                    Some(vstd::slice::slice_to_vec(t))
                } else {
                    None
                }
            },
            None => None,
        };
        match lit_bytes {
            Some(t) => match parse_i64_bytes(t.as_slice()) {
                Ok(v) => EnumValueSrc::Literal(v),
                Err(e) => return Err(e),
            },
            None => {
                let mut msg = String::from_str("EnumEntry ");
                msg.append(name.as_str());
                msg.append(" is missing <Value> or <pValue>");
                return Err(XmlError::Invalid(msg));
            },
        }
    };
    Ok(EnumEntryDecl { name, value, display_name })
}

/// The version text `major.minor.sub`, each part defaulting to `0`.
pub open spec fn version_text(major: Option<String>, minor: Option<String>, sub: Option<String>) -> Seq<char> {
    (if major is Some { major->Some_0@ } else { "0"@ }) + "."@ + (if minor is Some {
        minor->Some_0@
    } else {
        "0"@
    }) + "."@ + (if sub is Some { sub->Some_0@ } else { "0"@ })
}

fn part_or_zero(p: &Option<String>) -> (s: String)
    ensures
        s@ == (if p is Some { p->Some_0@ } else { "0"@ }),
{
    match p {
        Some(v) => v.clone(),
        None => String::from_str("0"),
    }
}

/// Schema version `major.minor.sub` from the `RegisterDescription` attributes.
pub fn schema_version_from(major: Option<String>, minor: Option<String>, sub: Option<String>) -> (v: String)
    ensures
        v@ == version_text(major, minor, sub),
{
    let mut v = part_or_zero(&major);
    v.append(".");
    let m = part_or_zero(&minor);
    v.append(m.as_str());
    v.append(".");
    let s = part_or_zero(&sub);
    v.append(s.as_str());
    v
}

/// Schema version when at least one of the attributes is present.
pub fn extract_schema_version(major: Option<String>, minor: Option<String>, sub: Option<String>) -> (v: Option<String>)
    ensures
        (major is None && minor is None && sub is None) ==> v is None,
        !(major is None && minor is None && sub is None) ==> (v matches Some(t) && t@ == version_text(
            major,
            minor,
            sub,
        )),
{
    if major.is_none() && minor.is_none() && sub.is_none() {
        None
    } else {
        Some(schema_version_from(major, minor, sub))
    }
}

} // verus!
