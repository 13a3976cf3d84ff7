//! Locating the XML description from the text of the device's first URL register.
use vstd::prelude::*;
use vstd::string::StringSliceAdditionalSpecFns;
use vstd::utf8::{decode_utf8, encode_utf8, valid_utf8};
use crate::text::{
    find_byte, first_index, lossy_string, lowered, split_bytes, split_fields, starts_with,
    to_ascii_lower, trim, trimmed, utf8_lossy, views,
};
use crate::xml_model::{has_hex_prefix, number_error_msg, parse_u64_bytes, spec_parse_u64, XmlError};
use crate::text::{spec_parse_unsigned, IntErrorKind};
use crate::xml_model::{number_digits, number_radix};

verus! {

/// Address of the first URL register in device memory.
pub const FIRST_URL_ADDRESS: u64 = 0x0000;

/// Maximum length of the first URL string.
pub const FIRST_URL_MAX_LEN: usize = 512;

/// Where the XML description lives.
#[derive(Debug)]
pub enum UrlLocation {
    /// Memory-mapped local XML at a fixed address.
    Local { address: u64, length: usize },
    /// Named local XML resource.
    LocalNamed(String),
    /// HTTP(S) remote URL.
    Http(String),
    /// File system URL.
    File(String),
}

// ---------------------------------------------------------------------------
// The first URL register
// ---------------------------------------------------------------------------

/// The bytes before the first NUL (all of them when there is none).
pub open spec fn before_nul(b: Seq<u8>) -> Seq<u8> {
    b.subrange(0, first_index(b, 0))
}

/// The register text: decoded leniently, as UTF-8 bytes, with surrounding whitespace removed.
pub open spec fn cstring_text(b: Seq<u8>) -> Seq<u8> {
    trimmed(encode_utf8(utf8_lossy(before_nul(b))))
}

/// Extract the first NUL-terminated string of a buffer, trimmed; `None` when nothing is left.
pub fn first_cstring(bytes: &[u8]) -> (r: Option<String>)
    ensures
        cstring_text(bytes@).len() == 0 ==> r is None,
        cstring_text(bytes@).len() > 0 ==> (r matches Some(s) && s@ == utf8_lossy(
            cstring_text(bytes@),
        )),
{
    let end = find_byte(bytes, 0);
    proof {
        crate::text::lemma_first_index(bytes@, 0);
    }
    let slice = vstd::slice::slice_subrange(bytes, 0, end);
    let value = lossy_string(slice);
    let t = trim(value.as_str().as_bytes());
    if t.len() == 0 {
        None
    } else {
        Some(lossy_string(t))
    }
}

// ---------------------------------------------------------------------------
// Words
// ---------------------------------------------------------------------------

/// `local:`
pub open spec fn word_local() -> Seq<u8> {
    seq![108u8, 111, 99, 97, 108, 58]
}

/// `http://`
pub open spec fn word_http() -> Seq<u8> {
    seq![104u8, 116, 116, 112, 58, 47, 47]
}

/// `https://`
pub open spec fn word_https() -> Seq<u8> {
    seq![104u8, 116, 116, 112, 115, 58, 47, 47]
}

/// `file://`
pub open spec fn word_file() -> Seq<u8> {
    seq![102u8, 105, 108, 101, 58, 47, 47]
}

/// `address`, `addr` or `offset`.
pub open spec fn is_address_key(k: Seq<u8>) -> bool {
    ||| k == seq![97u8, 100, 100, 114, 101, 115, 115]
    ||| k == seq![97u8, 100, 100, 114]
    ||| k == seq![111u8, 102, 102, 115, 101, 116]
}

/// `length` or `size`.
pub open spec fn is_length_key(k: Seq<u8>) -> bool {
    ||| k == seq![108u8, 101, 110, 103, 116, 104]
    ||| k == seq![115u8, 105, 122, 101]
}

/// Whether `s` begins with `p`.
pub open spec fn begins(s: Seq<u8>, p: Seq<u8>) -> bool {
    p.len() <= s.len() && s.subrange(0, p.len() as int) == p
}

fn address_key(k: &[u8]) -> (r: bool)
    ensures
        r == is_address_key(k@),
{
    let a: [u8; 7] = [97, 100, 100, 114, 101, 115, 115];
    let b: [u8; 4] = [97, 100, 100, 114];
    let c: [u8; 6] = [111, 102, 102, 115, 101, 116];
    assert(a@ =~= seq![97u8, 100, 100, 114, 101, 115, 115]);
    assert(b@ =~= seq![97u8, 100, 100, 114]);
    assert(c@ =~= seq![111u8, 102, 102, 115, 101, 116]);
    crate::text::bytes_eq(k, a.as_slice()) || crate::text::bytes_eq(k, b.as_slice())
        || crate::text::bytes_eq(k, c.as_slice())
}

fn length_key(k: &[u8]) -> (r: bool)
    ensures
        r == is_length_key(k@),
{
    let a: [u8; 6] = [108, 101, 110, 103, 116, 104];
    let b: [u8; 4] = [115, 105, 122, 101];
    assert(a@ =~= seq![108u8, 101, 110, 103, 116, 104]);
    assert(b@ =~= seq![115u8, 105, 122, 101]);
    crate::text::bytes_eq(k, a.as_slice()) || crate::text::bytes_eq(k, b.as_slice())
}

// ---------------------------------------------------------------------------
// `local:` URLs
// ---------------------------------------------------------------------------

/// Value of number text as `parse_u64` reads it.
pub open spec fn u64_value(t: Seq<u8>) -> Result<nat, IntErrorKind> {
    spec_parse_unsigned(number_digits(trimmed(t)), number_radix(trimmed(t)), u64::MAX as nat)
}

/// State of the scan over the `;`/`,` separated fields of a `local:` URL.
pub enum LocalScan {
    /// Address and length seen so far.
    Fields(Option<nat>, Option<nat>),
    /// A field that names a resource (the trimmed field).
    Named(Seq<u8>),
    /// A number that failed to parse (its trimmed text and why).
    BadNumber(Seq<u8>, IntErrorKind),
    /// A length larger than `usize` can hold.
    TooLong,
}

/// One field of a `local:` URL applied to the address and length seen so far.
pub open spec fn local_step(a: Option<nat>, l: Option<nat>, field: Seq<u8>) -> LocalScan {
    let tok = trimmed(field);
    let k = first_index(tok, 61);
    if tok.len() == 0 {
        LocalScan::Fields(a, l)
    } else if k < tok.len() {
        let key = lowered(trimmed(tok.subrange(0, k)));
        let value = tok.subrange(k + 1, tok.len() as int);
        if is_address_key(key) {
            match u64_value(value) {
                Ok(v) => LocalScan::Fields(Some(v), l),
                Err(e) => LocalScan::BadNumber(trimmed(value), e),
            }
        } else if is_length_key(key) {
            match u64_value(value) {
                Ok(v) => if v > usize::MAX {
                    LocalScan::TooLong
                } else {
                    LocalScan::Fields(a, Some(v))
                },
                Err(e) => LocalScan::BadNumber(trimmed(value), e),
            }
        } else {
            LocalScan::Fields(a, l)
        }
    } else if has_hex_prefix(tok) {
        match u64_value(tok) {
            Ok(v) => LocalScan::Fields(Some(v), l),
            Err(e) => LocalScan::BadNumber(trimmed(tok), e),
        }
    } else {
        LocalScan::Named(tok)
    }
}

/// The scan over a list of fields, stopping at the first field that ends it.
pub open spec fn local_scan(fs: Seq<Seq<u8>>) -> LocalScan
    decreases fs.len(),
{
    if fs.len() == 0 {
        LocalScan::Fields(None, None)
    } else {
        match local_scan(fs.drop_last()) {
            LocalScan::Fields(a, l) => local_step(a, l, fs.last()),
            other => other,
        }
    }
}

/// What `parse_local_url` returns for the bytes after `local:`.
pub open spec fn spec_local_url(rest: Seq<u8>, r: Result<UrlLocation, XmlError>) -> bool {
    let t = trimmed(rest);
    if t.len() == 0 {
        r matches Err(XmlError::Invalid(m)) && m@ == "empty local URL"@
    } else {
        match local_scan(split_fields(t, 59, 44)) {
            LocalScan::Fields(a, l) => if a is Some && l is Some {
                r == Ok::<UrlLocation, XmlError>(
                    UrlLocation::Local { address: a->Some_0 as u64, length: l->Some_0 as usize },
                )
            } else {
                r matches Err(XmlError::Invalid(m)) && m@ == "unsupported local URL: "@
                    + utf8_lossy(rest)
            },
            LocalScan::Named(tok) => r matches Ok(UrlLocation::LocalNamed(s)) && s@ == utf8_lossy(
                tok,
            ),
            LocalScan::BadNumber(v, e) => r matches Err(XmlError::Invalid(m)) && m@
                == number_error_msg(v, e),
            LocalScan::TooLong => r matches Err(XmlError::Invalid(m)) && m@
                == "length does not fit usize"@,
        }
    }
}

/// The number in `t`, as `parse_u64` reads it, as a value of the scan.
fn number_of(t: &[u8]) -> (r: Result<u64, XmlError>)
    ensures
        match u64_value(t@) {
            Ok(v) => r == Ok::<u64, XmlError>(v as u64) && v <= u64::MAX,
            Err(e) => r matches Err(XmlError::Invalid(m)) && m@ == number_error_msg(trimmed(t@), e),
        },
{
    proof {
        crate::text::lemma_parse_unsigned_bound(
            number_digits(trimmed(t@)),
            number_radix(trimmed(t@)),
            u64::MAX as nat,
        );
    }
    parse_u64_bytes(t)
}

/// Parse the part of a `local:` URL after the scheme.
pub fn parse_local_url_bytes(rest: &[u8]) -> (r: Result<UrlLocation, XmlError>)
    ensures
        spec_local_url(rest@, r),
{
    let trimmed_rest = trim(rest);
    if trimmed_rest.len() == 0 {
        return Err(XmlError::Invalid(String::from_str("empty local URL")));
    }
    let parts = split_bytes(trimmed_rest, 59, 44);
    let ghost fs = views(parts@);
    let mut address: Option<u64> = None;
    let mut length: Option<usize> = None;
    let mut i: usize = 0;
    assert(fs.subrange(0, 0) =~= Seq::<Seq<u8>>::empty());
    while i < parts.len()
        invariant
            trimmed_rest@ == trimmed(rest@),
            fs == views(parts@),
            fs == split_fields(trimmed_rest@, 59, 44),
            i <= parts@.len(),
            local_scan(fs.subrange(0, i as int)) == LocalScan::Fields(
                match address {
                    Some(a) => Some(a as nat),
                    None => None::<nat>,
                },
                match length {
                    Some(l) => Some(l as nat),
                    None => None::<nat>,
                },
            ),
        decreases parts@.len() - i,
    {
        let ghost a0 = match address {
            Some(a) => Some(a as nat),
            None => None::<nat>,
        };
        let ghost l0 = match length {
            Some(l) => Some(l as nat),
            None => None::<nat>,
        };
        assert(fs.subrange(0, i + 1).drop_last() =~= fs.subrange(0, i as int));
        assert(fs.subrange(0, i + 1).last() == parts@[i as int]@);
        let part = parts[i].as_slice();
        let token = trim(part);
        if token.len() == 0 {
            i = i + 1;
            continue;
        }
        let k = find_byte(token, 61);
        proof {
            crate::text::lemma_first_index(token@, 61);
        }
        if k < token.len() {
            let key = to_ascii_lower(trim(vstd::slice::slice_subrange(token, 0, k)));
            let value = vstd::slice::slice_subrange(token, k + 1, token.len());
            if address_key(key.as_slice()) {
                match number_of(value) {
                    Ok(v) => {
                        address = Some(v);
                    },
                    Err(e) => {
                        proof {
                            assert(local_step(a0, l0, fs.subrange(0, i + 1).last())
                                == LocalScan::BadNumber(trimmed(value@), u64_value(value@)->Err_0));
                            lemma_scan_stops(fs, i as int + 1);
                        }
                        return Err(e);
                    },
                }
            } else if length_key(key.as_slice()) {
                let v = match number_of(value) {
                    Ok(v) => v,
                    Err(e) => {
                        proof {
                            assert(local_step(a0, l0, fs.subrange(0, i + 1).last())
                                == LocalScan::BadNumber(trimmed(value@), u64_value(value@)->Err_0));
                            lemma_scan_stops(fs, i as int + 1);
                        }
                        return Err(e);
                    },
                };
                if v > usize::MAX as u64 {
                    proof {
                        lemma_scan_stops(fs, i as int + 1);
                    }
                    return Err(XmlError::Invalid(String::from_str("length does not fit usize")));
                }
                length = Some(v as usize);
            }
        } else {
            let prefix: [u8; 2] = [48, 120];
            assert(prefix@ =~= seq![48u8, 120]);
            if starts_with(token, prefix.as_slice()) {
                assert(has_hex_prefix(token@));
                match number_of(token) {
                    Ok(v) => {
                        address = Some(v);
                    },
                    Err(e) => {
                        proof {
                            lemma_scan_stops(fs, i as int + 1);
                        }
                        return Err(e);
                    },
                }
            } else {
                assert(!has_hex_prefix(token@)) by {
                    if has_hex_prefix(token@) {
                        assert(token@.subrange(0, 2) =~= prefix@);
                    }
                }
                proof {
                    lemma_scan_stops(fs, i as int + 1);
                }
                return Ok(UrlLocation::LocalNamed(lossy_string(token)));
            }
        }
        i = i + 1;
    }
    assert(fs.subrange(0, fs.len() as int) =~= fs);
    match (address, length) {
        (Some(address), Some(length)) => Ok(UrlLocation::Local { address, length }),
        _ => {
            let mut m = String::from_str("unsupported local URL: ");
            let text = lossy_string(rest);
            m.append(text.as_str());
            Err(XmlError::Invalid(m))
        },
    }
}

proof fn lemma_scan_stops(fs: Seq<Seq<u8>>, i: int)
    requires
        0 <= i <= fs.len(),
        !(local_scan(fs.subrange(0, i)) is Fields),
    ensures
        local_scan(fs) == local_scan(fs.subrange(0, i)),
    decreases fs.len() - i,
{
    if i < fs.len() {
        assert(fs.subrange(0, i + 1).drop_last() =~= fs.subrange(0, i));
        lemma_scan_stops(fs, i + 1);
    } else {
        assert(fs.subrange(0, i) =~= fs);
    }
}

/// Whether every byte of `s` is printable and not blank, `s` holds none of the field
/// separators `;` and `,`, and, when `key`, no `=`.
pub open spec fn plain_field_part(s: Seq<u8>, key: bool) -> bool {
    forall|i: int|
        0 <= i < s.len() ==> 33 <= #[trigger] s[i] <= 126 && s[i] != 59 && s[i] != 44 && (key ==> s[i] != 61)
}

/// The field `key=value`.
pub open spec fn key_field(key: Seq<u8>, value: Seq<u8>) -> Seq<u8> {
    key + seq![61u8] + value
}

/// A field `key=value` is read as its key and its value.
proof fn lemma_key_field_parts(key: Seq<u8>, value: Seq<u8>)
    requires
        key.len() > 0,
        plain_field_part(key, true),
        plain_field_part(value, false),
    ensures
        trimmed(key_field(key, value)) == key_field(key, value),
        trimmed(key) == key,
        first_index(key_field(key, value), 61) == key.len(),
        key_field(key, value).subrange(0, key.len() as int) == key,
        key_field(key, value).subrange(key.len() as int + 1, key_field(key, value).len() as int) == value,
{
    let f = key_field(key, value);
    assert forall|i: int| 0 <= i < f.len() implies crate::text::plain_byte(#[trigger] f[i]) by {
        if i < key.len() {
            assert(f[i] == key[i]);
        } else if i > key.len() {
            assert(f[i] == value[i - key.len() - 1]);
        }
    }
    crate::text::lemma_plain_trimmed(f);
    assert forall|i: int| 0 <= i < key.len() implies crate::text::plain_byte(#[trigger] key[i]) by {}
    crate::text::lemma_plain_trimmed(key);
    assert forall|j: int| 0 <= j < key.len() implies f[j] != 61u8 by {
        assert(f[j] == key[j]);
    }
    crate::text::lemma_first_index_is(f, 61, key.len() as int);
    assert(f.subrange(0, key.len() as int) =~= key);
    assert(f.subrange(key.len() as int + 1, f.len() as int) =~= value);
}

/// Law: a field `key=value` whose key is `address`, `addr` or `offset` in any case sets the
/// address to the value's number (or fails on a value that is no number), keeping the
/// length seen so far.
pub proof fn lemma_address_field(a: Option<nat>, l: Option<nat>, key: Seq<u8>, value: Seq<u8>)
    requires
        lowered(key) == seq![97u8, 100, 100, 114, 101, 115, 115] || lowered(key) == seq![97u8, 100, 100, 114]
            || lowered(key) == seq![111u8, 102, 102, 115, 101, 116],
        plain_field_part(key, true),
        plain_field_part(value, false),
    ensures
        local_step(a, l, key_field(key, value)) == match u64_value(value) {
            Ok(v) => LocalScan::Fields(Some(v), l),
            Err(e) => LocalScan::BadNumber(trimmed(value), e),
        },
{
    assert(lowered(key).len() == key.len());
    lemma_key_field_parts(key, value);
}

/// Law: a field `key=value` whose key is `length` or `size` in any case sets the length to
/// the value's number, keeping the address seen so far.
pub proof fn lemma_length_field(a: Option<nat>, l: Option<nat>, key: Seq<u8>, value: Seq<u8>)
    requires
        lowered(key) == seq![108u8, 101, 110, 103, 116, 104] || lowered(key) == seq![115u8, 105, 122, 101],
        plain_field_part(key, true),
        plain_field_part(value, false),
        u64_value(value) is Ok,
        u64_value(value)->Ok_0 <= usize::MAX,
    ensures
        local_step(a, l, key_field(key, value)) == LocalScan::Fields(a, Some(u64_value(value)->Ok_0)),
{
    assert(lowered(key).len() == key.len());
    lemma_key_field_parts(key, value);
}

/// Splitting text without separators gives the text itself as the one field.
proof fn lemma_split_one(s: Seq<u8>)
    requires
        plain_field_part(s, false),
    ensures
        split_fields(s, 59, 44) == seq![s],
    decreases s.len(),
{
    if s.len() > 0 {
        let t = s.drop_last();
        assert(plain_field_part(t, false)) by {
            assert forall|i: int| 0 <= i < t.len() implies 33 <= #[trigger] t[i] <= 126 && t[i] != 59 && t[i] != 44 by {
                assert(t[i] == s[i]);
            }
        }
        lemma_split_one(t);
        assert(t.push(s.last()) =~= s);
        assert(seq![t].update(0, t.push(s.last())) =~= seq![s]);
    } else {
        assert(split_fields(s, 59, 44) =~= seq![Seq::<u8>::empty()]);
        assert(s =~= Seq::<u8>::empty());
    }
}

/// Splitting `x;y`, with no separator in `y`, gives the fields of `x` and then `y`.
proof fn lemma_split_then(x: Seq<u8>, y: Seq<u8>)
    requires
        plain_field_part(y, false),
    ensures
        split_fields(x + seq![59u8] + y, 59, 44) == split_fields(x, 59, 44).push(y),
    decreases y.len(),
{
    let s = x + seq![59u8] + y;
    if y.len() == 0 {
        assert(s.drop_last() =~= x);
        assert(y =~= Seq::<u8>::empty());
    } else {
        let t = y.drop_last();
        assert(plain_field_part(t, false)) by {
            assert forall|i: int| 0 <= i < t.len() implies 33 <= #[trigger] t[i] <= 126 && t[i] != 59 && t[i] != 44 by {
                assert(t[i] == y[i]);
            }
        }
        lemma_split_then(x, t);
        assert(s.drop_last() =~= x + seq![59u8] + t);
        assert(s.last() == y.last());
        assert(t.push(y.last()) =~= y);
        assert(!crate::text::is_sep(s.last(), 59, 44));
        let f = split_fields(x, 59, 44).push(t);
        assert(f.update(f.len() - 1, t.push(y.last())) =~= split_fields(x, 59, 44).push(y));
    }
}

/// Law: a `local:` URL `akey=address;lkey=length`, whose address key is `address`, `addr` or
/// `offset` and whose length key is `length` or `size`, in any case, names the XML at that
/// address with that length.
pub proof fn lemma_local_url_address_and_length(ak: Seq<u8>, av: Seq<u8>, lk: Seq<u8>, lv: Seq<u8>)
    requires
        lowered(ak) == seq![97u8, 100, 100, 114, 101, 115, 115] || lowered(ak) == seq![97u8, 100, 100, 114]
            || lowered(ak) == seq![111u8, 102, 102, 115, 101, 116],
        lowered(lk) == seq![108u8, 101, 110, 103, 116, 104] || lowered(lk) == seq![115u8, 105, 122, 101],
        plain_field_part(ak, true),
        plain_field_part(av, false),
        plain_field_part(lk, true),
        plain_field_part(lv, false),
        u64_value(av) is Ok,
        u64_value(lv) is Ok,
        u64_value(lv)->Ok_0 <= usize::MAX,
    ensures
        forall|r: Result<UrlLocation, XmlError>|
            spec_local_url(key_field(ak, av) + seq![59u8] + key_field(lk, lv), r) ==> r == Ok::<
                UrlLocation,
                XmlError,
            >(
                UrlLocation::Local {
                    address: u64_value(av)->Ok_0 as u64,
                    length: u64_value(lv)->Ok_0 as usize,
                },
            ),
{
    let af = key_field(ak, av);
    let lf = key_field(lk, lv);
    let rest = af + seq![59u8] + lf;
    assert(lowered(ak).len() == ak.len());
    assert(lowered(lk).len() == lk.len());
    assert forall|i: int| 0 <= i < rest.len() implies crate::text::plain_byte(#[trigger] rest[i]) by {
        if i < af.len() {
            assert(rest[i] == af[i]);
            if i < ak.len() {
                assert(af[i] == ak[i]);
            } else if i > ak.len() {
                assert(af[i] == av[i - ak.len() - 1]);
            }
        } else if i > af.len() {
            assert(rest[i] == lf[i - af.len() - 1]);
            let j = i - af.len() - 1;
            if j < lk.len() {
                assert(lf[j] == lk[j]);
            } else if j > lk.len() {
                assert(lf[j] == lv[j - lk.len() - 1]);
            }
        }
    }
    crate::text::lemma_plain_trimmed(rest);
    assert(plain_field_part(af, false)) by {
        assert forall|i: int| 0 <= i < af.len() implies 33 <= #[trigger] af[i] <= 126 && af[i] != 59 && af[i] != 44 by {
            if i < ak.len() {
                assert(af[i] == ak[i]);
            } else if i > ak.len() {
                assert(af[i] == av[i - ak.len() - 1]);
            }
        }
    }
    assert(plain_field_part(lf, false)) by {
        assert forall|i: int| 0 <= i < lf.len() implies 33 <= #[trigger] lf[i] <= 126 && lf[i] != 59 && lf[i] != 44 by {
            if i < lk.len() {
                assert(lf[i] == lk[i]);
            } else if i > lk.len() {
                assert(lf[i] == lv[i - lk.len() - 1]);
            }
        }
    }
    lemma_split_one(af);
    lemma_split_then(af, lf);
    let fs = split_fields(rest, 59, 44);
    assert(seq![af].push(lf) =~= seq![af, lf]);
    assert(fs =~= seq![af, lf]);
    lemma_address_field(None, None, ak, av);
    lemma_length_field(Some(u64_value(av)->Ok_0), None, lk, lv);
    lemma_scan_two(af, lf, u64_value(av)->Ok_0, u64_value(lv)->Ok_0);
}

/// Scanning two fields that set the address and then the length gives both.
proof fn lemma_scan_two(af: Seq<u8>, lf: Seq<u8>, a: nat, l: nat)
    requires
        local_step(None, None, af) == LocalScan::Fields(Some(a), None),
        local_step(Some(a), None, lf) == LocalScan::Fields(Some(a), Some(l)),
    ensures
        local_scan(seq![af, lf]) == LocalScan::Fields(Some(a), Some(l)),
{
    let fs = seq![af, lf];
    assert(fs.drop_last() =~= seq![af]);
    assert(seq![af].drop_last() =~= Seq::<Seq<u8>>::empty());
    assert(local_scan(Seq::<Seq<u8>>::empty()) == LocalScan::Fields(None, None));
    assert(local_scan(seq![af]) == LocalScan::Fields(Some(a), None));
}

/// Parse the part of a `local:` URL after the scheme.
pub fn parse_local_url(rest: &str) -> (r: Result<UrlLocation, XmlError>)
    ensures
        spec_local_url(rest.spec_bytes(), r),
{
    parse_local_url_bytes(rest.as_bytes())
}

/// What `UrlLocation::parse` returns for a URL.
pub open spec fn spec_url(url: Seq<char>, b: Seq<u8>, r: Result<UrlLocation, XmlError>) -> bool {
    if begins(b, word_local()) {
        spec_local_url(b.subrange(6, b.len() as int), r)
    } else if begins(b, word_http()) || begins(b, word_https()) {
        r matches Ok(UrlLocation::Http(s)) && s@ == url
    } else if begins(b, word_file()) {
        r matches Ok(UrlLocation::File(s)) && s@ == url
    } else {
        r matches Err(XmlError::Unsupported(m)) && m@ == "unknown URL scheme: "@ + url
    }
}

impl UrlLocation {
    /// Classify a URL by its scheme; `local:` URLs are parsed further.
    pub fn parse(url: &str) -> (r: Result<UrlLocation, XmlError>)
        ensures
            spec_url(url@, url.spec_bytes(), r),
    {
        let b = url.as_bytes();
        let local: [u8; 6] = [108, 111, 99, 97, 108, 58];
        let http: [u8; 7] = [104, 116, 116, 112, 58, 47, 47];
        let https: [u8; 8] = [104, 116, 116, 112, 115, 58, 47, 47];
        let file: [u8; 7] = [102, 105, 108, 101, 58, 47, 47];
        assert(local@ =~= word_local());
        assert(http@ =~= word_http());
        assert(https@ =~= word_https());
        assert(file@ =~= word_file());
        if starts_with(b, local.as_slice()) {
            parse_local_url_bytes(vstd::slice::slice_subrange(b, 6, b.len()))
        } else if starts_with(b, http.as_slice()) || starts_with(b, https.as_slice()) {
            Ok(UrlLocation::Http(String::from_str(url)))
        } else if starts_with(b, file.as_slice()) {
            Ok(UrlLocation::File(String::from_str(url)))
        } else {
            let mut m = String::from_str("unknown URL scheme: ");
            m.append(url);
            Err(XmlError::Unsupported(m))
        }
    }
}

// ---------------------------------------------------------------------------
// Fetching the document
// ---------------------------------------------------------------------------

/// What `String::from_utf8` reports for bytes that are not UTF-8 (its `Display` text).
pub uninterp spec fn utf8_error_text(b: Seq<u8>) -> Seq<char>;

/// Decodes bytes with `String::from_utf8`.
///
/// As the standard library documents, the result is `Ok` exactly when the bytes are valid UTF-8,
/// and then holds the decoded text. The error's text is a function of the bytes.
#[verifier::external_body]
fn utf8_text(bytes: Vec<u8>) -> (r: Result<String, String>)
    ensures
        r is Ok <==> valid_utf8(bytes@),
        r matches Ok(s) ==> s@ == decode_utf8(bytes@),
        r matches Err(e) ==> e@ == utf8_error_text(bytes@),
{
    String::from_utf8(bytes).map_err(|e| e.to_string())
}

/// Where to read the XML from, given the contents of the first URL register:
/// its address and length for a `local:` URL, the error the document fetch fails with otherwise.
pub open spec fn spec_xml_source(reg: Seq<u8>, r: Result<(u64, usize), XmlError>) -> bool {
    let t = cstring_text(reg);
    if t.len() == 0 {
        r matches Err(XmlError::Invalid(m)) && m@ == "FirstURL register is empty"@
    } else {
        let url = utf8_lossy(t);
        exists|loc: Result<UrlLocation, XmlError>| #[trigger]
            spec_url(url, encode_utf8(url), loc) && match loc {
                Err(e) => r == Err::<(u64, usize), XmlError>(e),
                Ok(UrlLocation::Local { address, length }) => r == Ok::<(u64, usize), XmlError>(
                    (address, length),
                ),
                Ok(UrlLocation::LocalNamed(n)) => r matches Err(XmlError::Unsupported(m)) && m@
                    == "named local URL '"@ + n@ + "' is not supported"@,
                Ok(UrlLocation::Http(u)) => r matches Err(XmlError::Unsupported(m)) && m@
                    == "HTTP retrieval is not implemented ("@ + u@ + ")"@,
                Ok(UrlLocation::File(p)) => r matches Err(XmlError::Unsupported(m)) && m@
                    == "file URL '"@ + p@ + "' is not supported"@,
            }
    }
}

/// First step of fetching the XML description: decide from the first URL register
/// which memory block holds the document.
pub fn xml_source(reg: &[u8]) -> (r: Result<(u64, usize), XmlError>)
    ensures
        spec_xml_source(reg@, r),
{
    let url = match first_cstring(reg) {
        Some(u) => u,
        None => return Err(XmlError::Invalid(String::from_str("FirstURL register is empty"))),
    };
    let loc = UrlLocation::parse(url.as_str());
    let ghost gl = loc;
    match loc {
        Err(e) => Err(e),
        Ok(UrlLocation::Local { address, length }) => Ok((address, length)),
        Ok(UrlLocation::LocalNamed(name)) => {
            let mut m = String::from_str("named local URL '");
            m.append(name.as_str());
            m.append("' is not supported");
            Err(XmlError::Unsupported(m))
        },
        Ok(UrlLocation::Http(u)) => {
            let mut m = String::from_str("HTTP retrieval is not implemented (");
            m.append(u.as_str());
            m.append(")");
            Err(XmlError::Unsupported(m))
        },
        Ok(UrlLocation::File(p)) => {
            let mut m = String::from_str("file URL '");
            m.append(p.as_str());
            m.append("' is not supported");
            Err(XmlError::Unsupported(m))
        },
    }
}

/// Last step of fetching the XML description: the document text from the bytes read.
pub fn xml_text(bytes: Vec<u8>) -> (r: Result<String, XmlError>)
    ensures
        valid_utf8(bytes@) ==> (r matches Ok(s) && s@ == decode_utf8(bytes@)),
        !valid_utf8(bytes@) ==> (r matches Err(XmlError::Xml(m)) && m@ == "invalid UTF-8: "@
            + utf8_error_text(bytes@)),
{
    match utf8_text(bytes) {
        Ok(s) => Ok(s),
        Err(e) => {
            let mut m = String::from_str("invalid UTF-8: ");
            m.append(e.as_str());
            Err(XmlError::Xml(m))
        },
    }
}

} // verus!
