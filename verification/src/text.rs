//! Byte-level text handling: whitespace trimming, ASCII case folding,
//! integer parsing with the semantics of `from_str_radix`, and number formatting.
use vstd::prelude::*;

verus! {

// ---------------------------------------------------------------------------
// Whitespace (Unicode `White_Space`, on UTF-8 encoded bytes)
// ---------------------------------------------------------------------------

/// Length of the UTF-8 encoded whitespace character starting at `i`, or 0.
pub open spec fn ws_at(s: Seq<u8>, i: int) -> int {
    if 0 <= i < s.len() && ((9 <= s[i] <= 13) || s[i] == 32) {
        1
    } else if 0 <= i && i + 1 < s.len() && s[i] == 0xC2 && (s[i + 1] == 0x85 || s[i + 1] == 0xA0) {
        2
    } else if 0 <= i && i + 2 < s.len() && ((s[i] == 0xE1 && s[i + 1] == 0x9A && s[i + 2] == 0x80)
        || (s[i] == 0xE2 && s[i + 1] == 0x80 && ((0x80 <= s[i + 2] <= 0x8A) || s[i + 2] == 0xA8
        || s[i + 2] == 0xA9 || s[i + 2] == 0xAF)) || (s[i] == 0xE2 && s[i + 1] == 0x81 && s[i + 2]
        == 0x9F) || (s[i] == 0xE3 && s[i + 1] == 0x80 && s[i + 2] == 0x80)) {
        3
    } else {
        0
    }
}

/// Length of the UTF-8 encoded whitespace character ending just before `j` (and not before `lo`), or 0.
pub open spec fn ws_before(s: Seq<u8>, lo: int, j: int) -> int {
    if lo <= j - 1 && ws_at(s, j - 1) == 1 {
        1
    } else if lo <= j - 2 && ws_at(s, j - 2) == 2 {
        2
    } else if lo <= j - 3 && ws_at(s, j - 3) == 3 {
        3
    } else {
        0
    }
}

/// First index at or after `i` that does not start a whitespace character.
pub open spec fn skip_ws(s: Seq<u8>, i: int) -> int
    decreases s.len() - i,
{
    if 0 <= i < s.len() && ws_at(s, i) > 0 {
        skip_ws(s, i + ws_at(s, i))
    } else {
        i
    }
}

/// Last index at or before `j` (and not before `lo`) not preceded by whitespace.
pub open spec fn back_ws(s: Seq<u8>, lo: int, j: int) -> int
    decreases j - lo,
{
    if j > lo && ws_before(s, lo, j) > 0 {
        back_ws(s, lo, j - ws_before(s, lo, j))
    } else {
        j
    }
}

/// `s` with leading and trailing whitespace removed.
pub open spec fn trimmed(s: Seq<u8>) -> Seq<u8> {
    s.subrange(skip_ws(s, 0), back_ws(s, skip_ws(s, 0), s.len() as int))
}

proof fn lemma_skip_ws_bounds(s: Seq<u8>, i: int)
    requires
        0 <= i <= s.len(),
    ensures
        i <= skip_ws(s, i) <= s.len(),
    decreases s.len() - i,
{
    if 0 <= i < s.len() && ws_at(s, i) > 0 {
        lemma_skip_ws_bounds(s, i + ws_at(s, i));
    }
}

proof fn lemma_back_ws_bounds(s: Seq<u8>, lo: int, j: int)
    requires
        0 <= lo <= j <= s.len(),
    ensures
        lo <= back_ws(s, lo, j) <= j,
    decreases j - lo,
{
    if j > lo && ws_before(s, lo, j) > 0 {
        lemma_back_ws_bounds(s, lo, j - ws_before(s, lo, j));
    }
}

fn ws_len_at(s: &[u8], i: usize) -> (n: usize)
    requires
        i <= s@.len(),
    ensures
        n as int == ws_at(s@, i as int),
{
    let len = s.len();
    if i < len && ((9 <= s[i] && s[i] <= 13) || s[i] == 32) {
        1
    } else if i < len && len - i > 1 && s[i] == 0xC2 && (s[i + 1] == 0x85 || s[i + 1] == 0xA0) {
        2
    } else if i < len && len - i > 2 && ((s[i] == 0xE1 && s[i + 1] == 0x9A && s[i + 2] == 0x80) || (s[i]
        == 0xE2 && s[i + 1] == 0x80 && ((0x80 <= s[i + 2] && s[i + 2] <= 0x8A) || s[i + 2] == 0xA8
        || s[i + 2] == 0xA9 || s[i + 2] == 0xAF)) || (s[i] == 0xE2 && s[i + 1] == 0x81 && s[i + 2]
        == 0x9F) || (s[i] == 0xE3 && s[i + 1] == 0x80 && s[i + 2] == 0x80)) {
        3
    } else {
        0
    }
}

fn ws_len_before(s: &[u8], lo: usize, j: usize) -> (n: usize)
    requires
        lo <= j <= s@.len(),
    ensures
        n as int == ws_before(s@, lo as int, j as int),
{
    if j - lo >= 1 && ws_len_at(s, j - 1) == 1 {
        1
    } else if j - lo >= 2 && ws_len_at(s, j - 2) == 2 {
        2
    } else if j - lo >= 3 && ws_len_at(s, j - 3) == 3 {
        3
    } else {
        0
    }
}

/// Bounds `(start, end)` of `s` without its leading and trailing whitespace.
pub fn trim_bounds(s: &[u8]) -> (r: (usize, usize))
    ensures
        r.0 as int == skip_ws(s@, 0),
        r.1 as int == back_ws(s@, r.0 as int, s@.len() as int),
        r.0 <= r.1 <= s@.len(),
{
    let mut i: usize = 0;
    while i < s.len() && ws_len_at(s, i) > 0
        invariant
            i <= s@.len(),
            skip_ws(s@, i as int) == skip_ws(s@, 0),
        decreases s@.len() - i,
    {
        i = i + ws_len_at(s, i);
    }
    let mut j: usize = s.len();
    while j > i && ws_len_before(s, i, j) > 0
        invariant
            i <= j <= s@.len(),
            back_ws(s@, i as int, j as int) == back_ws(s@, i as int, s@.len() as int),
        decreases j,
    {
        j = j - ws_len_before(s, i, j);
    }
    (i, j)
}

/// `s` without its leading and trailing whitespace.
pub fn trim(s: &[u8]) -> (t: &[u8])
    ensures
        t@ == trimmed(s@),
{
    let (a, b) = trim_bounds(s);
    vstd::slice::slice_subrange(s, a, b)
}

// ---------------------------------------------------------------------------
// ASCII helpers
// ---------------------------------------------------------------------------

pub open spec fn lower(b: u8) -> u8 {
    if 65 <= b <= 90 {
        (b + 32) as u8
    } else {
        b
    }
}

pub open spec fn upper(b: u8) -> u8 {
    if 97 <= b <= 122 {
        (b - 32) as u8
    } else {
        b
    }
}

pub open spec fn lowered(s: Seq<u8>) -> Seq<u8> {
    s.map_values(|b: u8| lower(b))
}

pub open spec fn uppered(s: Seq<u8>) -> Seq<u8> {
    s.map_values(|b: u8| upper(b))
}

/// Bytes of `s` with ASCII capitals replaced by lowercase letters.
pub fn to_ascii_lower(s: &[u8]) -> (out: Vec<u8>)
    ensures
        out@ == lowered(s@),
{
    let mut out: Vec<u8> = Vec::new();
    let mut i: usize = 0;
    while i < s.len()
        invariant
            i <= s@.len(),
            out@ =~= lowered(s@.subrange(0, i as int)),
        decreases s@.len() - i,
    {
        let b = s[i];
        let c = if 65 <= b && b <= 90 {
            b + 32
        } else {
            b
        };
        out.push(c);
        i = i + 1;
        assert(out@ =~= lowered(s@.subrange(0, i as int)));
    }
    assert(s@.subrange(0, s@.len() as int) =~= s@);
    out
}

/// Bytes of `s` with ASCII lowercase letters replaced by capitals.
pub fn to_ascii_upper(s: &[u8]) -> (out: Vec<u8>)
    ensures
        out@ == uppered(s@),
{
    let mut out: Vec<u8> = Vec::new();
    let mut i: usize = 0;
    while i < s.len()
        invariant
            i <= s@.len(),
            out@ =~= uppered(s@.subrange(0, i as int)),
        decreases s@.len() - i,
    {
        let b = s[i];
        let c = if 97 <= b && b <= 122 {
            b - 32
        } else {
            b
        };
        out.push(c);
        i = i + 1;
        assert(out@ =~= uppered(s@.subrange(0, i as int)));
    }
    assert(s@.subrange(0, s@.len() as int) =~= s@);
    out
}

/// Byte-wise equality.
pub fn bytes_eq(a: &[u8], b: &[u8]) -> (r: bool)
    ensures
        r == (a@ == b@),
{
    if a.len() != b.len() {
        return false;
    }
    let mut i: usize = 0;
    while i < a.len()
        invariant
            a@.len() == b@.len(),
            i <= a@.len(),
            forall|k: int| 0 <= k < i ==> a@[k] == b@[k],
        decreases a@.len() - i,
    {
        if a[i] != b[i] {
            return false;
        }
        i = i + 1;
    }
    assert(a@ =~= b@);
    true
}

/// Whether `s` begins with `p`.
pub fn starts_with(s: &[u8], p: &[u8]) -> (r: bool)
    ensures
        r == (p@.len() <= s@.len() && s@.subrange(0, p@.len() as int) == p@),
{
    if p.len() > s.len() {
        return false;
    }
    bytes_eq(vstd::slice::slice_subrange(s, 0, p.len()), p)
}

/// Bytes of `s` with every occurrence of `b` removed.
pub open spec fn without(s: Seq<u8>, b: u8) -> Seq<u8>
    decreases s.len(),
{
    if s.len() == 0 {
        s
    } else if s.last() == b {
        without(s.drop_last(), b)
    } else {
        without(s.drop_last(), b).push(s.last())
    }
}

/// `s` with every byte equal to `b` removed.
pub fn remove_byte(s: &[u8], b: u8) -> (out: Vec<u8>)
    ensures
        out@ == without(s@, b),
{
    let mut out: Vec<u8> = Vec::new();
    let mut i: usize = 0;
    assert(s@.subrange(0, 0) =~= Seq::<u8>::empty());
    while i < s.len()
        invariant
            i <= s@.len(),
            out@ == without(s@.subrange(0, i as int), b),
        decreases s@.len() - i,
    {
        assert(s@.subrange(0, i + 1).drop_last() =~= s@.subrange(0, i as int));
        if s[i] != b {
            out.push(s[i]);
        }
        i = i + 1;
    }
    assert(s@.subrange(0, s@.len() as int) =~= s@);
    out
}

/// The chars of ASCII bytes.
pub open spec fn ascii_chars(s: Seq<u8>) -> Seq<char> {
    s.map_values(|b: u8| b as char)
}

pub open spec fn all_ascii(s: Seq<u8>) -> bool {
    forall|i: int| 0 <= i < s.len() ==> s[i] < 128
}

/// The UTF-8 bytes of the chars of ASCII bytes are those bytes.
pub proof fn lemma_ascii_encode(b: Seq<u8>)
    requires
        all_ascii(b),
    ensures
        vstd::utf8::encode_utf8(ascii_chars(b)) == b,
{
    let c = ascii_chars(b);
    assert forall|i: int| 0 <= i < c.len() implies '\0' <= #[trigger] c[i] <= '\u{7f}' by {
        assert(b[i] < 128);
    }
    assert(vstd::utf8::is_ascii_chars(c));
    vstd::utf8::is_ascii_chars_encode_utf8(c);
    assert forall|i: int| 0 <= i < b.len() implies #[trigger] vstd::utf8::encode_utf8(c)[i] == b[i] by {
        assert(c[i] == b[i] as char);
        assert((b[i] as char) as u8 == b[i]);
    }
    assert(vstd::utf8::encode_utf8(c) =~= b);
}

/// Builds a `String` from ASCII bytes with `String::from_utf8`.
///
/// Every ASCII byte sequence is valid UTF-8, and each byte decodes to the char with the same code.
#[verifier::external_body]
pub(crate) fn ascii_string(bytes: Vec<u8>) -> (s: String)
    requires
        all_ascii(bytes@),
    ensures
        s@ == ascii_chars(bytes@),
{
    match String::from_utf8(bytes) {
        Ok(s) => s,
        Err(_) => String::new(),
    }
}

/// What `String::from_utf8_lossy` makes of a byte sequence.
pub uninterp spec fn utf8_lossy(b: Seq<u8>) -> Seq<char>;

/// Builds a `String` with `String::from_utf8_lossy`.
///
/// The result is a function of the bytes alone; on valid UTF-8 it is the decoded text
/// (invalid sequences become U+FFFD, which is not stated here).
#[verifier::external_body]
pub(crate) fn lossy_string(b: &[u8]) -> (s: String)
    ensures
        s@ == utf8_lossy(b@),
        vstd::utf8::valid_utf8(b@) ==> s@ == vstd::utf8::decode_utf8(b@),
{
    String::from_utf8_lossy(b).into_owned()
}

/// The byte contents of a list of buffers.
pub open spec fn views(v: Seq<Vec<u8>>) -> Seq<Seq<u8>> {
    v.map_values(|x: Vec<u8>| x@)
}

/// Whether `c` is one of the two separator bytes.
pub open spec fn is_sep(c: u8, a: u8, b: u8) -> bool {
    c == a || c == b
}

/// Fields of `s` between separators `a` or `b` (like `str::split` with a two-char pattern).
pub open spec fn split_fields(s: Seq<u8>, a: u8, b: u8) -> Seq<Seq<u8>>
    decreases s.len(),
{
    if s.len() == 0 {
        seq![Seq::<u8>::empty()]
    } else if is_sep(s.last(), a, b) {
        split_fields(s.drop_last(), a, b).push(Seq::<u8>::empty())
    } else {
        let f = split_fields(s.drop_last(), a, b);
        f.update(f.len() - 1, f.last().push(s.last()))
    }
}

pub proof fn lemma_split_fields_nonempty(s: Seq<u8>, a: u8, b: u8)
    ensures
        split_fields(s, a, b).len() >= 1,
    decreases s.len(),
{
    if s.len() > 0 {
        lemma_split_fields_nonempty(s.drop_last(), a, b);
    }
}

/// Splits `s` at every byte equal to `a` or `b`.
pub fn split_bytes(s: &[u8], a: u8, b: u8) -> (out: Vec<Vec<u8>>)
    ensures
        views(out@) == split_fields(s@, a, b),
{
    let mut out: Vec<Vec<u8>> = Vec::new();
    let mut cur: Vec<u8> = Vec::new();
    let mut i: usize = 0;
    assert(s@.subrange(0, 0) =~= Seq::<u8>::empty());
    while i < s.len()
        invariant
            i <= s@.len(),
            views(out@).push(cur@) =~= split_fields(s@.subrange(0, i as int), a, b),
        decreases s@.len() - i,
    {
        let ghost pre = s@.subrange(0, i as int);
        assert(s@.subrange(0, i + 1).drop_last() =~= pre);
        assert(s@.subrange(0, i + 1).last() == s@[i as int]);
        proof {
            lemma_split_fields_nonempty(pre, a, b);
        }
        if s[i] == a || s[i] == b {
            let ghost before = out@;
            let ghost old_cur = cur@;
            let done = cur;
            out.push(done);
            cur = Vec::new();
            assert(views(out@) =~= views(before).push(old_cur));
            assert(views(out@).push(cur@) =~= split_fields(s@.subrange(0, i + 1), a, b));
        } else {
            cur.push(s[i]);
            assert(views(out@).push(cur@) =~= views(out@).push(cur@.drop_last()).update(
                views(out@).len() as int,
                cur@,
            ));
            assert(views(out@).push(cur@) =~= split_fields(s@.subrange(0, i + 1), a, b));
        }
        i = i + 1;
    }
    let ghost before = out@;
    out.push(cur);
    assert(views(out@) =~= views(before).push(cur@));
    assert(s@.subrange(0, s@.len() as int) =~= s@);
    out
}

// ---------------------------------------------------------------------------
// Searching
// ---------------------------------------------------------------------------

/// Index of the first occurrence of `b` in `s`, or `s.len()`.
pub open spec fn first_index(s: Seq<u8>, b: u8) -> int
    decreases s.len(),
{
    if s.len() == 0 {
        0
    } else if first_index(s.drop_last(), b) < s.len() - 1 {
        first_index(s.drop_last(), b)
    } else if s.last() == b {
        s.len() - 1
    } else {
        s.len() as int
    }
}

pub proof fn lemma_first_index(s: Seq<u8>, b: u8)
    ensures
        0 <= first_index(s, b) <= s.len(),
        first_index(s, b) < s.len() ==> s[first_index(s, b)] == b,
        forall|j: int| 0 <= j < first_index(s, b) ==> s[j] != b,
    decreases s.len(),
{
    if s.len() > 0 {
        lemma_first_index(s.drop_last(), b);
        assert forall|j: int| 0 <= j < first_index(s, b) implies s[j] != b by {
            if j < s.len() - 1 {
                assert(s[j] == s.drop_last()[j]);
            }
        }
    }
}

pub proof fn lemma_first_index_is(s: Seq<u8>, b: u8, k: int)
    requires
        0 <= k <= s.len(),
        forall|j: int| 0 <= j < k ==> s[j] != b,
        k < s.len() ==> s[k] == b,
    ensures
        first_index(s, b) == k,
    decreases s.len(),
{
    lemma_first_index(s, b);
    if s.len() > 0 {
        if k < s.len() {
            if k < s.len() - 1 {
                lemma_first_index_is(s.drop_last(), b, k);
            } else {
                lemma_first_index(s.drop_last(), b);
            }
        } else {
            lemma_first_index_is(s.drop_last(), b, s.len() - 1);
        }
    }
}

/// Position of the first `b` in `s`, or `s.len()`.
pub fn find_byte(s: &[u8], b: u8) -> (k: usize)
    ensures
        k as int == first_index(s@, b),
{
    let mut k: usize = 0;
    while k < s.len() && s[k] != b
        invariant
            k <= s@.len(),
            forall|j: int| 0 <= j < k ==> s@[j] != b,
        decreases s@.len() - k,
    {
        k = k + 1;
    }
    proof {
        lemma_first_index_is(s@, b, k as int);
    }
    k
}

// ---------------------------------------------------------------------------
// Integer parsing with the semantics of `from_str_radix`
// ---------------------------------------------------------------------------

/// Why a textual integer was rejected (the kinds of `core::num::IntErrorKind` that occur).
#[derive(Debug, Clone, Copy, PartialEq, Eq, Structural)]
pub enum IntErrorKind {
    Empty,
    InvalidDigit,
    PosOverflow,
    NegOverflow,
}

/// Value of an ASCII digit in `radix` (2..=36), if it is one.
pub open spec fn digit_value(b: u8, radix: nat) -> Option<nat> {
    let d: int = if 48 <= b <= 57 {
        b - 48
    } else if 97 <= b <= 122 {
        b - 97 + 10
    } else if 65 <= b <= 90 {
        b - 65 + 10
    } else {
        99
    };
    if d < radix {
        Some(d as nat)
    } else {
        None
    }
}

/// Accumulated magnitude of a digit string, failing at the first invalid digit
/// or at the first digit that pushes the magnitude above `limit`.
pub open spec fn digits_value(s: Seq<u8>, radix: nat, limit: nat, over: IntErrorKind) -> Result<
    nat,
    IntErrorKind,
>
    decreases s.len(),
{
    if s.len() == 0 {
        Ok(0)
    } else {
        match digits_value(s.drop_last(), radix, limit, over) {
            Err(e) => Err(e),
            Ok(v) => match digit_value(s.last(), radix) {
                None => Err(IntErrorKind::InvalidDigit),
                Some(d) => if v * radix + d > limit {
                    Err(over)
                } else {
                    Ok(v * radix + d)
                },
            },
        }
    }
}

/// `from_str_radix(s, radix)` for an unsigned integer type whose largest value is `max`.
pub open spec fn spec_parse_unsigned(s: Seq<u8>, radix: nat, max: nat) -> Result<nat, IntErrorKind> {
    if s.len() == 0 {
        Err(IntErrorKind::Empty)
    } else if s.len() == 1 && (s[0] == 43 || s[0] == 45) {
        Err(IntErrorKind::InvalidDigit)
    } else {
        let digits = if s[0] == 43 {
            s.drop_first()
        } else {
            s
        };
        digits_value(digits, radix, max, IntErrorKind::PosOverflow)
    }
}

/// A parsed unsigned value never exceeds the type's largest value.
pub proof fn lemma_parse_unsigned_bound(s: Seq<u8>, radix: nat, max: nat)
    ensures
        spec_parse_unsigned(s, radix, max) matches Ok(v) ==> v <= max,
{
    if s.len() > 0 {
        let digits = if s[0] == 43 {
            s.drop_first()
        } else {
            s
        };
        lemma_digits_value_bound(digits, radix, max, IntErrorKind::PosOverflow);
    }
}

proof fn lemma_digits_value_bound(s: Seq<u8>, radix: nat, limit: nat, over: IntErrorKind)
    ensures
        digits_value(s, radix, limit, over) matches Ok(v) ==> v <= limit,
    decreases s.len(),
{
    if s.len() > 0 {
        lemma_digits_value_bound(s.drop_last(), radix, limit, over);
    }
}

/// `i64::from_str_radix(s, radix)`.
pub open spec fn spec_parse_signed(s: Seq<u8>, radix: nat) -> Result<i64, IntErrorKind> {
    if s.len() == 0 {
        Err(IntErrorKind::Empty)
    } else if s.len() == 1 && (s[0] == 43 || s[0] == 45) {
        Err(IntErrorKind::InvalidDigit)
    } else if s[0] == 45 {
        match digits_value(
            s.drop_first(),
            radix,
            0x8000_0000_0000_0000nat,
            IntErrorKind::NegOverflow,
        ) {
            Ok(v) => Ok((-v) as i64),
            Err(e) => Err(e),
        }
    } else {
        let digits = if s[0] == 43 {
            s.drop_first()
        } else {
            s
        };
        match digits_value(digits, radix, i64::MAX as nat, IntErrorKind::PosOverflow) {
            Ok(v) => Ok(v as i64),
            Err(e) => Err(e),
        }
    }
}

fn digit_of(b: u8, radix: u32) -> (r: Option<u32>)
    requires
        2 <= radix <= 36,
    ensures
        match digit_value(b, radix as nat) {
            Some(d) => r == Some(d as u32),
            None => r is None,
        },
{
    let d: u32 = if 48 <= b && b <= 57 {
        (b - 48) as u32
    } else if 97 <= b && b <= 122 {
        (b - 97 + 10) as u32
    } else if 65 <= b && b <= 90 {
        (b - 65 + 10) as u32
    } else {
        99
    };
    if d < radix {
        Some(d)
    } else {
        None
    }
}

/// Magnitude of the digits `s[from..]`, with the failure rules of `digits_value`.
fn accumulate(s: &[u8], from: usize, radix: u32, limit: u64, over: IntErrorKind) -> (r: Result<
    u64,
    IntErrorKind,
>)
    requires
        2 <= radix <= 36,
        from <= s@.len(),
    ensures
        match digits_value(s@.subrange(from as int, s@.len() as int), radix as nat, limit as nat, over) {
            Ok(v) => r == Ok::<u64, IntErrorKind>(v as u64),
            Err(e) => r == Err::<u64, IntErrorKind>(e),
        },
{
    let mut acc: u64 = 0;
    let mut i: usize = from;
    assert(s@.subrange(from as int, from as int) =~= Seq::<u8>::empty());
    while i < s.len()
        invariant
            2 <= radix <= 36,
            from <= i <= s@.len(),
            digits_value(s@.subrange(from as int, i as int), radix as nat, limit as nat, over) == Ok::<
                nat,
                IntErrorKind,
            >(acc as nat),
            acc <= limit,
        decreases s@.len() - i,
    {
        let ghost pre = s@.subrange(from as int, i as int);
        assert(s@.subrange(from as int, i + 1).drop_last() =~= pre);
        assert(s@.subrange(from as int, i + 1).last() == s@[i as int]);
        let d = match digit_of(s[i], radix) {
            Some(d) => d,
            None => {
                proof {
                    lemma_digits_err_sticky(s@, from as int, i + 1, radix as nat, limit as nat, over);
                }
                return Err(IntErrorKind::InvalidDigit);
            },
        };
        if d as u64 > limit {
            proof {
                assert(acc * radix + d > limit) by (nonlinear_arith)
                    requires
                        d > limit,
                        acc >= 0,
                        radix >= 2,
                ;
                lemma_digits_err_sticky(s@, from as int, i + 1, radix as nat, limit as nat, over);
            }
            return Err(over);
        }
        if acc > (limit - d as u64) / radix as u64 {
            proof {
                assert(acc * radix + d > limit) by (nonlinear_arith)
                    requires
                        acc > (limit - d) / (radix as int),
                        radix >= 2,
                        d <= limit,
                ;
                lemma_digits_err_sticky(s@, from as int, i + 1, radix as nat, limit as nat, over);
            }
            return Err(over);
        }
        proof {
            assert(acc * radix + d <= limit) by (nonlinear_arith)
                requires
                    acc <= (limit - d) / (radix as int),
                    radix >= 2,
                    d <= limit,
            ;
        }
        acc = acc * radix as u64 + d as u64;
        i = i + 1;
    }
    Ok(acc)
}

/// An error in a prefix of the digits persists to the whole string.
proof fn lemma_digits_err_sticky(s: Seq<u8>, from: int, i: int, radix: nat, limit: nat, over: IntErrorKind)
    requires
        0 <= from <= i <= s.len(),
        digits_value(s.subrange(from, i), radix, limit, over) is Err,
    ensures
        digits_value(s.subrange(from, s.len() as int), radix, limit, over) == digits_value(
            s.subrange(from, i),
            radix,
            limit,
            over,
        ),
    decreases s.len() - i,
{
    if i < s.len() {
        assert(s.subrange(from, i + 1).drop_last() =~= s.subrange(from, i));
        lemma_digits_err_sticky(s, from, i + 1, radix, limit, over);
    }
}

/// `from_str_radix` for an unsigned type whose largest value is `max`, on the bytes of a string.
pub fn parse_unsigned(s: &[u8], radix: u32, max: u64) -> (r: Result<u64, IntErrorKind>)
    requires
        2 <= radix <= 36,
    ensures
        match spec_parse_unsigned(s@, radix as nat, max as nat) {
            Ok(v) => r == Ok::<u64, IntErrorKind>(v as u64),
            Err(e) => r == Err::<u64, IntErrorKind>(e),
        },
{
    if s.len() == 0 {
        return Err(IntErrorKind::Empty);
    }
    if s.len() == 1 && (s[0] == 43 || s[0] == 45) {
        return Err(IntErrorKind::InvalidDigit);
    }
    let from: usize = if s[0] == 43 {
        1
    } else {
        0
    };
    assert(s@.drop_first() =~= s@.subrange(1, s@.len() as int));
    assert(s@ =~= s@.subrange(0, s@.len() as int));
    accumulate(s, from, radix, max, IntErrorKind::PosOverflow)
}

/// `i64::from_str_radix` on the bytes of a string.
pub fn parse_signed(s: &[u8], radix: u32) -> (r: Result<i64, IntErrorKind>)
    requires
        2 <= radix <= 36,
    ensures
        r == spec_parse_signed(s@, radix as nat),
{
    if s.len() == 0 {
        return Err(IntErrorKind::Empty);
    }
    if s.len() == 1 && (s[0] == 43 || s[0] == 45) {
        return Err(IntErrorKind::InvalidDigit);
    }
    assert(s@.drop_first() =~= s@.subrange(1, s@.len() as int));
    assert(s@ =~= s@.subrange(0, s@.len() as int));
    if s[0] == 45 {
        match accumulate(s, 1, radix, 0x8000_0000_0000_0000u64, IntErrorKind::NegOverflow) {
            Ok(v) => {
                if v == 0x8000_0000_0000_0000u64 {
                    Ok(i64::MIN)
                } else {
                    Ok(-(v as i64))
                }
            },
            Err(e) => Err(e),
        }
    } else {
        let from: usize = if s[0] == 43 {
            1
        } else {
            0
        };
        match accumulate(s, from, radix, i64::MAX as u64, IntErrorKind::PosOverflow) {
            Ok(v) => Ok(v as i64),
            Err(e) => Err(e),
        }
    }
}

// ---------------------------------------------------------------------------
// Number formatting
// ---------------------------------------------------------------------------

/// ASCII decimal digits of `v` (no leading zeros; `0` is `"0"`).
pub open spec fn dec_digits(v: nat) -> Seq<u8>
    decreases v,
{
    if v < 10 {
        seq![(48 + v) as u8]
    } else {
        dec_digits(v / 10).push((48 + v % 10) as u8)
    }
}

/// Upper-case hexadecimal digit for a value below 16.
pub open spec fn hex_digit_upper(v: nat) -> u8 {
    if v < 10 {
        (48 + v) as u8
    } else {
        (55 + v) as u8
    }
}

/// Lower-case hexadecimal digits of `v` (no leading zeros; `0` is `"0"`).
pub open spec fn hex_digits_lower(v: nat) -> Seq<u8>
    decreases v,
{
    if v < 16 {
        seq![if v % 16 < 10 { (48 + v % 16) as u8 } else { (87 + v % 16) as u8 }]
    } else {
        hex_digits_lower(v / 16).push(
            if v % 16 < 10 {
                (48 + v % 16) as u8
            } else {
                (87 + v % 16) as u8
            },
        )
    }
}

proof fn lemma_dec_digits_ascii(v: nat)
    ensures
        all_ascii(dec_digits(v)),
        dec_digits(v).len() >= 1,
    decreases v,
{
    if v >= 10 {
        lemma_dec_digits_ascii(v / 10);
    }
}

/// A byte of number text: a digit, a letter, or one of the signs and marks numbers use;
/// never whitespace.
pub open spec fn plain_byte(c: u8) -> bool {
    33 <= c <= 126
}

/// Text of plain bytes is its own trimmed form.
pub proof fn lemma_plain_trimmed(s: Seq<u8>)
    requires
        s.len() >= 1,
        forall|i: int| 0 <= i < s.len() ==> plain_byte(#[trigger] s[i]),
    ensures
        trimmed(s) == s,
{
    assert(ws_at(s, 0) == 0);
    assert(skip_ws(s, 0) == 0);
    let n = s.len() as int;
    assert(ws_at(s, n - 1) == 0);
    if n >= 2 {
        assert(ws_at(s, n - 2) != 2);
    }
    if n >= 3 {
        assert(ws_at(s, n - 3) != 3);
    }
    assert(ws_before(s, 0, n) == 0);
    assert(back_ws(s, 0, n) == n);
    assert(s.subrange(0, n) =~= s);
}

/// Removing a byte that does not occur changes nothing.
pub proof fn lemma_without_absent(s: Seq<u8>, b: u8)
    requires
        forall|i: int| 0 <= i < s.len() ==> #[trigger] s[i] != b,
    ensures
        without(s, b) == s,
    decreases s.len(),
{
    if s.len() > 0 {
        lemma_without_absent(s.drop_last(), b);
        assert(s.drop_last().push(s.last()) =~= s);
    }
}

/// The decimal digits of `v` are digits, and read back as `v`.
pub proof fn lemma_dec_digits_value(v: nat, limit: nat, over: IntErrorKind)
    requires
        v <= limit,
    ensures
        forall|i: int| 0 <= i < dec_digits(v).len() ==> 48 <= #[trigger] dec_digits(v)[i] <= 57,
        dec_digits(v).len() >= 1,
        digits_value(dec_digits(v), 10, limit, over) == Ok::<nat, IntErrorKind>(v),
    decreases v,
{
    if v >= 10 {
        lemma_dec_digits_value(v / 10, limit, over);
        let d = dec_digits(v);
        assert(d.drop_last() =~= dec_digits(v / 10));
        assert(d.last() == (48 + v % 10) as u8);
        assert(digit_value(d.last(), 10) == Some((v % 10) as nat));
        assert((v / 10) * 10 + v % 10 == v);
        assert(v / 10 <= limit);
        assert(digits_value(d.drop_last(), 10, limit, over) == Ok::<nat, IntErrorKind>(v / 10));
        assert(d.len() > 0);
        assert(digits_value(d, 10, limit, over) == Ok::<nat, IntErrorKind>(v));
        assert forall|i: int| 0 <= i < d.len() implies 48 <= #[trigger] d[i] <= 57 by {
            if i < d.len() - 1 {
                assert(d[i] == dec_digits(v / 10)[i]);
            }
        }
    } else {
        let d = dec_digits(v);
        assert(d.len() == 1);
        assert(d.drop_last() =~= Seq::<u8>::empty());
        assert(digits_value(d.drop_last(), 10, limit, over) == Ok::<nat, IntErrorKind>(0));
        assert(d.last() == (48 + v) as u8);
        assert(digit_value(d.last(), 10) == Some(v));
        assert(digits_value(d, 10, limit, over) == Ok::<nat, IntErrorKind>(v));
    }
}

/// The lower-case hexadecimal digits of `v` are digits or `a`..`f`, and read back as `v`.
pub proof fn lemma_hex_digits_value(v: nat, limit: nat, over: IntErrorKind)
    requires
        v <= limit,
    ensures
        forall|i: int| 0 <= i < hex_digits_lower(v).len() ==> (48 <= #[trigger] hex_digits_lower(v)[i] <= 57
            || 97 <= hex_digits_lower(v)[i] <= 102),
        hex_digits_lower(v).len() >= 1,
        digits_value(hex_digits_lower(v), 16, limit, over) == Ok::<nat, IntErrorKind>(v),
    decreases v,
{
    let d = hex_digits_lower(v);
    if v >= 16 {
        lemma_hex_digits_value(v / 16, limit, over);
        assert(d.drop_last() =~= hex_digits_lower(v / 16));
        assert(digit_value(d.last(), 16) == Some((v % 16) as nat));
        assert((v / 16) * 16 + v % 16 == v);
        assert(v / 16 <= limit);
        assert(digits_value(d.drop_last(), 16, limit, over) == Ok::<nat, IntErrorKind>(v / 16));
        assert(d.len() > 0);
        assert(digits_value(d, 16, limit, over) == Ok::<nat, IntErrorKind>(v));
        assert forall|i: int| 0 <= i < d.len() implies (48 <= #[trigger] d[i] <= 57 || 97 <= d[i] <= 102) by {
            if i < d.len() - 1 {
                assert(d[i] == hex_digits_lower(v / 16)[i]);
            }
        }
    } else {
        assert(d.drop_last() =~= Seq::<u8>::empty());
        assert(v % 16 == v);
        assert(digit_value(d.last(), 16) == Some(v));
    }
}

/// Append the decimal digits of `v`.
pub fn push_decimal(buf: &mut Vec<u8>, v: u64)
    ensures
        final(buf)@ == old(buf)@ + dec_digits(v as nat),
    decreases v,
{
    if v < 10 {
        buf.push((48 + v) as u8);
        assert(buf@ =~= old(buf)@ + dec_digits(v as nat));
    } else {
        push_decimal(buf, v / 10);
        buf.push((48 + v % 10) as u8);
        assert(buf@ =~= old(buf)@ + dec_digits(v as nat));
    }
}

/// Append the lower-case hexadecimal digits of `v`.
pub fn push_hex_lower(buf: &mut Vec<u8>, v: u64)
    ensures
        final(buf)@ == old(buf)@ + hex_digits_lower(v as nat),
    decreases v,
{
    let d = v % 16;
    let c: u8 = if d < 10 {
        (48 + d) as u8
    } else {
        (87 + d) as u8
    };
    if v < 16 {
        buf.push(c);
    } else {
        push_hex_lower(buf, v / 16);
        buf.push(c);
    }
    assert(buf@ =~= old(buf)@ + hex_digits_lower(v as nat));
}

/// Decimal representation of `v` as a `String`.
pub fn decimal_string(v: u64) -> (s: String)
    ensures
        s@ == ascii_chars(dec_digits(v as nat)),
{
    let mut buf: Vec<u8> = Vec::new();
    push_decimal(&mut buf, v);
    proof {
        lemma_dec_digits_ascii(v as nat);
        assert(buf@ =~= dec_digits(v as nat));
    }
    ascii_string(buf)
}

/// ASCII decimal text of a signed value (`-` before the digits of a negative one).
pub open spec fn signed_dec_digits(v: int) -> Seq<u8> {
    if v < 0 {
        seq![45u8] + dec_digits((-v) as nat)
    } else {
        dec_digits(v as nat)
    }
}

/// Decimal representation of a signed value as a `String`.
pub fn signed_decimal_string(v: i64) -> (s: String)
    ensures
        s@ == ascii_chars(signed_dec_digits(v as int)),
{
    let mut buf: Vec<u8> = Vec::new();
    if v < 0 {
        buf.push(45u8);
        let m: u64 = (0 - (v as i128)) as u64;
        push_decimal(&mut buf, m);
    } else {
        push_decimal(&mut buf, v as u64);
    }
    proof {
        lemma_dec_digits_ascii(if v < 0 { (-v) as nat } else { v as nat });
        assert(buf@ =~= signed_dec_digits(v as int));
    }
    ascii_string(buf)
}

} // verus!
