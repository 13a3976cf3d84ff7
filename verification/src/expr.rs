//! SwissKnife formulas: the tokens of a formula, the grammar it must follow, and the
//! variables it names.
//!
//! A formula is ASCII text. Its tokens are numbers (decimal, with an optional fraction, or
//! `0x` hexadecimal), identifiers, parentheses, commas and the operators below; blanks
//! separate tokens. From loosest to tightest binding:
//!
//! - `c ? a : b` (right-associative)
//! - `||`, then `&&`, then `|`, then `^`, then `&`
//! - `=` `==` `<>` `!=`, then `<` `>` `<=` `>=`, then `<<` `>>`
//! - `+` `-`, then `*` `/` `%`
//! - prefix `-` `+` `!` `~`, and `**` (right-associative)
//! - numbers, identifiers, `( … )`, and calls of the math functions
//!   `SIN COS TAN ASIN ACOS ATAN ABS EXP LN LG SQRT TRUNC FLOOR CEIL ROUND SGN NEG`.
//!
//! `PI` and `E` are constants; every other identifier that is not a called function is a
//! variable, which the node must declare.
use vstd::prelude::*;
use crate::text::{ascii_chars, ascii_string, bytes_eq};

verus! {

pub const K_NUM: u8 = 0;
pub const K_IDENT: u8 = 1;
pub const K_LPAREN: u8 = 2;
pub const K_RPAREN: u8 = 3;
pub const K_COMMA: u8 = 4;
pub const K_QUESTION: u8 = 5;
pub const K_COLON: u8 = 6;
pub const K_NOT: u8 = 7;
pub const K_TILDE: u8 = 8;
pub const K_OR: u8 = 9;
pub const K_AND: u8 = 10;
pub const K_BOR: u8 = 11;
pub const K_BXOR: u8 = 12;
pub const K_BAND: u8 = 13;
pub const K_EQ: u8 = 14;
pub const K_NE: u8 = 15;
pub const K_LT: u8 = 16;
pub const K_GT: u8 = 17;
pub const K_LE: u8 = 18;
pub const K_GE: u8 = 19;
pub const K_SHL: u8 = 20;
pub const K_SHR: u8 = 21;
pub const K_PLUS: u8 = 22;
pub const K_MINUS: u8 = 23;
pub const K_STAR: u8 = 24;
pub const K_SLASH: u8 = 25;
pub const K_PCT: u8 = 26;
pub const K_POW: u8 = 27;

/// A token: its kind and the bytes `start..end` of the formula it covers.
#[derive(Clone, Copy, Debug, PartialEq, Eq, Structural)]
pub struct Tok {
    pub kind: u8,
    pub start: usize,
    pub end: usize,
}

// ---------------------------------------------------------------------------
// Tokens
// ---------------------------------------------------------------------------

pub open spec fn is_space(c: u8) -> bool {
    c == 32 || c == 9 || c == 10 || c == 13
}

pub open spec fn is_digit(c: u8) -> bool {
    48 <= c <= 57
}

pub open spec fn is_hex_digit(c: u8) -> bool {
    is_digit(c) || (65 <= c <= 70) || (97 <= c <= 102)
}

/// A byte that may begin an identifier: a letter or `_`.
pub open spec fn is_ident_start(c: u8) -> bool {
    (65 <= c <= 90) || (97 <= c <= 122) || c == 95
}

pub open spec fn is_ident_char(c: u8) -> bool {
    is_ident_start(c) || is_digit(c)
}

/// End of the run of decimal digits from `i`.
pub open spec fn digits_end(b: Seq<u8>, i: int) -> int
    decreases b.len() - i,
{
    if 0 <= i < b.len() && is_digit(b[i]) {
        digits_end(b, i + 1)
    } else {
        i
    }
}

/// End of the run of hexadecimal digits from `i`.
pub open spec fn hex_end(b: Seq<u8>, i: int) -> int
    decreases b.len() - i,
{
    if 0 <= i < b.len() && is_hex_digit(b[i]) {
        hex_end(b, i + 1)
    } else {
        i
    }
}

/// End of the run of identifier bytes from `i`.
pub open spec fn ident_end(b: Seq<u8>, i: int) -> int
    decreases b.len() - i,
{
    if 0 <= i < b.len() && is_ident_char(b[i]) {
        ident_end(b, i + 1)
    } else {
        i
    }
}

/// The end of the number that starts with the digit at `i`: `0x` and at least one hex
/// digit, or digits with an optional `.` and fraction digits.
pub open spec fn number_end(b: Seq<u8>, i: int) -> Option<int> {
    if b[i] == 48 && i + 1 < b.len() && (b[i + 1] == 120 || b[i + 1] == 88) {
        if hex_end(b, i + 2) > i + 2 {
            Some(hex_end(b, i + 2))
        } else {
            None
        }
    } else if digits_end(b, i) < b.len() && b[digits_end(b, i)] == 46 {
        Some(digits_end(b, digits_end(b, i) + 1))
    } else {
        Some(digits_end(b, i))
    }
}

/// The operator or punctuation at `i`, with its length; two-byte operators take
/// precedence.
pub open spec fn op_at(b: Seq<u8>, i: int) -> Option<(u8, int)> {
    let c = b[i];
    let n: u8 = if i + 1 < b.len() { b[i + 1] } else { 0 };
    if c == 42 && n == 42 {
        Some((K_POW, 2))
    } else if c == 60 && n == 60 {
        Some((K_SHL, 2))
    } else if c == 62 && n == 62 {
        Some((K_SHR, 2))
    } else if c == 60 && n == 61 {
        Some((K_LE, 2))
    } else if c == 62 && n == 61 {
        Some((K_GE, 2))
    } else if c == 60 && n == 62 {
        Some((K_NE, 2))
    } else if c == 33 && n == 61 {
        Some((K_NE, 2))
    } else if c == 61 && n == 61 {
        Some((K_EQ, 2))
    } else if c == 38 && n == 38 {
        Some((K_AND, 2))
    } else if c == 124 && n == 124 {
        Some((K_OR, 2))
    } else if c == 43 {
        Some((K_PLUS, 1))
    } else if c == 45 {
        Some((K_MINUS, 1))
    } else if c == 42 {
        Some((K_STAR, 1))
    } else if c == 47 {
        Some((K_SLASH, 1))
    } else if c == 37 {
        Some((K_PCT, 1))
    } else if c == 38 {
        Some((K_BAND, 1))
    } else if c == 124 {
        Some((K_BOR, 1))
    } else if c == 94 {
        Some((K_BXOR, 1))
    } else if c == 126 {
        Some((K_TILDE, 1))
    } else if c == 33 {
        Some((K_NOT, 1))
    } else if c == 60 {
        Some((K_LT, 1))
    } else if c == 62 {
        Some((K_GT, 1))
    } else if c == 61 {
        Some((K_EQ, 1))
    } else if c == 63 {
        Some((K_QUESTION, 1))
    } else if c == 58 {
        Some((K_COLON, 1))
    } else if c == 40 {
        Some((K_LPAREN, 1))
    } else if c == 41 {
        Some((K_RPAREN, 1))
    } else if c == 44 {
        Some((K_COMMA, 1))
    } else {
        None
    }
}

/// The token that starts at the non-blank byte `i`.
pub open spec fn token_at(b: Seq<u8>, i: int) -> Option<Tok> {
    if is_digit(b[i]) {
        match number_end(b, i) {
            Some(e) => Some(Tok { kind: K_NUM, start: i as usize, end: e as usize }),
            None => None,
        }
    } else if is_ident_start(b[i]) {
        Some(Tok { kind: K_IDENT, start: i as usize, end: ident_end(b, i + 1) as usize })
    } else {
        match op_at(b, i) {
            Some((k, n)) => Some(Tok { kind: k, start: i as usize, end: (i + n) as usize }),
            None => None,
        }
    }
}

/// The tokens of `b` from byte `i` on, or `None` where a byte starts no token.
pub open spec fn lex(b: Seq<u8>, i: int) -> Option<Seq<Tok>>
    decreases b.len() - i,
{
    if i < 0 || i >= b.len() {
        Some(Seq::empty())
    } else if is_space(b[i]) {
        lex(b, i + 1)
    } else {
        match token_at(b, i) {
            None => None,
            Some(t) => if t.end as int <= i || t.end as int > b.len() {
                None
            } else {
                match lex(b, t.end as int) {
                    None => None,
                    Some(rest) => Some(seq![t] + rest),
                }
            },
        }
    }
}

/// `p` in front of the tokens `r`, if there are any.
pub open spec fn prepend(p: Seq<Tok>, r: Option<Seq<Tok>>) -> Option<Seq<Tok>> {
    match r {
        Some(s) => Some(p + s),
        None => None,
    }
}

/// Tokens that lie inside `b`, identifiers made of identifier bytes.
pub open spec fn toks_in(t: Seq<Tok>, b: Seq<u8>) -> bool {
    forall|k: int| 0 <= k < t.len() ==> {
        &&& (#[trigger] t[k]).start < t[k].end <= b.len()
        &&& (t[k].kind == K_IDENT ==> forall|m: int| t[k].start <= m < t[k].end ==> is_ident_char(b[m]))
    }
}

/// Whether `c` continues a run of digits (0), hex digits (1) or identifier bytes (2).
pub open spec fn run_byte(c: u8, which: u8) -> bool {
    if which == 0 {
        is_digit(c)
    } else if which == 1 {
        is_hex_digit(c)
    } else {
        is_ident_char(c)
    }
}

fn run_byte_exec(c: u8, which: u8) -> (r: bool)
    ensures
        r == run_byte(c, which),
{
    if which == 0 {
        c >= 48 && c <= 57
    } else if which == 1 {
        (c >= 48 && c <= 57) || (c >= 65 && c <= 70) || (c >= 97 && c <= 102)
    } else {
        (c >= 65 && c <= 90) || (c >= 97 && c <= 122) || c == 95 || (c >= 48 && c <= 57)
    }
}

fn run_end(b: &[u8], i: usize, which: u8) -> (r: usize)
    requires
        i <= b@.len(),
        which <= 2,
    ensures
        i <= r <= b@.len(),
        which == 0 ==> r == digits_end(b@, i as int),
        which == 1 ==> r == hex_end(b@, i as int),
        which == 2 ==> r == ident_end(b@, i as int),
        which == 2 ==> forall|m: int| i <= m < r ==> is_ident_char(b@[m]),
{
    let mut j = i;
    while j < b.len() && run_byte_exec(b[j], which)
        invariant
            i <= j <= b@.len(),
            which <= 2,
            which == 0 ==> digits_end(b@, i as int) == digits_end(b@, j as int),
            which == 1 ==> hex_end(b@, i as int) == hex_end(b@, j as int),
            which == 2 ==> ident_end(b@, i as int) == ident_end(b@, j as int),
            which == 2 ==> forall|m: int| i <= m < j ==> is_ident_char(b@[m]),
        decreases b@.len() - j,
    {
        j = j + 1;
    }
    j
}

fn op_at_exec(b: &[u8], i: usize) -> (r: Option<(u8, usize)>)
    requires
        i < b@.len(),
    ensures
        match op_at(b@, i as int) {
            Some((k, n)) => r == Some((k, n as usize)) && 1 <= n <= 2 && i + n <= b@.len(),
            None => r is None,
        },
{
    let c = b[i];
    let n: u8 = if i + 1 < b.len() { b[i + 1] } else { 0 };
    if c == 42 && n == 42 {
        Some((K_POW, 2))
    } else if c == 60 && n == 60 {
        Some((K_SHL, 2))
    } else if c == 62 && n == 62 {
        Some((K_SHR, 2))
    } else if c == 60 && n == 61 {
        Some((K_LE, 2))
    } else if c == 62 && n == 61 {
        Some((K_GE, 2))
    } else if c == 60 && n == 62 {
        Some((K_NE, 2))
    } else if c == 33 && n == 61 {
        Some((K_NE, 2))
    } else if c == 61 && n == 61 {
        Some((K_EQ, 2))
    } else if c == 38 && n == 38 {
        Some((K_AND, 2))
    } else if c == 124 && n == 124 {
        Some((K_OR, 2))
    } else if c == 43 {
        Some((K_PLUS, 1))
    } else if c == 45 {
        Some((K_MINUS, 1))
    } else if c == 42 {
        Some((K_STAR, 1))
    } else if c == 47 {
        Some((K_SLASH, 1))
    } else if c == 37 {
        Some((K_PCT, 1))
    } else if c == 38 {
        Some((K_BAND, 1))
    } else if c == 124 {
        Some((K_BOR, 1))
    } else if c == 94 {
        Some((K_BXOR, 1))
    } else if c == 126 {
        Some((K_TILDE, 1))
    } else if c == 33 {
        Some((K_NOT, 1))
    } else if c == 60 {
        Some((K_LT, 1))
    } else if c == 62 {
        Some((K_GT, 1))
    } else if c == 61 {
        Some((K_EQ, 1))
    } else if c == 63 {
        Some((K_QUESTION, 1))
    } else if c == 58 {
        Some((K_COLON, 1))
    } else if c == 40 {
        Some((K_LPAREN, 1))
    } else if c == 41 {
        Some((K_RPAREN, 1))
    } else if c == 44 {
        Some((K_COMMA, 1))
    } else {
        None
    }
}

fn token_at_exec(b: &[u8], i: usize) -> (r: Option<Tok>)
    requires
        i < b@.len(),
    ensures
        r == token_at(b@, i as int),
        r matches Some(t) ==> t.start == i && i < t.end <= b@.len() && (t.kind == K_IDENT ==> forall|m: int|
            t.start <= m < t.end ==> is_ident_char(b@[m])),
{
    let c = b[i];
    if c >= 48 && c <= 57 {
        if c == 48 && i + 1 < b.len() && (b[i + 1] == 120 || b[i + 1] == 88) {
            let e = run_end(b, i + 2, 1);
            if e > i + 2 {
                Some(Tok { kind: K_NUM, start: i, end: e })
            } else {
                None
            }
        } else {
            let d = run_end(b, i + 1, 0);
            proof {
                assert(is_digit(b@[i as int]));
                assert(digits_end(b@, i as int) == digits_end(b@, i + 1));
            }
            if d < b.len() && b[d] == 46 {
                let e = run_end(b, d + 1, 0);
                Some(Tok { kind: K_NUM, start: i, end: e })
            } else {
                proof {
                    assert(is_digit(b@[i as int]));
                    assert(digits_end(b@, i as int) == digits_end(b@, i + 1));
                }
                Some(Tok { kind: K_NUM, start: i, end: d })
            }
        }
    } else if (c >= 65 && c <= 90) || (c >= 97 && c <= 122) || c == 95 {
        let e = run_end(b, i + 1, 2);
        Some(Tok { kind: K_IDENT, start: i, end: e })
    } else {
        match op_at_exec(b, i) {
            Some((k, n)) => Some(Tok { kind: k, start: i, end: i + n }),
            None => None,
        }
    }
}

/// The tokens of a formula's bytes.
pub fn tokenize(b: &[u8]) -> (r: Option<Vec<Tok>>)
    ensures
        match r {
            Some(v) => lex(b@, 0) == Some(v@) && toks_in(v@, b@),
            None => lex(b@, 0) is None,
        },
{
    let mut toks: Vec<Tok> = Vec::new();
    let mut i: usize = 0;
    while i < b.len()
        invariant
            i <= b@.len(),
            lex(b@, 0) == prepend(toks@, lex(b@, i as int)),
            toks_in(toks@, b@),
        decreases b@.len() - i,
    {
        let c = b[i];
        if c == 32 || c == 9 || c == 10 || c == 13 {
            i = i + 1;
        } else {
            match token_at_exec(b, i) {
                None => {
                    return None;
                },
                Some(t) => {
                    proof {
                        let rest = lex(b@, t.end as int);
                        assert(lex(b@, i as int) == prepend(seq![t], rest));
                        match rest {
                            Some(s) => assert(toks@ + (seq![t] + s) =~= toks@.push(t) + s),
                            None => {},
                        }
                    }
                    toks.push(t);
                    i = t.end;
                },
            }
        }
    }
    proof {
        assert(toks@ + Seq::<Tok>::empty() =~= toks@);
    }
    Some(toks)
}

// ---------------------------------------------------------------------------
// Grammar
// ---------------------------------------------------------------------------

/// The bytes a token covers.
pub open spec fn word(b: Seq<u8>, t: Tok) -> Seq<u8> {
    b.subrange(t.start as int, t.end as int)
}

/// The names of the math functions.
pub open spec fn is_func(w: Seq<u8>) -> bool {
    ||| w == seq![83u8, 73u8, 78u8]
    ||| w == seq![67u8, 79u8, 83u8]
    ||| w == seq![84u8, 65u8, 78u8]
    ||| w == seq![65u8, 83u8, 73u8, 78u8]
    ||| w == seq![65u8, 67u8, 79u8, 83u8]
    ||| w == seq![65u8, 84u8, 65u8, 78u8]
    ||| w == seq![65u8, 66u8, 83u8]
    ||| w == seq![69u8, 88u8, 80u8]
    ||| w == seq![76u8, 78u8]
    ||| w == seq![76u8, 71u8]
    ||| w == seq![83u8, 81u8, 82u8, 84u8]
    ||| w == seq![84u8, 82u8, 85u8, 78u8, 67u8]
    ||| w == seq![70u8, 76u8, 79u8, 79u8, 82u8]
    ||| w == seq![67u8, 69u8, 73u8, 76u8]
    ||| w == seq![82u8, 79u8, 85u8, 78u8, 68u8]
    ||| w == seq![83u8, 71u8, 78u8]
    ||| w == seq![78u8, 69u8, 71u8]
}

/// The names of the constants: `PI` and `E`.
pub open spec fn is_const_name(w: Seq<u8>) -> bool {
    w == seq![80u8, 73u8] || w == seq![69u8]
}

pub open spec fn is_unary_kind(k: u8) -> bool {
    k == K_MINUS || k == K_PLUS || k == K_NOT || k == K_TILDE
}

/// The binding level of a binary operator, loosest first; -1 for other tokens.
pub open spec fn bin_level(k: u8) -> int {
    if k == K_OR {
        0
    } else if k == K_AND {
        1
    } else if k == K_BOR {
        2
    } else if k == K_BXOR {
        3
    } else if k == K_BAND {
        4
    } else if k == K_EQ || k == K_NE {
        5
    } else if k == K_LT || k == K_GT || k == K_LE || k == K_GE {
        6
    } else if k == K_SHL || k == K_SHR {
        7
    } else if k == K_PLUS || k == K_MINUS {
        8
    } else if k == K_STAR || k == K_SLASH || k == K_PCT {
        9
    } else {
        -1
    }
}

/// Where a conditional expression that starts at token `p` ends.
pub open spec fn p_ternary(t: Seq<Tok>, b: Seq<u8>, p: int) -> Option<int>
    decreases t.len() - p, 20int,
{
    if p < 0 || p >= t.len() {
        None
    } else {
        match p_level(t, b, 0, p) {
            None => None,
            Some(q) => if q <= p || q > t.len() {
                None
            } else if q < t.len() && t[q].kind == K_QUESTION {
                match p_ternary(t, b, q + 1) {
                    None => None,
                    Some(r) => if r <= q || r > t.len() {
                        None
                    } else if r < t.len() && t[r].kind == K_COLON {
                        p_ternary(t, b, r + 1)
                    } else {
                        None
                    },
                }
            } else {
                Some(q)
            },
        }
    }
}

/// Where an expression of binary operators of level `l` or tighter that starts at `p` ends.
pub open spec fn p_level(t: Seq<Tok>, b: Seq<u8>, l: int, p: int) -> Option<int>
    decreases t.len() - p, if l >= 10 { 5 } else { 15 - l },
{
    if p < 0 || p >= t.len() {
        None
    } else if l >= 10 {
        p_unary(t, b, p)
    } else {
        match p_level(t, b, l + 1, p) {
            None => None,
            Some(q) => if q <= p || q > t.len() {
                None
            } else {
                p_tail(t, b, l, q)
            },
        }
    }
}

/// Where the operators of level `l` and their right operands that follow at `p` end.
pub open spec fn p_tail(t: Seq<Tok>, b: Seq<u8>, l: int, p: int) -> Option<int>
    decreases t.len() - p, if l >= 10 { 5 } else { 15 - l },
{
    if p < 0 || p > t.len() {
        None
    } else if p < t.len() && bin_level(t[p].kind) == l {
        match p_level(t, b, l + 1, p + 1) {
            None => None,
            Some(q) => if q <= p || q > t.len() {
                None
            } else {
                p_tail(t, b, l, q)
            },
        }
    } else {
        Some(p)
    }
}

/// Where a prefixed operand, with an optional `**` exponent, that starts at `p` ends.
pub open spec fn p_unary(t: Seq<Tok>, b: Seq<u8>, p: int) -> Option<int>
    decreases t.len() - p, 4int,
{
    if p < 0 || p >= t.len() {
        None
    } else if is_unary_kind(t[p].kind) {
        p_unary(t, b, p + 1)
    } else {
        match p_primary(t, b, p) {
            None => None,
            Some(q) => if q <= p || q > t.len() {
                None
            } else if q < t.len() && t[q].kind == K_POW {
                p_unary(t, b, q + 1)
            } else {
                Some(q)
            },
        }
    }
}

/// Where a number, a name, a function call or a parenthesized expression at `p` ends.
pub open spec fn p_primary(t: Seq<Tok>, b: Seq<u8>, p: int) -> Option<int>
    decreases t.len() - p, 2int,
{
    if p < 0 || p >= t.len() {
        None
    } else if t[p].kind == K_NUM {
        Some(p + 1)
    } else if t[p].kind == K_IDENT {
        if p + 1 < t.len() && t[p + 1].kind == K_LPAREN && is_func(word(b, t[p])) {
            p_args(t, b, p + 2)
        } else {
            Some(p + 1)
        }
    } else if t[p].kind == K_LPAREN {
        match p_ternary(t, b, p + 1) {
            None => None,
            Some(q) => if q <= p || q > t.len() {
                None
            } else if q < t.len() && t[q].kind == K_RPAREN {
                Some(q + 1)
            } else {
                None
            },
        }
    } else {
        None
    }
}

/// Where a call's arguments, from `p` up to and with the closing parenthesis, end.
pub open spec fn p_args(t: Seq<Tok>, b: Seq<u8>, p: int) -> Option<int>
    decreases t.len() - p, 21int,
{
    if p < 0 || p >= t.len() {
        None
    } else {
        match p_ternary(t, b, p) {
            None => None,
            Some(q) => if q <= p || q > t.len() {
                None
            } else if q < t.len() && t[q].kind == K_COMMA {
                p_args(t, b, q + 1)
            } else if q < t.len() && t[q].kind == K_RPAREN {
                Some(q + 1)
            } else {
                None
            },
        }
    }
}

/// A position the exec parser returns, as the spec parser gives it.
pub open spec fn pos_of(r: Option<usize>) -> Option<int> {
    match r {
        Some(q) => Some(q as int),
        None => None,
    }
}

fn is_func_word(w: &[u8]) -> (r: bool)
    ensures
        r == is_func(w@),
{
    let fname1: [u8; 3] = [83, 73, 78];
    let fname2: [u8; 3] = [67, 79, 83];
    let fname3: [u8; 3] = [84, 65, 78];
    let fname4: [u8; 4] = [65, 83, 73, 78];
    let fname5: [u8; 4] = [65, 67, 79, 83];
    let fname6: [u8; 4] = [65, 84, 65, 78];
    let fname7: [u8; 3] = [65, 66, 83];
    let fname8: [u8; 3] = [69, 88, 80];
    let fname9: [u8; 2] = [76, 78];
    let fname10: [u8; 2] = [76, 71];
    let fname11: [u8; 4] = [83, 81, 82, 84];
    let fname12: [u8; 5] = [84, 82, 85, 78, 67];
    let fname13: [u8; 5] = [70, 76, 79, 79, 82];
    let fname14: [u8; 4] = [67, 69, 73, 76];
    let fname15: [u8; 5] = [82, 79, 85, 78, 68];
    let fname16: [u8; 3] = [83, 71, 78];
    let fname17: [u8; 3] = [78, 69, 71];
    proof {
        assert(fname1@ =~= seq![83u8, 73u8, 78u8]);
        assert(fname2@ =~= seq![67u8, 79u8, 83u8]);
        assert(fname3@ =~= seq![84u8, 65u8, 78u8]);
        assert(fname4@ =~= seq![65u8, 83u8, 73u8, 78u8]);
        assert(fname5@ =~= seq![65u8, 67u8, 79u8, 83u8]);
        assert(fname6@ =~= seq![65u8, 84u8, 65u8, 78u8]);
        assert(fname7@ =~= seq![65u8, 66u8, 83u8]);
        assert(fname8@ =~= seq![69u8, 88u8, 80u8]);
        assert(fname9@ =~= seq![76u8, 78u8]);
        assert(fname10@ =~= seq![76u8, 71u8]);
        assert(fname11@ =~= seq![83u8, 81u8, 82u8, 84u8]);
        assert(fname12@ =~= seq![84u8, 82u8, 85u8, 78u8, 67u8]);
        assert(fname13@ =~= seq![70u8, 76u8, 79u8, 79u8, 82u8]);
        assert(fname14@ =~= seq![67u8, 69u8, 73u8, 76u8]);
        assert(fname15@ =~= seq![82u8, 79u8, 85u8, 78u8, 68u8]);
        assert(fname16@ =~= seq![83u8, 71u8, 78u8]);
        assert(fname17@ =~= seq![78u8, 69u8, 71u8]);
    }
    bytes_eq(w, fname1.as_slice()) || bytes_eq(w, fname2.as_slice()) || bytes_eq(w, fname3.as_slice()) || bytes_eq(
        w,
        fname4.as_slice(),
    ) || bytes_eq(w, fname5.as_slice()) || bytes_eq(w, fname6.as_slice()) || bytes_eq(w, fname7.as_slice()) || bytes_eq(
        w,
        fname8.as_slice(),
    ) || bytes_eq(w, fname9.as_slice()) || bytes_eq(w, fname10.as_slice()) || bytes_eq(w, fname11.as_slice())
        || bytes_eq(w, fname12.as_slice()) || bytes_eq(w, fname13.as_slice()) || bytes_eq(w, fname14.as_slice())
        || bytes_eq(w, fname15.as_slice()) || bytes_eq(w, fname16.as_slice()) || bytes_eq(w, fname17.as_slice())
}

fn is_const_word(w: &[u8]) -> (r: bool)
    ensures
        r == is_const_name(w@),
{
    let pi: [u8; 2] = [80, 73];
    let e: [u8; 1] = [69];
    proof {
        assert(pi@ =~= seq![80u8, 73u8]);
        assert(e@ =~= seq![69u8]);
    }
    bytes_eq(w, pi.as_slice()) || bytes_eq(w, e.as_slice())
}

fn bin_level_exec(k: u8) -> (r: u8)
    ensures
        bin_level(k) == -1 ==> r == 255,
        bin_level(k) != -1 ==> r == bin_level(k),
{
    if k == K_OR {
        0
    } else if k == K_AND {
        1
    } else if k == K_BOR {
        2
    } else if k == K_BXOR {
        3
    } else if k == K_BAND {
        4
    } else if k == K_EQ || k == K_NE {
        5
    } else if k == K_LT || k == K_GT || k == K_LE || k == K_GE {
        6
    } else if k == K_SHL || k == K_SHR {
        7
    } else if k == K_PLUS || k == K_MINUS {
        8
    } else if k == K_STAR || k == K_SLASH || k == K_PCT {
        9
    } else {
        255
    }
}

fn ternary(t: &Vec<Tok>, b: &[u8], p: usize) -> (r: Option<usize>)
    requires
        toks_in(t@, b@),
    ensures
        pos_of(r) == p_ternary(t@, b@, p as int),
        r matches Some(q) ==> p < q <= t@.len(),
    decreases t@.len() - p, 20int,
{
    if p >= t.len() {
        return None;
    }
    let q = match level(t, b, 0, p) {
        None => return None,
        Some(q) => q,
    };
    if q < t.len() && t[q].kind == K_QUESTION {
        let r = match ternary(t, b, q + 1) {
            None => return None,
            Some(r) => r,
        };
        if r < t.len() && t[r].kind == K_COLON {
            ternary(t, b, r + 1)
        } else {
            None
        }
    } else {
        Some(q)
    }
}

fn level(t: &Vec<Tok>, b: &[u8], l: u8, p: usize) -> (r: Option<usize>)
    requires
        toks_in(t@, b@),
        l <= 10,
    ensures
        pos_of(r) == p_level(t@, b@, l as int, p as int),
        r matches Some(q) ==> p < q <= t@.len(),
    decreases t@.len() - p, 15 - l,
{
    if p >= t.len() {
        return None;
    }
    if l >= 10 {
        return unary(t, b, p);
    }
    let q = match level(t, b, l + 1, p) {
        None => return None,
        Some(q) => q,
    };
    tail(t, b, l, q)
}

fn tail(t: &Vec<Tok>, b: &[u8], l: u8, p: usize) -> (r: Option<usize>)
    requires
        toks_in(t@, b@),
        l < 10,
        p <= t@.len(),
    ensures
        pos_of(r) == p_tail(t@, b@, l as int, p as int),
        r matches Some(q) ==> p <= q <= t@.len(),
    decreases t@.len() - p, 15 - l,
{
    if p < t.len() && bin_level_exec(t[p].kind) == l {
        let q = match level(t, b, l + 1, p + 1) {
            None => return None,
            Some(q) => q,
        };
        tail(t, b, l, q)
    } else {
        Some(p)
    }
}

fn unary(t: &Vec<Tok>, b: &[u8], p: usize) -> (r: Option<usize>)
    requires
        toks_in(t@, b@),
    ensures
        pos_of(r) == p_unary(t@, b@, p as int),
        r matches Some(q) ==> p < q <= t@.len(),
    decreases t@.len() - p, 4int,
{
    if p >= t.len() {
        return None;
    }
    let k = t[p].kind;
    if k == K_MINUS || k == K_PLUS || k == K_NOT || k == K_TILDE {
        return unary(t, b, p + 1);
    }
    let q = match primary(t, b, p) {
        None => return None,
        Some(q) => q,
    };
    if q < t.len() && t[q].kind == K_POW {
        unary(t, b, q + 1)
    } else {
        Some(q)
    }
}

fn primary(t: &Vec<Tok>, b: &[u8], p: usize) -> (r: Option<usize>)
    requires
        toks_in(t@, b@),
    ensures
        pos_of(r) == p_primary(t@, b@, p as int),
        r matches Some(q) ==> p < q <= t@.len(),
    decreases t@.len() - p, 2int,
{
    if p >= t.len() {
        return None;
    }
    let tok = t[p];
    if tok.kind == K_NUM {
        Some(p + 1)
    } else if tok.kind == K_IDENT {
        if p + 1 < t.len() && t[p + 1].kind == K_LPAREN {
            proof {
                assert(t@[p as int] == tok);
            }
            let w = vstd::slice::slice_subrange(b, tok.start, tok.end);
            if is_func_word(w) {
                args(t, b, p + 2)
            } else {
                Some(p + 1)
            }
        } else {
            Some(p + 1)
        }
    } else if tok.kind == K_LPAREN {
        let q = match ternary(t, b, p + 1) {
            None => return None,
            Some(q) => q,
        };
        if q < t.len() && t[q].kind == K_RPAREN {
            Some(q + 1)
        } else {
            None
        }
    } else {
        None
    }
}

fn args(t: &Vec<Tok>, b: &[u8], p: usize) -> (r: Option<usize>)
    requires
        toks_in(t@, b@),
    ensures
        pos_of(r) == p_args(t@, b@, p as int),
        r matches Some(q) ==> p < q <= t@.len(),
    decreases t@.len() - p, 21int,
{
    if p >= t.len() {
        return None;
    }
    let q = match ternary(t, b, p) {
        None => return None,
        Some(q) => q,
    };
    if q < t.len() && t[q].kind == K_COMMA {
        args(t, b, q + 1)
    } else if q < t.len() && t[q].kind == K_RPAREN {
        Some(q + 1)
    } else {
        None
    }
}

/// Whether a formula's bytes follow the grammar.
pub open spec fn expr_parses(b: Seq<u8>) -> bool {
    lex(b, 0) matches Some(t) && t.len() > 0 && p_ternary(t, b, 0) == Some(t.len() as int)
}

/// Whether the token list `t` of `b` follows the grammar.
pub fn parses(t: &Vec<Tok>, b: &[u8]) -> (r: bool)
    requires
        toks_in(t@, b@),
    ensures
        r == (t@.len() > 0 && p_ternary(t@, b@, 0) == Some(t@.len() as int)),
{
    if t.len() == 0 {
        return false;
    }
    match ternary(t, b, 0) {
        Some(q) => q == t.len(),
        None => false,
    }
}

// ---------------------------------------------------------------------------
// Variables
// ---------------------------------------------------------------------------

/// Whether token `k` names a variable: an identifier that is neither a constant nor a
/// function being called.
pub open spec fn is_var_tok(t: Seq<Tok>, b: Seq<u8>, k: int) -> bool {
    &&& t[k].kind == K_IDENT
    &&& !is_const_name(word(b, t[k]))
    &&& !(k + 1 < t.len() && t[k + 1].kind == K_LPAREN && is_func(word(b, t[k])))
}

/// Whether a variable named `name` is declared.
pub open spec fn declared(vars: Seq<(String, String)>, name: Seq<char>) -> bool {
    exists|j: int| 0 <= j < vars.len() && (#[trigger] vars[j]).0@ == name
}

/// Whether token `k` names a variable that is not declared.
pub open spec fn unknown_at(t: Seq<Tok>, b: Seq<u8>, vars: Seq<(String, String)>, k: int) -> bool {
    is_var_tok(t, b, k) && !declared(vars, ascii_chars(word(b, t[k])))
}

/// Index of the first token from `k` on that names an undeclared variable, or `t.len()`.
pub open spec fn first_unknown(t: Seq<Tok>, b: Seq<u8>, vars: Seq<(String, String)>, k: int) -> int
    decreases t.len() - k,
{
    if k < 0 || k >= t.len() {
        t.len() as int
    } else if unknown_at(t, b, vars, k) {
        k
    } else {
        first_unknown(t, b, vars, k + 1)
    }
}

/// The first undeclared variable of a token list, by its name.
pub fn undeclared_variable(t: &Vec<Tok>, b: &[u8], vars: &Vec<(String, String)>) -> (r: Option<String>)
    requires
        toks_in(t@, b@),
    ensures
        r is None ==> first_unknown(t@, b@, vars@, 0) == t@.len(),
        r matches Some(s) ==> first_unknown(t@, b@, vars@, 0) < t@.len() && s@ == ascii_chars(
            word(b@, t@[first_unknown(t@, b@, vars@, 0)]),
        ),
{
    let mut k: usize = 0;
    while k < t.len()
        invariant
            k <= t@.len(),
            toks_in(t@, b@),
            first_unknown(t@, b@, vars@, 0) == first_unknown(t@, b@, vars@, k as int),
        decreases t@.len() - k,
    {
        let tok = t[k];
        proof {
            assert(t@[k as int] == tok);
        }
        if tok.kind == K_IDENT {
            let w = vstd::slice::slice_subrange(b, tok.start, tok.end);
            let called = k + 1 < t.len() && t[k + 1].kind == K_LPAREN && is_func_word(w);
            if !is_const_word(w) && !called {
                let bytes = vstd::slice::slice_to_vec(w);
                proof {
                    assert forall|m: int| 0 <= m < bytes@.len() implies bytes@[m] < 128 by {
                        assert(bytes@[m] == b@[tok.start + m]);
                        assert(is_ident_char(b@[tok.start + m]));
                    }
                }
                let name = ascii_string(bytes);
                let mut j: usize = 0;
                let mut found = false;
                while j < vars.len()
                    invariant
                        j <= vars@.len(),
                        found ==> declared(vars@, name@),
                        !found ==> forall|i: int| 0 <= i < j ==> (#[trigger] vars@[i]).0@ != name@,
                    decreases vars@.len() - j,
                {
                    if vars[j].0 == name {
                        proof {
                            assert(vars@[j as int].0@ == name@);
                        }
                        found = true;
                    }
                    j = j + 1;
                }
                if !found {
                    return Some(name);
                }
            }
        }
        k = k + 1;
    }
    None
}

// ---------------------------------------------------------------------------
// Checking a formula
// ---------------------------------------------------------------------------

/// The bytes of a formula.
pub open spec fn formula_bytes(expr: Seq<char>) -> Seq<u8> {
    vstd::utf8::encode_utf8(expr)
}

/// Message of the error for a formula that does not follow the grammar.
pub open spec fn expr_parse_msg(expr: Seq<char>) -> Seq<char> {
    "invalid expression '"@ + expr + "'"@
}

/// Whether a formula follows the grammar and names only declared variables.
pub open spec fn formula_ok(expr: Seq<char>, vars: Seq<(String, String)>) -> bool {
    let b = formula_bytes(expr);
    expr_parses(b) && first_unknown(lex(b, 0)->Some_0, b, vars, 0) == lex(b, 0)->Some_0.len()
}

/// The error a formula that is not ok gives for the node `name`: the grammar error, or
/// the first undeclared variable it names.
pub open spec fn formula_error(name: Seq<char>, expr: Seq<char>, vars: Seq<(String, String)>, e: crate::genapi::GenApiError) -> bool {
    let b = formula_bytes(expr);
    if !expr_parses(b) {
        e matches crate::genapi::GenApiError::ExprParse { name: n, msg } && n@ == name && msg@ == expr_parse_msg(expr)
    } else {
        let t = lex(b, 0)->Some_0;
        let k = first_unknown(t, b, vars, 0);
        e matches crate::genapi::GenApiError::UnknownVariable { name: n, var } && n@ == name && var@ == ascii_chars(
            word(b, t[k]),
        )
    }
}

/// Check the formula of the SwissKnife node `name` against its declared variables.
pub fn check_formula(name: &String, expr: &String, vars: &Vec<(String, String)>) -> (r: Result<
    (),
    crate::genapi::GenApiError,
>)
    ensures
        r is Ok <==> formula_ok(expr@, vars@),
        r matches Err(e) ==> formula_error(name@, expr@, vars@, e),
{
    let b = expr.as_str().as_bytes();
    let toks = match tokenize(b) {
        Some(t) => t,
        None => return Err(parse_error(name, expr)),
    };
    if !parses(&toks, b) {
        return Err(parse_error(name, expr));
    }
    match undeclared_variable(&toks, b, vars) {
        Some(v) => Err(crate::genapi::GenApiError::UnknownVariable { name: name.clone(), var: v }),
        None => Ok(()),
    }
}

fn parse_error(name: &String, expr: &String) -> (e: crate::genapi::GenApiError)
    ensures
        e matches crate::genapi::GenApiError::ExprParse { name: n, msg } && n@ == name@ && msg@ == expr_parse_msg(
            expr@,
        ),
{
    let mut m = String::from_str("invalid expression '");
    m.append(expr.as_str());
    m.append("'");
    crate::genapi::GenApiError::ExprParse { name: name.clone(), msg: m }
}

// ---------------------------------------------------------------------------
// Laws
// ---------------------------------------------------------------------------

/// The GenICam math function names: SIN, COS, TAN, ASIN, ACOS, ATAN, ABS, EXP, LN, LG,
/// SQRT, TRUNC, FLOOR, CEIL, ROUND, SGN, NEG, spelled out byte by byte.
pub open spec fn math_function_name(f: Seq<u8>) -> bool {
    ||| f == seq![83u8, 73, 78]
    ||| f == seq![67u8, 79, 83]
    ||| f == seq![84u8, 65, 78]
    ||| f == seq![65u8, 83, 73, 78]
    ||| f == seq![65u8, 67, 79, 83]
    ||| f == seq![65u8, 84, 65, 78]
    ||| f == seq![65u8, 66, 83]
    ||| f == seq![69u8, 88, 80]
    ||| f == seq![76u8, 78]
    ||| f == seq![76u8, 71]
    ||| f == seq![83u8, 81, 82, 84]
    ||| f == seq![84u8, 82, 85, 78, 67]
    ||| f == seq![70u8, 76, 79, 79, 82]
    ||| f == seq![67u8, 69, 73, 76]
    ||| f == seq![82u8, 79, 85, 78, 68]
    ||| f == seq![83u8, 71, 78]
    ||| f == seq![78u8, 69, 71]
}

/// A run of identifier bytes from `i` ends at the first byte that is none.
proof fn lemma_ident_run(b: Seq<u8>, i: int, n: int)
    requires
        0 <= i <= n < b.len(),
        forall|j: int| i <= j < n ==> is_ident_char(#[trigger] b[j]),
        !is_ident_char(b[n]),
    ensures
        ident_end(b, i) == n,
    decreases n - i,
{
    if i < n {
        lemma_ident_run(b, i + 1, n);
    }
}

/// The tokens of a call `f(A)`.
pub open spec fn call_toks(n: int) -> Seq<Tok> {
    seq![
        Tok { kind: K_IDENT, start: 0, end: n as usize },
        Tok { kind: K_LPAREN, start: n as usize, end: (n + 1) as usize },
        Tok { kind: K_IDENT, start: (n + 1) as usize, end: (n + 2) as usize },
        Tok { kind: K_RPAREN, start: (n + 2) as usize, end: (n + 3) as usize },
    ]
}

/// An operand that ends where no binary operator follows is a whole expression of every level.
proof fn lemma_levels(t: Seq<Tok>, b: Seq<u8>, p: int, q: int, l: int)
    requires
        0 <= l <= 10,
        0 <= p < q <= t.len(),
        p_unary(t, b, p) == Some(q),
        q < t.len() ==> bin_level(t[q].kind) == -1,
    ensures
        p_level(t, b, l, p) == Some(q),
    decreases 10 - l,
{
    if l < 10 {
        lemma_levels(t, b, p, q, l + 1);
        assert(p_tail(t, b, l, q) == Some(q));
    }
}

/// A math function name is a called function of two to five capital letters.
proof fn lemma_math_name_shape(f: Seq<u8>)
    requires
        math_function_name(f),
    ensures
        2 <= f.len() <= 5,
        forall|j: int| 0 <= j < f.len() ==> 65 <= #[trigger] f[j] <= 90,
        is_func(f),
{
}

/// The call `f(A)` of a name of capital letters lexes into its four tokens.
proof fn lemma_call_lexes(f: Seq<u8>)
    requires
        2 <= f.len() <= 5,
        forall|j: int| 0 <= j < f.len() ==> 65 <= #[trigger] f[j] <= 90,
    ensures
        lex(f + seq![40u8, 65, 41], 0) == Some(call_toks(f.len() as int)),
{
    let b = f + seq![40u8, 65, 41];
    let n = f.len() as int;
    let t = call_toks(n);
    assert(b[n] == 40 && b[n + 1] == 65 && b[n + 2] == 41);
    assert forall|j: int| 0 <= j < n implies is_ident_char(#[trigger] b[j]) by {
        assert(b[j] == f[j]);
    }
    lemma_ident_run(b, 1, n);
    lemma_ident_run(b, n + 2, n + 2);
    assert(lex(b, n + 3) == Some(Seq::<Tok>::empty()));
    assert(lex(b, n + 2) == Some(seq![t[3]]));
    assert(seq![t[2]] + seq![t[3]] =~= t.subrange(2, 4));
    assert(lex(b, n + 1) == Some(t.subrange(2, 4)));
    assert(seq![t[1]] + t.subrange(2, 4) =~= t.subrange(1, 4));
    assert(lex(b, n) == Some(t.subrange(1, 4)));
    assert(b[0] == f[0]);
    assert(seq![t[0]] + t.subrange(1, 4) =~= t);
}

/// The call `f(A)` of a called function parses as a whole.
proof fn lemma_call_parses(f: Seq<u8>)
    requires
        2 <= f.len() <= 5,
        is_func(f),
    ensures
        p_ternary(call_toks(f.len() as int), f + seq![40u8, 65, 41], 0) == Some(4int),
{
    let b = f + seq![40u8, 65, 41];
    let n = f.len() as int;
    let t = call_toks(n);
    assert(p_primary(t, b, 2) == Some(3int));
    assert(p_unary(t, b, 2) == Some(3int));
    lemma_levels(t, b, 2, 3, 0);
    assert(p_ternary(t, b, 2) == Some(3int));
    assert(p_args(t, b, 2) == Some(4int));
    assert(word(b, t[0]) =~= f);
    assert(p_primary(t, b, 0) == Some(4int));
    assert(p_unary(t, b, 0) == Some(4int));
    lemma_levels(t, b, 0, 4, 0);
}

/// Law: a math function (SIN, COS, TAN, ASIN, ACOS, ATAN, ABS, EXP, LN, LG, SQRT, TRUNC,
/// FLOOR, CEIL, ROUND, SGN or NEG) applied to a declared variable `A` is a formula that
/// follows the grammar and names only declared variables, which a node map accepts.
pub proof fn lemma_math_call_accepted(f: Seq<u8>, expr: Seq<char>, vars: Seq<(String, String)>)
    requires
        math_function_name(f),
        formula_bytes(expr) == f + seq![40u8, 65, 41],
        declared(vars, seq!['A']),
    ensures
        formula_ok(expr, vars),
{
    let b = f + seq![40u8, 65, 41];
    let n = f.len() as int;
    let t = call_toks(n);
    lemma_math_name_shape(f);
    lemma_call_lexes(f);
    lemma_call_parses(f);
    assert(word(b, t[0]) =~= f);
    assert(word(b, t[2]) =~= seq![65u8]);
    assert(ascii_chars(seq![65u8]) =~= seq!['A']);
    assert(!unknown_at(t, b, vars, 0));
    assert(!unknown_at(t, b, vars, 2));
    assert(first_unknown(t, b, vars, 4) == 4);
    assert(first_unknown(t, b, vars, 3) == 4);
    assert(first_unknown(t, b, vars, 2) == 4);
    assert(first_unknown(t, b, vars, 1) == 4);
    assert(first_unknown(t, b, vars, 0) == 4);
}

} // verus!
