//! Reading and replacing a bitfield inside a register payload. The payload is read as one
//! unsigned number in the field's byte order; a little-endian field's offset counts from the
//! least significant bit, a big-endian field's from the most significant one.
use vstd::prelude::*;
use vstd::arithmetic::power2::pow2;
use crate::genapi::{pow2_exec, BitOpsError};
use crate::wire::{be_bytes, be_decode, be_encode, be_value, le_bytes, le_decode, le_encode, le_value, pow256};
use crate::xml_model::{BitField, ByteOrder};

verus! {

/// The payload as one number in the given byte order.
pub open spec fn reg_value(raw: Seq<u8>, order: ByteOrder) -> nat {
    match order {
        ByteOrder::Little => le_value(raw),
        ByteOrder::Big => be_value(raw),
    }
}

/// The low `n` bytes of `v` in the given byte order.
pub open spec fn reg_bytes(v: nat, n: nat, order: ByteOrder) -> Seq<u8> {
    match order {
        ByteOrder::Little => le_bytes(v, n),
        ByteOrder::Big => be_bytes(v, n),
    }
}

/// Position of the field's least significant bit within a payload of `n` bytes.
pub open spec fn field_shift(n: nat, f: BitField) -> nat {
    match f.byte_order {
        ByteOrder::Little => f.bit_offset as nat,
        ByteOrder::Big => (8 * n - f.bit_offset - f.bit_length) as nat,
    }
}

/// Why a field cannot be used on a payload of `n` bytes, if it cannot: payloads hold one to
/// eight bytes, fields one to sixty-four bits, and the field must lie inside the payload.
pub open spec fn field_problem(n: nat, f: BitField) -> Option<BitOpsError> {
    if n == 0 || n > 8 {
        Some(BitOpsError::UnsupportedWidth { len: n as usize })
    } else if f.bit_length == 0 || f.bit_length > 64 {
        Some(BitOpsError::UnsupportedLength { bit_length: f.bit_length })
    } else if f.bit_offset + f.bit_length > 8 * n {
        Some(BitOpsError::OutOfRange { len: n as usize, bit_offset: f.bit_offset, bit_length: f.bit_length })
    } else {
        None
    }
}

/// The `len` bits of `v` starting at bit `shift`.
pub open spec fn field_of(v: nat, shift: nat, len: nat) -> nat {
    (v / pow2(shift)) % pow2(len)
}

/// `v` with its `len` bits starting at bit `shift` replaced by `x`.
pub open spec fn with_field(v: nat, shift: nat, len: nat, x: nat) -> nat {
    (v - field_of(v, shift, len) * pow2(shift) + x * pow2(shift)) as nat
}

proof fn lemma_pow2_le(a: nat, b: nat)
    requires
        a <= b,
    ensures
        pow2(a) <= pow2(b),
{
    if a < b {
        vstd::arithmetic::power2::lemma_pow2_strictly_increases(a, b);
    }
}

proof fn lemma_pow256_is_pow2(n: nat)
    ensures
        pow256(n) == pow2(8 * n),
    decreases n,
{
    if n > 0 {
        let m = (n - 1) as nat;
        lemma_pow256_is_pow2(m);
        vstd::arithmetic::power2::lemma_pow2_adds(8, 8 * m);
        vstd::arithmetic::power2::lemma2_to64();
        assert(8 + 8 * m == 8 * n);
        assert(pow256(n) == 256 * pow256(m));
        assert(pow2(8 * n) == pow2(8) * pow2(8 * m));
    } else {
        vstd::arithmetic::power2::lemma2_to64();
    }
}

/// The register value of a payload of at most eight bytes.
fn read_reg(raw: &[u8], order: ByteOrder) -> (v: u64)
    requires
        raw@.len() <= 8,
    ensures
        v as nat == reg_value(raw@, order),
{
    assert(raw@.subrange(0, raw@.len() as int) =~= raw@);
    match order {
        ByteOrder::Little => le_decode(raw, 0, raw.len()),
        ByteOrder::Big => be_decode(raw, 0, raw.len()),
    }
}

/// Check a field against a payload of `n` bytes.
fn check_field(n: usize, f: BitField) -> (r: Option<BitOpsError>)
    ensures
        r == field_problem(n as nat, f),
{
    if n == 0 || n > 8 {
        Some(BitOpsError::UnsupportedWidth { len: n })
    } else if f.bit_length == 0 || f.bit_length > 64 {
        Some(BitOpsError::UnsupportedLength { bit_length: f.bit_length })
    } else if f.bit_offset as usize + f.bit_length as usize > 8 * n {
        Some(BitOpsError::OutOfRange { len: n, bit_offset: f.bit_offset, bit_length: f.bit_length })
    } else {
        None
    }
}

/// Extract the bits of field `f` from a register payload.
pub fn extract(raw: &[u8], f: BitField) -> (r: Result<u64, BitOpsError>)
    ensures
        match field_problem(raw@.len(), f) {
            Some(e) => r == Err::<u64, BitOpsError>(e),
            None => r matches Ok(x) && x as nat == field_of(
                reg_value(raw@, f.byte_order),
                field_shift(raw@.len(), f),
                f.bit_length as nat,
            ),
        },
{
    let n = raw.len();
    match check_field(n, f) {
        Some(e) => return Err(e),
        None => {},
    }
    let v = read_reg(raw, f.byte_order);
    let shift: u16 = match f.byte_order {
        ByteOrder::Little => f.bit_offset,
        ByteOrder::Big => (8 * n as u16) - f.bit_offset - f.bit_length,
    };
    let p = pow2_exec(shift);
    let l = pow2_exec(f.bit_length);
    proof {
        vstd::arithmetic::power2::lemma_pow2_pos(shift as nat);
        vstd::arithmetic::power2::lemma_pow2_pos(f.bit_length as nat);
        lemma_pow2_le(f.bit_length as nat, 64);
        vstd::arithmetic::power2::lemma2_to64();
    }
    let x = ((v as u128) / p) % l;
    assert(x < l);
    Ok(x as u64)
}

proof fn lemma_with_field_bound(v: nat, s: nat, l: nat, x: nat, t: nat)
    requires
        s + l <= t,
        v < pow2(t),
        x < pow2(l),
    ensures
        with_field(v, s, l, x) < pow2(t),
        field_of(v, s, l) * pow2(s) <= v,
        with_field(v, s, l, x) == ((v / pow2(s)) / pow2(l) * pow2(l) + x) * pow2(s) + v % pow2(s),
{
    let p = pow2(s);
    let ll = pow2(l);
    let m = pow2((t - s - l) as nat);
    vstd::arithmetic::power2::lemma_pow2_pos(s);
    vstd::arithmetic::power2::lemma_pow2_pos(l);
    vstd::arithmetic::power2::lemma_pow2_pos((t - s - l) as nat);
    vstd::arithmetic::power2::lemma_pow2_adds(s, l);
    vstd::arithmetic::power2::lemma_pow2_adds(s + l, (t - s - l) as nat);
    assert(pow2(t) == p * ll * m) by {
        assert(s + l + (t - s - l) == t);
        vstd::arithmetic::mul::lemma_mul_is_associative(p as int, ll as int, m as int);
    }
    let q = v / p;
    let r = v % p;
    let f = q % ll;
    let h = q / ll;
    vstd::arithmetic::div_mod::lemma_fundamental_div_mod(v as int, p as int);
    vstd::arithmetic::div_mod::lemma_fundamental_div_mod(q as int, ll as int);
    vstd::arithmetic::div_mod::lemma_mod_bound(v as int, p as int);
    vstd::arithmetic::div_mod::lemma_mod_bound(q as int, ll as int);
    assert(v == q * p + r);
    assert(q == h * ll + f);
    assert(f * p <= v) by (nonlinear_arith)
        requires
            v == q * p + r,
            q == h * ll + f,
            h >= 0,
            r >= 0,
            ll >= 1,
            p >= 1,
    ;
    assert(q < ll * m) by (nonlinear_arith)
        requires
            v == q * p + r,
            v < p * ll * m,
            r >= 0,
            p >= 1,
    ;
    assert(h < m) by (nonlinear_arith)
        requires
            q == h * ll + f,
            q < ll * m,
            f >= 0,
            ll >= 1,
    ;
    assert((h * ll + x) * p + r < p * ll * m) by (nonlinear_arith)
        requires
            h < m,
            x < ll,
            r < p,
            h >= 0,
            x >= 0,
            p >= 1,
            ll >= 1,
    ;
    assert(v - f * p + x * p == (h * ll + x) * p + r) by (nonlinear_arith)
        requires
            v == q * p + r,
            q == h * ll + f,
    ;
}

/// Replace the bits of field `f` in a register payload by `value`; on error the payload is
/// left as it was.
pub fn insert(raw: &mut Vec<u8>, f: BitField, value: u64) -> (r: Result<(), BitOpsError>)
    ensures
        match field_problem(old(raw)@.len(), f) {
            Some(e) => r == Err::<(), BitOpsError>(e) && final(raw)@ == old(raw)@,
            None => if value as nat >= pow2(f.bit_length as nat) {
                r == Err::<(), BitOpsError>(BitOpsError::ValueTooWide { bit_length: f.bit_length, value })
                    && final(raw)@ == old(raw)@
            } else {
                r is Ok && final(raw)@ == reg_bytes(
                    with_field(
                        reg_value(old(raw)@, f.byte_order),
                        field_shift(old(raw)@.len(), f),
                        f.bit_length as nat,
                        value as nat,
                    ),
                    old(raw)@.len(),
                    f.byte_order,
                )
            },
        },
{
    let n = raw.len();
    match check_field(n, f) {
        Some(e) => return Err(e),
        None => {},
    }
    let l = pow2_exec(f.bit_length);
    if value as u128 >= l {
        return Err(BitOpsError::ValueTooWide { bit_length: f.bit_length, value });
    }
    let v = read_reg(raw.as_slice(), f.byte_order);
    let shift: u16 = match f.byte_order {
        ByteOrder::Little => f.bit_offset,
        ByteOrder::Big => (8 * n as u16) - f.bit_offset - f.bit_length,
    };
    let p = pow2_exec(shift);
    proof {
        vstd::arithmetic::power2::lemma_pow2_pos(shift as nat);
        vstd::arithmetic::power2::lemma_pow2_pos(f.bit_length as nat);
        vstd::arithmetic::power2::lemma2_to64();
        vstd::arithmetic::power2::lemma_pow2_adds(shift as nat, f.bit_length as nat);
        lemma_pow2_le((shift + f.bit_length) as nat, 64);
        lemma_pow256_is_pow2(n as nat);
        crate::wire::lemma_pow256_mono(n as nat, 8);
        crate::wire::lemma_pow256_values();
        if f.byte_order == ByteOrder::Little {
            crate::wire::lemma_le_value_bound(raw@);
        } else {
            crate::wire::lemma_be_value_bound(raw@);
        }
        lemma_with_field_bound(v as nat, shift as nat, f.bit_length as nat, value as nat, (8 * n) as nat);
        assert((value as nat) * pow2(shift as nat) < pow2((shift + f.bit_length) as nat)) by (nonlinear_arith)
            requires
                (value as nat) < pow2(f.bit_length as nat),
                pow2((shift + f.bit_length) as nat) == pow2(shift as nat) * pow2(f.bit_length as nat),
                pow2(shift as nat) >= 1,
        ;
    }
    let field = ((v as u128) / p) % l;
    let cleared = (v as u128) - field * p;
    let updated = cleared + (value as u128) * p;
    let w = updated as u64;
    let out = match f.byte_order {
        ByteOrder::Little => le_encode(w, n),
        ByteOrder::Big => be_encode(w, n),
    };
    *raw = out;
    Ok(())
}

/// A value written into a field reads back unchanged.
pub proof fn lemma_insert_then_extract(v: nat, s: nat, l: nat, x: nat)
    requires
        x < pow2(l),
    ensures
        field_of(with_field(v, s, l, x), s, l) == x,
{
    let p = pow2(s);
    let ll = pow2(l);
    vstd::arithmetic::power2::lemma_pow2_pos(s);
    vstd::arithmetic::power2::lemma_pow2_pos(l);
    let q = v / p;
    let r = v % p;
    let f = q % ll;
    let h = q / ll;
    vstd::arithmetic::div_mod::lemma_fundamental_div_mod(v as int, p as int);
    vstd::arithmetic::div_mod::lemma_fundamental_div_mod(q as int, ll as int);
    vstd::arithmetic::div_mod::lemma_mod_bound(v as int, p as int);
    vstd::arithmetic::div_mod::lemma_mod_bound(q as int, ll as int);
    assert(f * p <= v) by (nonlinear_arith)
        requires
            v == q * p + r,
            q == h * ll + f,
            h >= 0,
            r >= 0,
            ll >= 1,
            p >= 1,
    ;
    let w = with_field(v, s, l, x);
    assert(w == v - f * p + x * p);
    assert(w == (h * ll + x) * p + r) by (nonlinear_arith)
        requires
            v == q * p + r,
            q == h * ll + f,
            w == v - f * p + x * p,
            f * p <= v,
            r >= 0,
            h >= 0,
    {
    }
    vstd::arithmetic::div_mod::lemma_div_multiples_vanish_fancy((h * ll + x) as int, r as int, p as int);
    assert(w / p == h * ll + x);
    vstd::arithmetic::div_mod::lemma_mod_multiples_vanish(h as int, x as int, ll as int);
    vstd::arithmetic::div_mod::lemma_small_mod(x, ll);
}

proof fn lemma_le_value_of_bytes(v: nat, n: nat)
    ensures
        le_value(le_bytes(v, n)) == v % pow256(n),
    decreases n,
{
    crate::wire::lemma_pow256_pos(n);
    if n == 0 {
        assert(le_bytes(v, 0).len() == 0);
    } else {
        let m = (n - 1) as nat;
        let s = le_bytes(v, n);
        let t = le_bytes(v / 256, m);
        assert(s.drop_first() =~= t) by {
            assert forall|i: int| 0 <= i < m implies s.drop_first()[i] == t[i] by {
                assert(pow256((i + 1) as nat) == 256 * pow256(i as nat));
                crate::wire::lemma_pow256_pos(i as nat);
                vstd::arithmetic::div_mod::lemma_div_denominator(v as int, 256, pow256(i as nat) as int);
            }
        }
        lemma_le_value_of_bytes(v / 256, m);
        crate::wire::lemma_pow256_pos(m);
        assert(pow256(n) == 256 * pow256(m));
        assert(s[0] == (v / pow256(0)) % 256);
        crate::wire::lemma_pow256_values();
        vstd::arithmetic::div_mod::lemma_mod_breakdown(v as int, 256, pow256(m) as int);
    }
}

/// A register value below `256^n` survives writing it as `n` bytes and reading it back.
pub proof fn lemma_reg_roundtrip(v: nat, n: nat, order: ByteOrder)
    requires
        v < pow256(n),
    ensures
        reg_value(reg_bytes(v, n, order), order) == v,
        reg_bytes(v, n, order).len() == n,
{
    match order {
        ByteOrder::Little => {
            lemma_le_value_of_bytes(v, n);
            vstd::arithmetic::div_mod::lemma_small_mod(v, pow256(n));
        },
        ByteOrder::Big => {
            crate::wire::lemma_be_value_of_bytes(v, n);
            vstd::arithmetic::div_mod::lemma_small_mod(v, pow256(n));
        },
    }
}

/// The new payload of a successful `insert` has the old length, and the field reads back as
/// the value inserted while the payload still fits its bytes.
pub proof fn lemma_insert_reads_back(raw: Seq<u8>, f: BitField, value: nat)
    requires
        field_problem(raw.len(), f) is None,
        value < pow2(f.bit_length as nat),
    ensures
        ({
            let n = raw.len();
            let s = field_shift(n, f);
            let w = with_field(reg_value(raw, f.byte_order), s, f.bit_length as nat, value);
            let out = reg_bytes(w, n, f.byte_order);
            &&& out.len() == n
            &&& field_problem(out.len(), f) is None
            &&& field_of(reg_value(out, f.byte_order), s, f.bit_length as nat) == value
        }),
{
    let n = raw.len();
    let s = field_shift(n, f);
    let v = reg_value(raw, f.byte_order);
    lemma_pow256_is_pow2(n);
    if f.byte_order == ByteOrder::Little {
        crate::wire::lemma_le_value_bound(raw);
    } else {
        crate::wire::lemma_be_value_bound(raw);
    }
    lemma_with_field_bound(v, s, f.bit_length as nat, value, 8 * n);
    let w = with_field(v, s, f.bit_length as nat, value);
    lemma_reg_roundtrip(w, n, f.byte_order);
    lemma_insert_then_extract(v, s, f.bit_length as nat, value);
}

} // verus!
