//! Big-endian and little-endian integer encodings used on the wire.
use vstd::prelude::*;
use vstd::arithmetic::div_mod::*;
use vstd::arithmetic::mul::*;

verus! {

/// `256` raised to the power `n`.
pub open spec fn pow256(n: nat) -> nat
    decreases n,
{
    if n == 0 {
        1
    } else {
        256 * pow256((n - 1) as nat)
    }
}

/// Unsigned value of a byte sequence read most significant byte first.
pub open spec fn be_value(s: Seq<u8>) -> nat
    decreases s.len(),
{
    if s.len() == 0 {
        0
    } else {
        be_value(s.drop_last()) * 256 + s.last() as nat
    }
}

/// Unsigned value of a byte sequence read least significant byte first.
pub open spec fn le_value(s: Seq<u8>) -> nat
    decreases s.len(),
{
    if s.len() == 0 {
        0
    } else {
        s[0] as nat + 256 * le_value(s.drop_first())
    }
}

/// The low `n` bytes of `v`, most significant first.
pub open spec fn be_bytes(v: nat, n: nat) -> Seq<u8> {
    Seq::new(n, |i: int| ((v / pow256((n - 1 - i) as nat)) % 256) as u8)
}

/// The low `n` bytes of `v`, least significant first.
pub open spec fn le_bytes(v: nat, n: nat) -> Seq<u8> {
    Seq::new(n, |i: int| ((v / pow256(i as nat)) % 256) as u8)
}

/// Two's complement value of a big-endian byte sequence (sign taken from the first byte).
pub open spec fn be_signed(s: Seq<u8>) -> int {
    if s.len() > 0 && s[0] >= 0x80 {
        be_value(s) - pow256(s.len())
    } else {
        be_value(s) as int
    }
}

/// `v` reduced modulo `2^64` (the bits of an `i64` read as unsigned).
pub open spec fn bits64(v: int) -> nat {
    (v % (pow256(8) as int)) as nat
}

/// Whether `v` is representable as a signed integer of `n` bytes.
pub open spec fn fits_signed(v: int, n: nat) -> bool {
    n >= 1 && -(pow256(n) as int) / 2 <= v < (pow256(n) as int) / 2
}

pub proof fn lemma_pow256_values()
    ensures
        pow256(0) == 1,
        pow256(1) == 256,
        pow256(2) == 0x1_0000,
        pow256(3) == 0x100_0000,
        pow256(4) == 0x1_0000_0000,
        pow256(5) == 0x100_0000_0000,
        pow256(6) == 0x1_0000_0000_0000,
        pow256(7) == 0x100_0000_0000_0000,
        pow256(8) == 0x1_0000_0000_0000_0000,
{
    reveal_with_fuel(pow256, 9);
}

pub proof fn lemma_pow256_pos(n: nat)
    ensures
        pow256(n) >= 1,
    decreases n,
{
    if n > 0 {
        lemma_pow256_pos((n - 1) as nat);
    }
}

pub proof fn lemma_pow256_add(a: nat, b: nat)
    ensures
        pow256(a + b) == pow256(a) * pow256(b),
    decreases a,
{
    if a > 0 {
        let a1 = (a - 1) as nat;
        lemma_pow256_add(a1, b);
        assert((a + b - 1) as nat == a1 + b);
        assert(pow256(a + b) == 256 * pow256(a1 + b));
        assert(pow256(a) == 256 * pow256(a1));
        lemma_mul_is_associative(256, pow256(a1) as int, pow256(b) as int);
    } else {
        assert(pow256(0) == 1);
        assert(a + b == b);
        assert(1 * pow256(b) == pow256(b));
    }
}

pub proof fn lemma_be_value_push(s: Seq<u8>, b: u8)
    ensures
        be_value(s.push(b)) == be_value(s) * 256 + b as nat,
{
    assert(s.push(b).drop_last() =~= s);
}

pub proof fn lemma_be_value_bound(s: Seq<u8>)
    ensures
        be_value(s) < pow256(s.len()),
    decreases s.len(),
{
    if s.len() > 0 {
        lemma_be_value_bound(s.drop_last());
        let p = pow256((s.len() - 1) as nat);
        let v = be_value(s.drop_last());
        assert(v * 256 + s.last() < p * 256) by (nonlinear_arith)
            requires
                v < p,
                s.last() < 256,
        ;
    }
}

/// The first byte of a sequence carries the most significant part of its value.
pub proof fn lemma_be_value_first(s: Seq<u8>)
    requires
        s.len() > 0,
    ensures
        be_value(s) == s[0] as nat * pow256((s.len() - 1) as nat) + be_value(s.drop_first()),
    decreases s.len(),
{
    if s.len() == 1 {
        assert(s.drop_last().len() == 0);
        assert(s.drop_first().len() == 0);
        assert(be_value(s.drop_last()) == 0);
        assert(be_value(s.drop_first()) == 0);
        assert(pow256(0) == 1);
        assert(s.last() == s[0]);
        assert(s[0] as nat * 1 == s[0] as nat);
    } else {
        let t = s.drop_last();
        lemma_be_value_first(t);
        assert(t.drop_first() =~= s.drop_first().drop_last());
        assert(s.drop_first().last() == s.last());
        assert(t[0] == s[0]);
        let p = pow256((t.len() - 1) as nat);
        assert(pow256((s.len() - 1) as nat) == 256 * p);
        let a = s[0] as int;
        let r = be_value(t.drop_first()) as int;
        assert(be_value(t) == a * p + r);
        assert(be_value(s) == be_value(t) * 256 + s.last());
        assert(be_value(s.drop_first()) == r * 256 + s.last());
        assert((a * p + r) * 256 == a * (256 * p) + r * 256) by (nonlinear_arith);
        assert(be_value(s) == a * (256 * p) + be_value(s.drop_first()));
    }
}

pub proof fn lemma_be_bytes_len(v: nat, n: nat)
    ensures
        be_bytes(v, n).len() == n,
{
}

/// Encoding the low `n` bytes of `v` and reading them back yields `v mod 256^n`.
pub proof fn lemma_be_value_of_bytes(v: nat, n: nat)
    ensures
        be_value(be_bytes(v, n)) == v % pow256(n),
    decreases n,
{
    lemma_pow256_pos(n);
    if n == 0 {
        assert(v % 1 == 0) by (nonlinear_arith);
    } else {
        let m = (n - 1) as nat;
        let s = be_bytes(v, n);
        let t = be_bytes(v / 256, m);
        assert forall|i: int| 0 <= i < m implies s.drop_last()[i] == t[i] by {
            let p = pow256((m - 1 - i) as nat);
            lemma_pow256_pos((m - 1 - i) as nat);
            assert(pow256((n - 1 - i) as nat) == 256 * p);
            lemma_div_denominator(v as int, 256, p as int);
            lemma_mul_is_commutative(256, p as int);
        }
        assert(s.drop_last() =~= t);
        lemma_be_value_of_bytes(v / 256, m);
        assert(s.last() as nat == v % 256) by {
            assert(pow256(0) == 1);
            assert(v / 1 == v);
            assert(v % 256 < 256);
        }
        lemma_pow256_pos(m);
        let p = pow256(m);
        assert(pow256(n) == 256 * p);
        // v % (256 * p) == (v / 256 % p) * 256 + v % 256
        lemma_breakdown(v as int, 256, p as int);
        lemma_mul_is_commutative(256, p as int);
    }
}

/// A sequence is the encoding of its own value.
pub proof fn lemma_be_bytes_of_value(s: Seq<u8>)
    ensures
        be_bytes(be_value(s), s.len()) =~= s,
    decreases s.len(),
{
    if s.len() > 0 {
        let t = s.drop_last();
        lemma_be_bytes_of_value(t);
        let v = be_value(s);
        let vt = be_value(t);
        lemma_be_value_bound(t);
        assert(v / 256 == vt && v % 256 == s.last()) by {
            lemma_fundamental_div_mod_converse(v as int, 256, vt as int, s.last() as int);
        }
        lemma_be_bytes_prefix(v, s.len());
        assert(be_bytes(v, s.len())[s.len() - 1] == s.last()) by {
            assert(pow256(0) == 1);
            assert(v / 1 == v);
        }
        assert(be_bytes(v, s.len()) =~= be_bytes(v, s.len()).drop_last().push(
            be_bytes(v, s.len())[s.len() - 1],
        ));
        assert(s =~= t.push(s.last()));
    }
}

/// The first `n - 1` bytes of the `n`-byte encoding of `v` encode `v / 256`.
pub proof fn lemma_be_bytes_prefix(v: nat, n: nat)
    requires
        n >= 1,
    ensures
        be_bytes(v, n).drop_last() =~= be_bytes(v / 256, (n - 1) as nat),
{
    let m = (n - 1) as nat;
    assert forall|i: int| 0 <= i < m implies be_bytes(v, n)[i] == be_bytes(v / 256, m)[i] by {
        let p = pow256((m - 1 - i) as nat);
        lemma_pow256_pos((m - 1 - i) as nat);
        assert(pow256((n - 1 - i) as nat) == 256 * p);
        lemma_div_denominator(v as int, 256, p as int);
        lemma_mul_is_commutative(256, p as int);
    }
}

/// The two's complement reading of the `n`-byte encoding of `v` is `v` exactly when `v` fits.
pub proof fn lemma_signed_roundtrip(v: int, n: nat)
    requires
        1 <= n <= 8,
    ensures
        be_signed(be_bytes(bits64(v), n)) == v <==> fits_signed(v, n),
{
    let s = be_bytes(bits64(v), n);
    let big = pow256(8) as int;
    let p = pow256(n) as int;
    let q = pow256((n - 1) as nat) as int;
    lemma_pow256_pos(n);
    lemma_pow256_pos((n - 1) as nat);
    lemma_pow256_pos(8);
    assert(p == 256 * q);
    lemma_be_value_of_bytes(bits64(v), n);
    // 256^n divides 2^64
    lemma_pow256_add(n, (8 - n) as nat);
    lemma_pow256_pos((8 - n) as nat);
    let k = pow256((8 - n) as nat) as int;
    assert(big == p * k);
    lemma_mod_mod(v, p, k);
    let r = v % p;
    assert(be_value(s) == r);
    assert(0 <= r < p) by {
        lemma_mod_bound(v, p);
    }
    lemma_be_value_first(s);
    lemma_be_value_bound(s.drop_first());
    assert(s.len() == n);
    let first = s[0] as int;
    let rest = be_value(s.drop_first()) as int;
    assert(r == first * q + rest);
    assert(first >= 0x80 <==> r >= p / 2) by (nonlinear_arith)
        requires
            r == first * q + rest,
            0 <= rest < q,
            0 <= first < 256,
            p == 256 * q,
            q >= 1,
    ;
    lemma_fundamental_div_mod(v, p);
    let d = v / p;
    assert(v == p * d + r);
    if fits_signed(v, n) {
        if v >= 0 {
            assert(d == 0) by (nonlinear_arith)
                requires
                    v == p * d + r,
                    0 <= v < p / 2,
                    0 <= r < p,
                    p >= 1,
            ;
            assert(p * d == 0) by (nonlinear_arith)
                requires
                    d == 0,
            ;
            assert(r == v);
            assert(be_signed(s) == v);
        } else {
            assert(d == -1) by (nonlinear_arith)
                requires
                    v == p * d + r,
                    -p / 2 <= v < 0,
                    0 <= r < p,
                    p >= 1,
            ;
            assert(p * d == -p) by (nonlinear_arith)
                requires
                    d == -1,
            ;
            assert(r == v + p);
            assert(be_signed(s) == v);
        }
    } else {
        if r >= p / 2 {
            assert(be_signed(s) == r - p);
            assert(r - p != v) by (nonlinear_arith)
                requires
                    v == p * d + r,
                    !(-p / 2 <= v < p / 2),
                    p / 2 <= r < p,
                    p >= 2,
                    p % 2 == 0,
            ;
        } else {
            assert(be_signed(s) == r);
            assert(r != v);
        }
    }
}

/// The `n` low-order bytes of `v`, most significant first.
pub fn be_encode(v: u64, n: usize) -> (out: Vec<u8>)
    requires
        n <= 8,
    ensures
        out@ == be_bytes(v as nat, n as nat),
{
    let mut out: Vec<u8> = vec![0u8; n];
    let mut rem: u64 = v;
    let mut k: usize = 0;
    proof {
        assert(pow256(0) == 1);
    }
    while k < n
        invariant
            n <= 8,
            out@.len() == n,
            k <= n,
            rem as nat == v as nat / pow256(k as nat),
            forall|j: int| n - k <= j < n ==> out@[j] == be_bytes(v as nat, n as nat)[j],
        decreases n - k,
    {
        proof {
            lemma_pow256_pos(k as nat);
            assert(((n - 1 - (n - 1 - k)) as nat) == k as nat);
        }
        out.set(n - 1 - k, (rem % 256) as u8);
        proof {
            lemma_div_denominator(v as int, pow256(k as nat) as int, 256);
            lemma_mul_is_commutative(pow256(k as nat) as int, 256);
            assert(pow256((k + 1) as nat) == 256 * pow256(k as nat));
        }
        rem = rem / 256;
        k = k + 1;
    }
    assert(out@ =~= be_bytes(v as nat, n as nat));
    out
}

/// The `n` low-order bytes of `v`, least significant first.
pub fn le_encode(v: u64, n: usize) -> (out: Vec<u8>)
    requires
        n <= 8,
    ensures
        out@ == le_bytes(v as nat, n as nat),
{
    let mut out: Vec<u8> = Vec::new();
    let mut rem: u64 = v;
    let mut k: usize = 0;
    proof {
        assert(pow256(0) == 1);
    }
    while k < n
        invariant
            n <= 8,
            out@.len() == k,
            k <= n,
            rem as nat == v as nat / pow256(k as nat),
            forall|j: int| 0 <= j < k ==> out@[j] == le_bytes(v as nat, n as nat)[j],
        decreases n - k,
    {
        proof {
            lemma_pow256_pos(k as nat);
        }
        out.push((rem % 256) as u8);
        proof {
            lemma_div_denominator(v as int, pow256(k as nat) as int, 256);
            lemma_mul_is_commutative(pow256(k as nat) as int, 256);
            assert(pow256((k + 1) as nat) == 256 * pow256(k as nat));
        }
        rem = rem / 256;
        k = k + 1;
    }
    assert(out@ =~= le_bytes(v as nat, n as nat));
    out
}

/// Value of `s[from..to]` read most significant byte first.
pub fn be_decode(s: &[u8], from: usize, to: usize) -> (v: u64)
    requires
        from <= to <= s@.len(),
        to - from <= 8,
    ensures
        v as nat == be_value(s@.subrange(from as int, to as int)),
{
    let mut acc: u64 = 0;
    let mut i: usize = from;
    proof {
        assert(s@.subrange(from as int, from as int) =~= Seq::<u8>::empty());
    }
    while i < to
        invariant
            from <= i <= to <= s@.len(),
            to - from <= 8,
            acc as nat == be_value(s@.subrange(from as int, i as int)),
        decreases to - i,
    {
        proof {
            let t = s@.subrange(from as int, i as int);
            lemma_be_value_bound(t);
            lemma_pow256_values();
            assert(pow256(t.len()) <= pow256(7)) by {
                lemma_pow256_mono(t.len(), 7);
            }
            assert(s@.subrange(from as int, i + 1) =~= t.push(s@[i as int]));
            lemma_be_value_push(t, s@[i as int]);
        }
        acc = acc * 256 + s[i] as u64;
        i = i + 1;
    }
    acc
}

/// Value of `s[from..to]` read least significant byte first.
pub fn le_decode(s: &[u8], from: usize, to: usize) -> (v: u64)
    requires
        from <= to <= s@.len(),
        to - from <= 8,
    ensures
        v as nat == le_value(s@.subrange(from as int, to as int)),
{
    let mut acc: u64 = 0;
    let mut i: usize = to;
    proof {
        assert(s@.subrange(to as int, to as int) =~= Seq::<u8>::empty());
    }
    while i > from
        invariant
            from <= i <= to <= s@.len(),
            to - from <= 8,
            acc as nat == le_value(s@.subrange(i as int, to as int)),
        decreases i - from,
    {
        proof {
            let t = s@.subrange(i as int, to as int);
            lemma_le_value_bound(t);
            lemma_pow256_values();
            assert(pow256(t.len()) <= pow256(7)) by {
                lemma_pow256_mono(t.len(), 7);
            }
            assert(s@.subrange(i - 1, to as int).drop_first() =~= t);
        }
        acc = s[i - 1] as u64 + 256 * acc;
        i = i - 1;
    }
    acc
}

pub proof fn lemma_pow256_mono(a: nat, b: nat)
    requires
        a <= b,
    ensures
        pow256(a) <= pow256(b),
    decreases b,
{
    if a < b {
        lemma_pow256_mono(a, (b - 1) as nat);
        lemma_pow256_pos((b - 1) as nat);
    }
}

pub proof fn lemma_le_value_bound(s: Seq<u8>)
    ensures
        le_value(s) < pow256(s.len()),
    decreases s.len(),
{
    if s.len() > 0 {
        lemma_le_value_bound(s.drop_first());
        let p = pow256((s.len() - 1) as nat);
        let v = le_value(s.drop_first());
        assert(s[0] + 256 * v < 256 * p) by (nonlinear_arith)
            requires
                v < p,
                s[0] < 256,
        ;
    }
}

/// Append the `n` low-order bytes of `v`, most significant first.
pub fn put_be(buf: &mut Vec<u8>, v: u64, n: usize)
    requires
        n <= 8,
    ensures
        final(buf)@ == old(buf)@ + be_bytes(v as nat, n as nat),
{
    let bytes = be_encode(v, n);
    buf.extend_from_slice(bytes.as_slice());
    assert(buf@ =~= old(buf)@ + be_bytes(v as nat, n as nat));
}

/// Append the `n` low-order bytes of `v`, least significant first.
pub fn put_le(buf: &mut Vec<u8>, v: u64, n: usize)
    requires
        n <= 8,
    ensures
        final(buf)@ == old(buf)@ + le_bytes(v as nat, n as nat),
{
    let bytes = le_encode(v, n);
    buf.extend_from_slice(bytes.as_slice());
    assert(buf@ =~= old(buf)@ + le_bytes(v as nat, n as nat));
}

} // verus!
