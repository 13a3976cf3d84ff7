//! GenApi node metadata and the register-level conversions behind feature access.
use vstd::prelude::*;
use vstd::arithmetic::power2::pow2;
use vstd::string::StringSliceAdditionalSpecFns;
use crate::builders::node_msg;
use crate::text::{ascii_chars, dec_digits, decimal_string, signed_dec_digits, signed_decimal_string};
use crate::wire::{be_bytes, be_decode, be_encode, be_signed, be_value, bits64, fits_signed, pow256};
use crate::xml_model::{AccessMode, Addressing, BitField, EnumEntryDecl, SkOutput};
use crate::xml_nodes::ScaleNum;

verus! {

/// Error type produced by GenApi operations.
#[derive(Debug)]
pub enum GenApiError {
    /// The requested node does not exist in the nodemap.
    NodeNotFound(String),
    /// The node exists but has a different type.
    Type(String),
    /// The node access mode forbids the attempted operation.
    Access(String),
    /// The provided value violates the limits declared by the node.
    Range(String),
    /// The node is currently hidden by selector state.
    Unavailable(String),
    /// Underlying register IO failed.
    Io(String),
    /// Node metadata or conversion failed.
    Parse(String),
    /// Parsing a SwissKnife expression failed.
    ExprParse { name: String, msg: String },
    /// Evaluating a SwissKnife expression failed at runtime.
    ExprEval { name: String, msg: String },
    /// A SwissKnife expression referenced an unknown variable.
    UnknownVariable { name: String, var: String },
    /// Raw register value did not correspond to any enum entry.
    EnumValueUnknown { node: String, value: i64 },
    /// Attempted to select an enum entry that does not exist.
    EnumNoSuchEntry { node: String, entry: String },
    /// Indirect addressing resolved to an invalid register.
    BadIndirectAddress { name: String, addr: i64 },
    /// Bitfield metadata exceeded the backing register width.
    BitfieldOutOfRange { name: String, bit_offset: u16, bit_length: u16, len: usize },
    /// Provided value does not fit into the declared bitfield.
    ValueTooWide { name: String, value: i64, bit_length: u16 },
}

/// Register access abstraction backed by transports such as GVCP/GenCP.
///
/// What the device answers is its own affair: the two predicates below name, for each
/// transport, the answers it gave, so that a node map's contracts can say which register
/// was read or written and with which bytes. A transport that does not define them
/// counts every answer; verified code that is generic over the transport learns that
/// one held only from a call that returned it.
pub trait RegisterIo {
    /// Whether the device answered a read of `len` bytes at `addr` with `data`.
    closed spec fn read_gave(&self, addr: u64, len: usize, data: Seq<u8>) -> bool {
        true
    }

    /// Whether the device accepted `data` written at `addr`.
    closed spec fn took(&self, addr: u64, data: Seq<u8>) -> bool {
        true
    }

    /// Whether the device is known to accept `data` written at `addr`, so that the write
    /// succeeds. Nothing is known of a device unless its implementation says so.
    closed spec fn accepts(&self, addr: u64, data: Seq<u8>) -> bool {
        false
    }

    /// Read `len` bytes starting at `addr`.
    fn read(&self, addr: u64, len: usize) -> (r: Result<Vec<u8>, GenApiError>)
        ensures
            r matches Ok(d) ==> self.read_gave(addr, len, d@),
    ;

    /// Write `data` starting at `addr`.
    fn write(&self, addr: u64, data: &[u8]) -> (r: Result<(), GenApiError>)
        ensures
            r is Ok ==> self.took(addr, data@),
            self.accepts(addr, data@) ==> r is Ok,
    ;
}

// ---------------------------------------------------------------------------
// Node metadata
// ---------------------------------------------------------------------------

/// A value a node keeps between register reads, filled and cleared by its owner.
#[derive(Debug)]
pub struct Cache<T> {
    slot: Option<T>,
}

impl<T> Cache<T> {
    /// What the cache holds.
    pub closed spec fn content(&self) -> Option<T> {
        self.slot
    }

    /// A cache that holds nothing.
    pub fn empty() -> (c: Cache<T>)
        ensures
            c.content() is None,
    {
        Cache { slot: None }
    }

    /// What the cache holds.
    pub fn get(&self) -> (r: &Option<T>)
        ensures
            *r == self.content(),
    {
        &self.slot
    }

    /// Keep `value`, replacing what was held.
    pub fn store(&mut self, value: T)
        ensures
            final(self).content() == Some(value),
    {
        self.slot = Some(value);
    }

    /// Forget what was held.
    pub fn clear(&mut self)
        ensures
            final(self).content() is None,
    {
        self.slot = None;
    }
}

/// Integer feature metadata extracted from the XML description.
#[derive(Debug)]
pub struct IntegerNode {
    /// Unique feature name.
    pub name: String,
    /// Register addressing metadata (fixed, selector-based, or indirect).
    pub addressing: Addressing,
    /// Nominal register length in bytes.
    pub len: u32,
    /// Declared access rights.
    pub access: AccessMode,
    /// Minimum permitted user value.
    pub min: i64,
    /// Maximum permitted user value.
    pub max: i64,
    /// Optional increment step the value must respect.
    pub inc: Option<i64>,
    /// Optional engineering unit such as "us".
    pub unit: Option<String>,
    /// Optional bitfield metadata restricting active bits.
    pub bitfield: Option<BitField>,
    /// Selector nodes controlling the visibility of this node.
    pub selectors: Vec<String>,
    /// Selector gating rules in the form `(selector, allowed values)`.
    pub selected_if: Vec<(String, Vec<String>)>,
    /// Last value read.
    pub cache: Cache<i64>,
    /// Last raw register bytes read.
    pub raw_cache: Cache<Vec<u8>>,
}

impl IntegerNode {
    /// No value and no raw bytes are cached.
    pub open spec fn is_uncached(&self) -> bool {
        self.cache.content() is None && self.raw_cache.content() is None
    }

    /// Integer metadata with empty caches.
    pub fn new(
        name: String,
        addressing: Addressing,
        len: u32,
        access: AccessMode,
        min: i64,
        max: i64,
        inc: Option<i64>,
        unit: Option<String>,
        bitfield: Option<BitField>,
        selectors: Vec<String>,
        selected_if: Vec<(String, Vec<String>)>,
    ) -> (n: IntegerNode)
        ensures
            n.name == name,
            n.addressing == addressing,
            n.len == len,
            n.access == access,
            n.min == min,
            n.max == max,
            n.inc == inc,
            n.unit == unit,
            n.bitfield == bitfield,
            n.selectors == selectors,
            n.selected_if == selected_if,
            n.is_uncached(),
    {
        IntegerNode {
            name,
            addressing,
            len,
            access,
            min,
            max,
            inc,
            unit,
            bitfield,
            selectors,
            selected_if,
            cache: Cache::empty(),
            raw_cache: Cache::empty(),
        }
    }
}

/// Enumeration feature metadata and mapping tables.
#[derive(Debug)]
pub struct EnumNode {
    pub name: String,
    pub addressing: Addressing,
    pub access: AccessMode,
    pub entries: Vec<EnumEntryDecl>,
    pub default: Option<String>,
    pub selectors: Vec<String>,
    pub selected_if: Vec<(String, Vec<String>)>,
    pub providers: Vec<String>,
    /// Last entry name read.
    pub value_cache: Cache<String>,
    /// Entry tables resolved from the providers.
    pub mapping_cache: Cache<EnumMapping>,
}

/// Resolved value-to-name and name-to-value tables of an enumeration.
#[derive(Debug)]
pub struct EnumMapping {
    /// The resolved value of each entry, in entry order. A raw value names the first entry
    /// that resolved to it; an entry name stands for the value of the last entry so named.
    pub values: Vec<i64>,
}

impl EnumNode {
    /// Neither the value nor the entry mapping is cached.
    pub open spec fn is_uncached(&self) -> bool {
        self.value_cache.content() is None && self.mapping_cache.content() is None
    }

    /// Enumeration metadata with empty caches.
    pub fn new(
        name: String,
        addressing: Addressing,
        access: AccessMode,
        entries: Vec<EnumEntryDecl>,
        default: Option<String>,
        selectors: Vec<String>,
        selected_if: Vec<(String, Vec<String>)>,
        providers: Vec<String>,
    ) -> (n: EnumNode)
        ensures
            n.name == name,
            n.addressing == addressing,
            n.access == access,
            n.entries == entries,
            n.default == default,
            n.selectors == selectors,
            n.selected_if == selected_if,
            n.providers == providers,
            n.is_uncached(),
    {
        EnumNode {
            name,
            addressing,
            access,
            entries,
            default,
            selectors,
            selected_if,
            providers,
            value_cache: Cache::empty(),
            mapping_cache: Cache::empty(),
        }
    }

    /// Drop the cached value and entry mapping; the metadata stays as it was.
    pub fn invalidate(&mut self)
        ensures
            final(self).is_uncached(),
            final(self).name == old(self).name,
            final(self).addressing == old(self).addressing,
            final(self).access == old(self).access,
            final(self).entries == old(self).entries,
            final(self).default == old(self).default,
            final(self).selectors == old(self).selectors,
            final(self).selected_if == old(self).selected_if,
            final(self).providers == old(self).providers,
    {
        self.value_cache.clear();
        self.mapping_cache.clear();
    }
}

/// Boolean feature metadata.
#[derive(Debug)]
pub struct BooleanNode {
    pub name: String,
    pub addressing: Addressing,
    pub len: u32,
    pub access: AccessMode,
    pub bitfield: BitField,
    pub selectors: Vec<String>,
    pub selected_if: Vec<(String, Vec<String>)>,
    /// Last value read.
    pub cache: Cache<bool>,
    /// Last raw register bytes read.
    pub raw_cache: Cache<Vec<u8>>,
}

impl BooleanNode {
    /// No value and no raw bytes are cached.
    pub open spec fn is_uncached(&self) -> bool {
        self.cache.content() is None && self.raw_cache.content() is None
    }

    /// Boolean metadata with empty caches.
    pub fn new(
        name: String,
        addressing: Addressing,
        len: u32,
        access: AccessMode,
        bitfield: BitField,
        selectors: Vec<String>,
        selected_if: Vec<(String, Vec<String>)>,
    ) -> (n: BooleanNode)
        ensures
            n.name == name,
            n.addressing == addressing,
            n.len == len,
            n.access == access,
            n.bitfield == bitfield,
            n.selectors == selectors,
            n.selected_if == selected_if,
            n.is_uncached(),
    {
        BooleanNode {
            name,
            addressing,
            len,
            access,
            bitfield,
            selectors,
            selected_if,
            cache: Cache::empty(),
            raw_cache: Cache::empty(),
        }
    }
}

/// Floating point feature metadata; the bounds and offset are the numbers as written, and
/// the cache holds the raw register value last read or written.
#[derive(Debug)]
pub struct FloatNode {
    pub name: String,
    pub addressing: Addressing,
    pub access: AccessMode,
    pub min: String,
    pub max: String,
    pub unit: Option<String>,
    /// Rational scale `(numerator, denominator)` applied to the raw value.
    pub scale: Option<(ScaleNum, i64)>,
    /// Offset added after scaling.
    pub offset: Option<String>,
    pub selectors: Vec<String>,
    pub selected_if: Vec<(String, Vec<String>)>,
    pub cache: Cache<i64>,
}

/// SwissKnife node: an arithmetic expression over other nodes' values.
#[derive(Debug)]
pub struct SkNode {
    pub name: String,
    /// Output type as declared in the XML.
    pub output: SkOutput,
    /// The expression text.
    pub expr: String,
    /// Mapping of variable identifiers to provider node names.
    pub vars: Vec<(String, String)>,
}

/// Command feature metadata.
#[derive(Debug)]
pub struct CommandNode {
    pub name: String,
    pub address: u64,
    pub len: u32,
}

/// Category node describing child feature names.
#[derive(Debug)]
pub struct CategoryNode {
    pub name: String,
    pub children: Vec<String>,
}

// ---------------------------------------------------------------------------
// Dependency tracking
// ---------------------------------------------------------------------------

/// Names of the nodes that depend on each node, as `(node, dependents)` pairs.
pub open spec fn deps_view(d: Seq<(String, Vec<String>)>) -> Seq<(Seq<char>, Seq<Seq<char>>)> {
    d.map_values(|e: (String, Vec<String>)| (e.0@, e.1@.map_values(|s: String| s@)))
}

/// Index of the first entry for `k`, or `d.len()`.
pub open spec fn dep_index(d: Seq<(Seq<char>, Seq<Seq<char>>)>, k: Seq<char>) -> int
    decreases d.len(),
{
    if d.len() == 0 {
        0
    } else if dep_index(d.drop_last(), k) < d.len() - 1 {
        dep_index(d.drop_last(), k)
    } else if d.last().0 == k {
        d.len() - 1
    } else {
        d.len() as int
    }
}

/// The nodes recorded as depending on `k`.
pub open spec fn dependents_of(d: Seq<(Seq<char>, Seq<Seq<char>>)>, k: Seq<char>) -> Seq<Seq<char>> {
    if dep_index(d, k) < d.len() {
        d[dep_index(d, k)].1
    } else {
        Seq::empty()
    }
}

/// The node whose value decides the register a node with this addressing uses.
pub open spec fn addressing_source(a: Addressing) -> Option<Seq<char>> {
    match a {
        Addressing::Fixed { .. } => None,
        Addressing::BySelector { selector, .. } => Some(selector@),
        Addressing::Indirect { p_address_node, .. } => Some(p_address_node@),
    }
}

pub proof fn lemma_dep_index(d: Seq<(Seq<char>, Seq<Seq<char>>)>, k: Seq<char>)
    ensures
        0 <= dep_index(d, k) <= d.len(),
        dep_index(d, k) < d.len() ==> d[dep_index(d, k)].0 == k,
        forall|j: int| 0 <= j < dep_index(d, k) ==> d[j].0 != k,
    decreases d.len(),
{
    if d.len() > 0 {
        lemma_dep_index(d.drop_last(), k);
        assert forall|j: int| 0 <= j < dep_index(d, k) implies d[j].0 != k by {
            if j < d.len() - 1 {
                assert(d[j] == d.drop_last()[j]);
            }
        }
    }
}

pub proof fn lemma_dep_index_is(d: Seq<(Seq<char>, Seq<Seq<char>>)>, k: Seq<char>, i: int)
    requires
        0 <= i <= d.len(),
        forall|j: int| 0 <= j < i ==> d[j].0 != k,
        i < d.len() ==> d[i].0 == k,
    ensures
        dep_index(d, k) == i,
    decreases d.len(),
{
    lemma_dep_index(d, k);
    if d.len() > 0 {
        if i < d.len() - 1 {
            lemma_dep_index_is(d.drop_last(), k, i);
        } else {
            lemma_dep_index_is(d.drop_last(), k, d.len() - 1);
        }
    }
}

/// Record that `node` depends on `source`.
pub fn add_dependent(deps: &mut Vec<(String, Vec<String>)>, source: &String, node: &str)
    ensures
        forall|k: Seq<char>| #[trigger]
            dependents_of(deps_view(final(deps)@), k) == if k == source@ {
                dependents_of(deps_view(old(deps)@), k).push(node@)
            } else {
                dependents_of(deps_view(old(deps)@), k)
            },
{
    let ghost d0 = deps_view(deps@);
    let mut i: usize = 0;
    while i < deps.len()
        invariant
            i <= deps@.len(),
            deps@ == old(deps)@,
            d0 == deps_view(deps@),
            forall|j: int| 0 <= j < i ==> d0[j].0 != source@,
        decreases deps@.len() - i,
    {
        if deps[i].0 == *source {
            proof {
                lemma_dep_index_is(d0, source@, i as int);
            }
            let ghost before = deps@;
            let mut entry = deps.remove(i);
            let ghost old_names = entry.1@;
            let extra = String::from_str(node);
            entry.1.push(extra);
            assert(entry.1@.map_values(|s: String| s@) =~= old_names.map_values(|s: String| s@).push(
                node@,
            ));
            let ghost new_entry = entry;
            deps.insert(i, entry);
            assert(deps@ =~= before.update(i as int, new_entry));
            let ghost d1 = deps_view(deps@);
            assert(d1 =~= d0.update(i as int, (source@, d0[i as int].1.push(node@))));
            assert forall|k: Seq<char>| #[trigger]
                dependents_of(d1, k) == if k == source@ {
                    dependents_of(d0, k).push(node@)
                } else {
                    dependents_of(d0, k)
                } by {
                lemma_dep_index(d0, k);
                lemma_dep_index(d1, k);
                if k == source@ {
                    lemma_dep_index_is(d1, k, i as int);
                } else {
                    assert forall|j: int| 0 <= j < d1.len() implies (d1[j].0 == k <==> d0[j].0
                        == k) by {}
                    lemma_dep_index_is(d1, k, dep_index(d0, k));
                }
            }
            return;
        }
        i = i + 1;
    }
    proof {
        lemma_dep_index_is(d0, source@, i as int);
    }
    let mut names: Vec<String> = Vec::new();
    names.push(String::from_str(node));
    assert(names@.map_values(|s: String| s@) =~= seq![node@]);
    let key = source.clone();
    assert(key@ == source@);
    let ghost before = deps@;
    deps.push((key, names));
    assert(deps@ =~= before.push((key, names)));
    let ghost d1 = deps_view(deps@);
    assert(d1 =~= d0.push((source@, seq![node@])));
    assert forall|k: Seq<char>| #[trigger]
        dependents_of(d1, k) == if k == source@ {
            dependents_of(d0, k).push(node@)
        } else {
            dependents_of(d0, k)
        } by {
        lemma_dep_index(d0, k);
        if k == source@ {
            lemma_dep_index_is(d1, k, d0.len() as int);
            assert(dependents_of(d0, k) =~= Seq::<Seq<char>>::empty());
        } else {
            if dep_index(d0, k) < d0.len() {
                lemma_dep_index_is(d1, k, dep_index(d0, k));
            } else {
                lemma_dep_index_is(d1, k, d1.len() as int);
            }
        }
    }
}

/// Record that the node `node_name` must be refreshed when the node deciding its address changes.
pub fn register_addressing_dependency(
    dependents: &mut Vec<(String, Vec<String>)>,
    node_name: &str,
    addressing: &Addressing,
)
    ensures
        forall|k: Seq<char>| #[trigger]
            dependents_of(deps_view(final(dependents)@), k) == if addressing_source(*addressing)
                == Some(k) {
                dependents_of(deps_view(old(dependents)@), k).push(node_name@)
            } else {
                dependents_of(deps_view(old(dependents)@), k)
            },
{
    match addressing {
        Addressing::Fixed { .. } => {},
        Addressing::BySelector { selector, .. } => {
            add_dependent(dependents, selector, node_name);
        },
        Addressing::Indirect { p_address_node, .. } => {
            add_dependent(dependents, p_address_node, node_name);
        },
    }
}

// ---------------------------------------------------------------------------
// Access checks
// ---------------------------------------------------------------------------

/// Reading is refused for write-only nodes.
pub fn ensure_readable(access: &AccessMode, name: &str) -> (r: Result<(), GenApiError>)
    ensures
        *access == AccessMode::WO ==> (r matches Err(GenApiError::Access(n)) && n@ == name@),
        *access != AccessMode::WO ==> r is Ok,
{
    match access {
        AccessMode::WO => Err(GenApiError::Access(String::from_str(name))),
        _ => Ok(()),
    }
}

/// Writing is refused for read-only nodes.
pub fn ensure_writable(access: &AccessMode, name: &str) -> (r: Result<(), GenApiError>)
    ensures
        *access == AccessMode::RO ==> (r matches Err(GenApiError::Access(n)) && n@ == name@),
        *access != AccessMode::RO ==> r is Ok,
{
    match access {
        AccessMode::RO => Err(GenApiError::Access(String::from_str(name))),
        _ => Ok(()),
    }
}

// ---------------------------------------------------------------------------
// Register payloads
// ---------------------------------------------------------------------------

fn pow256_exec(n: usize) -> (p: u128)
    requires
        n <= 8,
    ensures
        p as nat == pow256(n as nat),
        p <= 0x1_0000_0000_0000_0000,
{
    proof {
        crate::wire::lemma_pow256_values();
    }
    let mut p: u128 = 1;
    let mut i: usize = 0;
    while i < n
        invariant
            i <= n <= 8,
            p as nat == pow256(i as nat),
        decreases n - i,
    {
        assert(pow256((i + 1) as nat) == 256 * pow256(i as nat));
        proof {
            crate::wire::lemma_pow256_values();
            crate::wire::lemma_pow256_mono(i as nat, 7);
        }
        p = p * 256;
        i = i + 1;
    }
    p
}

/// Message of the `Parse` error for an empty register payload.
pub open spec fn empty_payload_msg(name: Seq<char>) -> Seq<char> {
    node_msg(name, " returned empty payload"@)
}

/// Message of the `Parse` error for a payload wider than eight bytes.
pub open spec fn payload_width_msg(name: Seq<char>, len: nat) -> Seq<char> {
    node_msg(name, " uses unsupported width "@ + ascii_chars(dec_digits(len)))
}

/// Read a big-endian two's complement integer of one to eight bytes.
pub fn bytes_to_i64(name: &str, bytes: &[u8]) -> (r: Result<i64, GenApiError>)
    ensures
        bytes@.len() == 0 ==> (r matches Err(GenApiError::Parse(m)) && m@ == empty_payload_msg(
            name@,
        )),
        bytes@.len() > 8 ==> (r matches Err(GenApiError::Parse(m)) && m@ == payload_width_msg(
            name@,
            bytes@.len(),
        )),
        1 <= bytes@.len() <= 8 ==> r == Ok::<i64, GenApiError>(be_signed(bytes@) as i64),
        1 <= bytes@.len() <= 8 ==> i64::MIN <= be_signed(bytes@) <= i64::MAX,
{
    if bytes.len() == 0 {
        let mut m = String::from_str("node ");
        m.append(name);
        m.append(" returned empty payload");
        return Err(GenApiError::Parse(m));
    }
    if bytes.len() > 8 {
        let mut m = String::from_str("node ");
        m.append(name);
        m.append(" uses unsupported width ");
        let d = decimal_string(bytes.len() as u64);
        m.append(d.as_str());
        return Err(GenApiError::Parse(m));
    }
    let n = bytes.len();
    let v = be_decode(bytes, 0, n);
    assert(bytes@.subrange(0, n as int) =~= bytes@);
    let p = pow256_exec(n);
    proof {
        crate::wire::lemma_be_value_first(bytes@);
        crate::wire::lemma_be_value_bound(bytes@.drop_first());
        crate::wire::lemma_pow256_values();
        let q = pow256((n - 1) as nat);
        assert(pow256(n as nat) == 256 * q);
        assert(q <= 0x100_0000_0000_0000) by {
            crate::wire::lemma_pow256_mono((n - 1) as nat, 7);
        }
        if bytes@[0] >= 0x80 {
            assert(be_value(bytes@) >= 0x80 * q) by (nonlinear_arith)
                requires
                    be_value(bytes@) == bytes@[0] as nat * q + be_value(bytes@.drop_first()),
                    bytes@[0] >= 0x80,
            ;
        } else {
            assert(be_value(bytes@) < 0x80 * q) by (nonlinear_arith)
                requires
                    be_value(bytes@) == bytes@[0] as nat * q + be_value(bytes@.drop_first()),
                    bytes@[0] < 0x80,
                    be_value(bytes@.drop_first()) < q,
            ;
        }
        crate::wire::lemma_be_value_bound(bytes@);
    }
    if bytes[0] >= 0x80 {
        let r: i128 = v as i128 - p as i128;
        Ok(r as i64)
    } else {
        Ok(v as i64)
    }
}

/// Message of the `Parse` error for a register width outside one to eight bytes.
pub open spec fn unsupported_width_msg(name: Seq<char>, width: nat) -> Seq<char> {
    node_msg(name, " has unsupported width "@ + ascii_chars(dec_digits(width)))
}

/// Message of the `Range` error for a value that does not fit its register.
pub open spec fn no_fit_msg(name: Seq<char>, value: int, width: nat) -> Seq<char> {
    "value "@ + ascii_chars(signed_dec_digits(value)) + " does not fit "@ + ascii_chars(
        dec_digits(width),
    ) + " bytes for "@ + name
}

/// Encode `value` as a big-endian two's complement integer of `width` bytes.
pub fn i64_to_bytes(name: &str, value: i64, width: u32) -> (r: Result<Vec<u8>, GenApiError>)
    ensures
        (width == 0 || width > 8) ==> (r matches Err(GenApiError::Parse(m)) && m@
            == unsupported_width_msg(name@, width as nat)),
        (1 <= width <= 8 && fits_signed(value as int, width as nat)) ==> (r matches Ok(b) && b@
            == be_bytes(bits64(value as int), width as nat)),
        (1 <= width <= 8 && !fits_signed(value as int, width as nat)) ==> (r matches Err(
            GenApiError::Range(m),
        ) && m@ == no_fit_msg(name@, value as int, width as nat)),
{
    if width == 0 || width > 8 {
        let mut m = String::from_str("node ");
        m.append(name);
        m.append(" has unsupported width ");
        let d = decimal_string(width as u64);
        m.append(d.as_str());
        return Err(GenApiError::Parse(m));
    }
    let w = width as usize;
    let bits: u64 = value as u64;
    proof {
        crate::wire::lemma_pow256_values();
        assert(bits as int == value as int % 0x1_0000_0000_0000_0000int) by (bit_vector)
            requires
                bits == value as u64,
        ;
    }
    let data = be_encode(bits, w);
    proof {
        crate::wire::lemma_signed_roundtrip(value as int, w as nat);
        crate::wire::lemma_be_bytes_len(bits as nat, w as nat);
    }
    let back = bytes_to_i64(name, data.as_slice());
    match back {
        Ok(b) => {
            if b != value {
                let mut m = String::from_str("value ");
                let v = signed_decimal_string(value);
                m.append(v.as_str());
                m.append(" does not fit ");
                let d = decimal_string(width as u64);
                m.append(d.as_str());
                m.append(" bytes for ");
                m.append(name);
                return Err(GenApiError::Range(m));
            }
            Ok(data)
        },
        Err(e) => Err(e),
    }
}

// ---------------------------------------------------------------------------
// Bitfields
// ---------------------------------------------------------------------------

/// `2` to the power `n`.
pub fn pow2_exec(n: u16) -> (p: u128)
    requires
        n <= 127,
    ensures
        p as nat == pow2(n as nat),
{
    let mut p: u128 = 1;
    let mut i: u16 = 0;
    proof {
        vstd::arithmetic::power2::lemma2_to64();
    }
    while i < n
        invariant
            i <= n <= 127,
            p as nat == pow2(i as nat),
        decreases n - i,
    {
        proof {
            vstd::arithmetic::power2::lemma_pow2_unfold((i + 1) as nat);
            vstd::arithmetic::power2::lemma_pow2_strictly_increases(i as nat, 127);
            vstd::arithmetic::power2::lemma_pow2_adds(120, 7);
            vstd::arithmetic::power2::lemma2_to64();
            assert(pow2(120) == pow2(60) * pow2(60)) by {
                vstd::arithmetic::power2::lemma_pow2_adds(60, 60);
            }
            assert(pow2(60) == 0x1000_0000_0000_0000) by {
                vstd::arithmetic::power2::lemma_pow2_adds(32, 28);
            }
        }
        p = p * 2;
        i = i + 1;
    }
    p
}

/// All-ones mask covering the low `bit_length` bits.
pub fn mask_u128(bit_length: u16) -> (m: u128)
    requires
        bit_length <= 127,
    ensures
        m as int == pow2(bit_length as nat) - 1,
{
    if bit_length == 64 {
        proof {
            vstd::arithmetic::power2::lemma2_to64();
        }
        u64::MAX as u128
    } else {
        proof {
            vstd::arithmetic::power2::lemma_pow2_pos(bit_length as nat);
        }
        pow2_exec(bit_length) - 1
    }
}

/// Two's complement value of the low `bits` bits of `v`.
pub open spec fn signed_low_bits(v: nat, bits: nat) -> int {
    let low = v % pow2(bits);
    if bits >= 1 && low >= pow2((bits - 1) as nat) {
        low - pow2(bits)
    } else {
        low as int
    }
}

proof fn lemma_pow2_64_values()
    ensures
        pow2(64) == 0x1_0000_0000_0000_0000,
        pow2(63) == 0x8000_0000_0000_0000,
{
    vstd::arithmetic::power2::lemma2_to64();
    vstd::arithmetic::power2::lemma_pow2_unfold(64);
}

/// Sign-extend the low `bits` bits of `value` to a full `i64`.
pub fn sign_extend(value: u64, bits: u16) -> (r: i64)
    requires
        1 <= bits <= 64,
    ensures
        r as int == signed_low_bits(value as nat, bits as nat),
{
    let p = pow2_exec(bits);
    let h = pow2_exec(bits - 1);
    proof {
        lemma_pow2_64_values();
        vstd::arithmetic::power2::lemma_pow2_unfold(bits as nat);
        vstd::arithmetic::power2::lemma_pow2_pos((bits - 1) as nat);
        if bits < 64 {
            vstd::arithmetic::power2::lemma_pow2_strictly_increases(bits as nat, 64);
        }
    }
    let low: u128 = value as u128 % p;
    if low >= h {
        let r: i128 = low as i128 - p as i128;
        r as i64
    } else {
        low as i64
    }
}

/// Message of the `Parse` error for an unsigned bitfield value above `i64::MAX`.
pub open spec fn bitfield_range_msg(name: Seq<char>, raw: nat) -> Seq<char> {
    "bitfield value "@ + ascii_chars(dec_digits(raw)) + " exceeds i64 range for node "@ + name
}

/// The integer a raw bitfield value stands for: sign-extended, or as it is.
pub fn interpret_bitfield_value(name: &str, raw: u64, bit_length: u16, signed: bool) -> (r: Result<
    i64,
    GenApiError,
>)
    requires
        signed ==> 1 <= bit_length <= 64,
    ensures
        signed ==> r == Ok::<i64, GenApiError>(
            signed_low_bits(raw as nat, bit_length as nat) as i64,
        ),
        !signed && raw <= i64::MAX ==> r == Ok::<i64, GenApiError>(raw as i64),
        !signed && raw > i64::MAX ==> (r matches Err(GenApiError::Parse(m)) && m@
            == bitfield_range_msg(name@, raw as nat)),
{
    if signed {
        Ok(sign_extend(raw, bit_length))
    } else if raw <= i64::MAX as u64 {
        Ok(raw as i64)
    } else {
        let mut m = String::from_str("bitfield value ");
        let d = decimal_string(raw);
        m.append(d.as_str());
        m.append(" exceeds i64 range for node ");
        m.append(name);
        Err(GenApiError::Parse(m))
    }
}

/// Message of the `Parse` error for a bitfield width outside one to sixty-four bits.
pub open spec fn bitfield_width_msg(name: Seq<char>, bit_length: nat) -> Seq<char> {
    node_msg(name, " uses unsupported bitfield width "@ + ascii_chars(dec_digits(bit_length)))
}

/// Whether `value` can be stored in a bitfield of `bits` bits.
pub open spec fn fits_bitfield(value: int, bits: nat, signed: bool) -> bool {
    if signed {
        -pow2((bits - 1) as nat) <= value < pow2((bits - 1) as nat)
    } else {
        0 <= value < pow2(bits)
    }
}

/// Encode `value` into the raw bits of a field of `bit_length` bits (two's complement when signed).
pub fn encode_bitfield_value(name: &str, value: i64, bit_length: u16, signed: bool) -> (r: Result<
    u64,
    GenApiError,
>)
    ensures
        (bit_length == 0 || bit_length > 64) ==> (r matches Err(GenApiError::Parse(m)) && m@
            == bitfield_width_msg(name@, bit_length as nat)),
        (1 <= bit_length <= 64 && fits_bitfield(value as int, bit_length as nat, signed)) ==> r
            == Ok::<u64, GenApiError>((value as int % (pow2(bit_length as nat) as int)) as u64),
        (1 <= bit_length <= 64 && !fits_bitfield(value as int, bit_length as nat, signed)) ==> (r
            matches Err(GenApiError::ValueTooWide { name: n, value: v, bit_length: b }) && n@
            == name@ && v == value && b == bit_length),
{
    if bit_length == 0 || bit_length > 64 {
        let mut m = String::from_str("node ");
        m.append(name);
        m.append(" uses unsupported bitfield width ");
        let d = decimal_string(bit_length as u64);
        m.append(d.as_str());
        return Err(GenApiError::Parse(m));
    }
    let p = pow2_exec(bit_length);
    let h = pow2_exec(bit_length - 1);
    proof {
        lemma_pow2_64_values();
        vstd::arithmetic::power2::lemma_pow2_unfold(bit_length as nat);
        vstd::arithmetic::power2::lemma_pow2_pos((bit_length - 1) as nat);
        if bit_length < 64 {
            vstd::arithmetic::power2::lemma_pow2_strictly_increases(bit_length as nat, 64);
        }
    }
    let v = value as i128;
    if signed {
        if v < 0 - (h as i128) || v >= h as i128 {
            return Err(
                GenApiError::ValueTooWide { name: String::from_str(name), value, bit_length },
            );
        }
        if v < 0 {
            let r: i128 = v + p as i128;
            assert(r == value as int % (pow2(bit_length as nat) as int)) by {
                vstd::arithmetic::div_mod::lemma_fundamental_div_mod_converse(
                    value as int,
                    pow2(bit_length as nat) as int,
                    -1,
                    r as int,
                );
            }
            Ok(r as u64)
        } else {
            assert(v == value as int % (pow2(bit_length as nat) as int)) by {
                vstd::arithmetic::div_mod::lemma_small_mod(value as nat, pow2(bit_length as nat));
            }
            Ok(v as u64)
        }
    } else {
        if v < 0 || v >= p as i128 {
            return Err(
                GenApiError::ValueTooWide { name: String::from_str(name), value, bit_length },
            );
        }
        assert(v == value as int % (pow2(bit_length as nat) as int)) by {
            vstd::arithmetic::div_mod::lemma_small_mod(value as nat, pow2(bit_length as nat));
        }
        Ok(v as u64)
    }
}

/// Raw register bytes for a read-modify-write: the cached copy when it has the register's
/// length, otherwise whatever the transport reads.
pub fn get_raw_or_read<IO: RegisterIo>(
    cache: &Cache<Vec<u8>>,
    io: &IO,
    address: u64,
    len: u32,
) -> (r: Result<Vec<u8>, GenApiError>)
    ensures
        (cache.content() matches Some(b) && b@.len() == len) ==> (r matches Ok(v) && v@
            == cache.content()->Some_0@),
{
    if let Some(bytes) = cache.get() {
        if bytes.len() == len as usize {
            let copy = bytes.clone();
            assert(copy@ =~= bytes@);
            return Ok(copy);
        }
    }
    io.read(address, len as usize)
}

/// Failures of bit extraction and insertion on a register payload.
#[derive(Debug, Clone, Copy, PartialEq, Eq)]
pub enum BitOpsError {
    UnsupportedWidth { len: usize },
    UnsupportedLength { bit_length: u16 },
    OutOfRange { len: usize, bit_offset: u16, bit_length: u16 },
    ValueTooWide { bit_length: u16, value: u64 },
}

/// The node-level error for a failed bit operation on node `name`.
pub open spec fn spec_bitops_error(name: Seq<char>, err: BitOpsError, r: GenApiError) -> bool {
    &&& err matches BitOpsError::UnsupportedWidth { len } ==> (r matches GenApiError::Parse(m)
        && m@ == node_msg(
        name,
        " uses unsupported register width "@ + ascii_chars(dec_digits(len as nat)),
    ))
    &&& err matches BitOpsError::UnsupportedLength { bit_length } ==> (r matches GenApiError::Parse(
        m,
    ) && m@ == node_msg(
        name,
        " uses unsupported bitfield length "@ + ascii_chars(dec_digits(bit_length as nat)),
    ))
    &&& err matches BitOpsError::OutOfRange { len, bit_offset, bit_length } ==> (r matches GenApiError::BitfieldOutOfRange {
        name: n,
        bit_offset: o,
        bit_length: b,
        len: l,
    } && n@ == name && o == bit_offset && b == bit_length && l == len)
    &&& err matches BitOpsError::ValueTooWide { bit_length, value } ==> (r matches GenApiError::ValueTooWide {
        name: n,
        value: v,
        bit_length: b,
    } && n@ == name && b == bit_length && v == (if value <= i64::MAX {
        value as i64
    } else {
        i64::MAX
    }))
}

/// Map a bit operation failure to the node-level error.
pub fn map_bitops_error(name: &str, err: BitOpsError) -> (r: GenApiError)
    ensures
        spec_bitops_error(name@, err, r),
{
    match err {
        BitOpsError::UnsupportedWidth { len } => {
            let mut m = String::from_str("node ");
            m.append(name);
            m.append(" uses unsupported register width ");
            let d = decimal_string(len as u64);
            m.append(d.as_str());
            assert(m@ =~= node_msg(
                name@,
                " uses unsupported register width "@ + ascii_chars(dec_digits(len as nat)),
            ));
            GenApiError::Parse(m)
        },
        BitOpsError::UnsupportedLength { bit_length } => {
            let mut m = String::from_str("node ");
            m.append(name);
            m.append(" uses unsupported bitfield length ");
            let d = decimal_string(bit_length as u64);
            m.append(d.as_str());
            assert(m@ =~= node_msg(
                name@,
                " uses unsupported bitfield length "@ + ascii_chars(dec_digits(bit_length as nat)),
            ));
            GenApiError::Parse(m)
        },
        BitOpsError::OutOfRange { len, bit_offset, bit_length } => GenApiError::BitfieldOutOfRange {
            name: String::from_str(name),
            bit_offset,
            bit_length,
            len,
        },
        BitOpsError::ValueTooWide { bit_length, value } => {
            let v: i64 = if value <= i64::MAX as u64 {
                value as i64
            } else {
                i64::MAX
            };
            GenApiError::ValueTooWide { name: String::from_str(name), value: v, bit_length }
        },
    }
}

// ---------------------------------------------------------------------------
// Laws
// ---------------------------------------------------------------------------

/// A value that fits a bitfield reads back unchanged after encoding:
/// interpreting the encoded bits (sign-extended when signed) gives the value again.
pub proof fn lemma_bitfield_roundtrip(value: i64, bits: u16, signed: bool)
    requires
        1 <= bits <= 64,
        fits_bitfield(value as int, bits as nat, signed),
    ensures
        ({
            let raw = (value as int % (pow2(bits as nat) as int)) as nat;
            &&& raw < pow2(bits as nat)
            &&& signed ==> signed_low_bits(raw, bits as nat) == value
            &&& !signed ==> raw == value
        }),
{
    let p = pow2(bits as nat);
    let h = pow2((bits - 1) as nat);
    vstd::arithmetic::power2::lemma_pow2_unfold(bits as nat);
    vstd::arithmetic::power2::lemma_pow2_pos((bits - 1) as nat);
    let raw = value as int % p as int;
    vstd::arithmetic::div_mod::lemma_mod_bound(value as int, p as int);
    vstd::arithmetic::div_mod::lemma_mod_self_0(p as int);
    if value >= 0 {
        vstd::arithmetic::div_mod::lemma_small_mod(value as nat, p);
    } else {
        vstd::arithmetic::div_mod::lemma_fundamental_div_mod_converse(
            value as int,
            p as int,
            -1,
            value + p,
        );
    }
    vstd::arithmetic::div_mod::lemma_small_mod(raw as nat, p);
}

} // verus!
