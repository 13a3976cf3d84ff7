//! Builders that collect addressing and bitfield elements while a node is read.
use vstd::prelude::*;
use vstd::arithmetic::power2::pow2;
use vstd::string::StringSliceAdditionalSpecFns;
use crate::text::{ascii_chars, dec_digits, decimal_string};
use crate::xml_model::{Addressing, BitField, ByteOrder, XmlError};

verus! {

// ---------------------------------------------------------------------------
// Addressing
// ---------------------------------------------------------------------------

/// Builder for collecting address-related elements during parsing.
#[derive(Debug)]
pub struct AddressingBuilder {
    pub fixed_address: Option<u64>,
    pub length: Option<u32>,
    pub selector: Option<String>,
    pub entries: Vec<AddressEntry>,
    pub pending_value: Option<String>,
    pub pending_len: Option<u32>,
    pub p_address_node: Option<String>,
}

/// A single selector-to-address mapping entry.
#[derive(Debug, Clone)]
pub struct AddressEntry {
    pub value: String,
    pub address: u64,
    pub len: Option<u32>,
}

impl Default for AddressingBuilder {
    fn default() -> (b: AddressingBuilder)
        ensures
            b.fixed_address is None,
            b.length is None,
            b.selector is None,
            b.entries@.len() == 0,
            b.pending_value is None,
            b.pending_len is None,
            b.p_address_node is None,
            b.view() == av_empty(),
    {
        let b = AddressingBuilder {
            fixed_address: None,
            length: None,
            selector: None,
            entries: Vec::new(),
            pending_value: None,
            pending_len: None,
            p_address_node: None,
        };
        assert(b.view().entries =~= av_empty().entries);
        b
    }
}

// ---------------------------------------------------------------------------
// Views
// ---------------------------------------------------------------------------

/// What an addressing builder holds, with texts as character sequences.
pub struct AddrView {
    pub fixed_address: Option<u64>,
    pub length: Option<u32>,
    pub selector: Option<Seq<char>>,
    pub entries: Seq<(Seq<char>, u64, Option<u32>)>,
    pub pending_value: Option<Seq<char>>,
    pub pending_len: Option<u32>,
    pub p_address_node: Option<Seq<char>>,
}

/// The text of an optional string.
pub open spec fn opt_view(o: Option<String>) -> Option<Seq<char>> {
    match o {
        Some(s) => Some(s@),
        None => None,
    }
}

impl AddressingBuilder {
    /// The builder's contents.
    pub open spec fn view(&self) -> AddrView {
        AddrView {
            fixed_address: self.fixed_address,
            length: self.length,
            selector: opt_view(self.selector),
            entries: self.entries@.map_values(|e: AddressEntry| (e.value@, e.address, e.len)),
            pending_value: opt_view(self.pending_value),
            pending_len: self.pending_len,
            p_address_node: opt_view(self.p_address_node),
        }
    }
}

/// The builder after `set_fixed_address`.
pub open spec fn av_set_fixed(v: AddrView, address: u64) -> AddrView {
    AddrView { fixed_address: Some(address), ..v }
}

/// The builder after `set_length`.
pub open spec fn av_set_length(v: AddrView, len: u32) -> AddrView {
    AddrView { length: Some(len), ..v }
}

/// The builder after `set_p_address_node`.
pub open spec fn av_set_p_address(v: AddrView, node: Seq<char>) -> AddrView {
    AddrView { p_address_node: Some(node), ..v }
}

/// The builder after `register_selector`: the first selector wins.
pub open spec fn av_register_selector(v: AddrView, selector: Seq<char>) -> AddrView {
    if v.selector is Some {
        v
    } else {
        AddrView { selector: Some(selector), ..v }
    }
}

/// The builder after `push_selected_value`.
pub open spec fn av_push_value(v: AddrView, value: Seq<char>) -> AddrView {
    AddrView { pending_value: Some(value), pending_len: None, ..v }
}

/// The builder after `apply_length`.
pub open spec fn av_apply_length(v: AddrView, len: u32) -> AddrView {
    if v.pending_value is Some {
        AddrView { pending_len: Some(len), ..v }
    } else {
        AddrView { length: Some(len), ..v }
    }
}

/// The builder after `attach_selected_address`.
pub open spec fn av_attach(v: AddrView, address: u64, len_override: Option<u32>) -> AddrView {
    match v.pending_value {
        Some(val) => AddrView {
            entries: v.entries.push((val, address, or_else(len_override, v.pending_len))),
            pending_value: None,
            pending_len: None,
            ..v
        },
        None => AddrView {
            fixed_address: Some(address),
            length: or_else(len_override, v.length),
            ..v
        },
    }
}

/// An empty builder.
pub open spec fn av_empty() -> AddrView {
    AddrView {
        fixed_address: None,
        length: None,
        selector: None,
        entries: Seq::empty(),
        pending_value: None,
        pending_len: None,
        p_address_node: None,
    }
}

/// `a.or(b)` for options.
pub open spec fn or_else<T>(a: Option<T>, b: Option<T>) -> Option<T> {
    if a is Some {
        a
    } else {
        b
    }
}

/// Selector table entries as `(value, (address, length))` text pairs.
pub open spec fn table_view(m: Seq<(String, (u64, u32))>) -> Seq<(Seq<char>, (u64, u32))> {
    m.map_values(|e: (String, (u64, u32))| (e.0@, e.1))
}

/// Index of the first entry with key `k`, or `m.len()`.
pub open spec fn key_index(m: Seq<(Seq<char>, (u64, u32))>, k: Seq<char>) -> int
    decreases m.len(),
{
    if m.len() == 0 {
        0
    } else if key_index(m.drop_last(), k) < m.len() - 1 {
        key_index(m.drop_last(), k)
    } else if m.last().0 == k {
        m.len() - 1
    } else {
        m.len() as int
    }
}

/// Replace the entry with key `k`, or append one.
pub open spec fn upsert(m: Seq<(Seq<char>, (u64, u32))>, k: Seq<char>, v: (u64, u32)) -> Seq<
    (Seq<char>, (u64, u32)),
> {
    if key_index(m, k) < m.len() {
        m.update(key_index(m, k), (k, v))
    } else {
        m.push((k, v))
    }
}

/// Selector table built from the entries in order, or the value of the first entry without a length.
pub open spec fn selector_table(
    es: Seq<AddressEntry>,
    length: Option<u32>,
    default_len: Option<u32>,
) -> Result<Seq<(Seq<char>, (u64, u32))>, Seq<char>>
    decreases es.len(),
{
    if es.len() == 0 {
        Ok(Seq::empty())
    } else {
        match selector_table(es.drop_last(), length, default_len) {
            Err(v) => Err(v),
            Ok(m) => {
                let e = es.last();
                match or_else(or_else(e.len, length), default_len) {
                    None => Err(e.value@),
                    Some(l) => Ok(upsert(m, e.value@, (e.address, l))),
                }
            },
        }
    }
}

proof fn lemma_key_index(m: Seq<(Seq<char>, (u64, u32))>, k: Seq<char>)
    ensures
        0 <= key_index(m, k) <= m.len(),
        key_index(m, k) < m.len() ==> m[key_index(m, k)].0 == k,
        forall|j: int| 0 <= j < key_index(m, k) ==> m[j].0 != k,
    decreases m.len(),
{
    if m.len() > 0 {
        lemma_key_index(m.drop_last(), k);
        assert forall|j: int| 0 <= j < key_index(m, k) implies m[j].0 != k by {
            if j < m.len() - 1 {
                assert(m[j] == m.drop_last()[j]);
            }
        }
    }
}

pub proof fn lemma_key_index_is(m: Seq<(Seq<char>, (u64, u32))>, k: Seq<char>, i: int)
    requires
        0 <= i <= m.len(),
        forall|j: int| 0 <= j < i ==> m[j].0 != k,
        i < m.len() ==> m[i].0 == k,
    ensures
        key_index(m, k) == i,
    decreases m.len(),
{
    lemma_key_index(m, k);
    if m.len() > 0 {
        if i < m.len() - 1 {
            lemma_key_index_is(m.drop_last(), k, i);
        } else {
            lemma_key_index_is(m.drop_last(), k, m.len() - 1);
        }
    }
}

fn upsert_exec(m: &mut Vec<(String, (u64, u32))>, k: String, v: (u64, u32))
    ensures
        table_view(final(m)@) == upsert(table_view(old(m)@), k@, v),
{
    let mut i: usize = 0;
    let ghost m0 = m@;
    let ghost mv = table_view(m0);
    while i < m.len()
        invariant
            i <= m@.len(),
            m@ == m0,
            m0 == old(m)@,
            mv == table_view(m@),
            forall|j: int| 0 <= j < i ==> mv[j].0 != k@,
        decreases m@.len() - i,
    {
        assert(mv[i as int].0 == m@[i as int].0@);
        if m[i].0 == k {
            proof {
                lemma_key_index_is(mv, k@, i as int);
            }
            m.set(i, (k, v));
            assert(table_view(m@) =~= upsert(mv, k@, v));
            return;
        }
        i = i + 1;
    }
    proof {
        lemma_key_index_is(mv, k@, i as int);
    }
    m.push((k, v));
    assert(table_view(m@) =~= upsert(mv, k@, v));
}

/// Message naming a node: `node <name><rest>`.
pub open spec fn node_msg(node: Seq<char>, rest: Seq<char>) -> Seq<char> {
    "node "@ + node + rest
}

fn node_error(node: &str, rest: &str) -> (e: XmlError)
    ensures
        e matches XmlError::Invalid(m) && m@ == node_msg(node@, rest@),
{
    let mut m = String::from_str("node ");
    m.append(node);
    m.append(rest);
    XmlError::Invalid(m)
}

/// The length an entry resolves to: its own, the builder's, or the default.
pub open spec fn entry_len(e: AddressEntry, length: Option<u32>, default_len: Option<u32>) -> Option<u32> {
    or_else(or_else(e.len, length), default_len)
}

/// Whether entry `k` is the first with its value.
pub open spec fn first_occurrence(es: Seq<AddressEntry>, k: int) -> bool {
    forall|j: int| 0 <= j < k ==> (#[trigger] es[j]).value@ != es[k].value@
}

/// Whether entry `k` is the last with its value.
pub open spec fn last_occurrence(es: Seq<AddressEntry>, k: int) -> bool {
    forall|j: int| k < j < es.len() ==> (#[trigger] es[j]).value@ != es[k].value@
}

/// Keys occur once in the table.
pub open spec fn distinct_keys(t: Seq<(Seq<char>, (u64, u32))>) -> bool {
    forall|i: int, j: int| 0 <= i < j < t.len() ==> (#[trigger] t[i]).0 != (#[trigger] t[j]).0
}

proof fn lemma_upsert_facts(t0: Seq<(Seq<char>, (u64, u32))>, v: Seq<char>, val: (u64, u32))
    requires
        distinct_keys(t0),
    ensures
        ({
            let t = upsert(t0, v, val);
            &&& distinct_keys(t)
            &&& t0.len() <= t.len() <= t0.len() + 1
            &&& forall|i: int| 0 <= i < t0.len() ==> (#[trigger] t[i]).0 == t0[i].0
            &&& forall|w: Seq<char>| key_index(t0, w) < t0.len() ==> #[trigger] key_index(t, w) == key_index(t0, w)
            &&& key_index(t, v) < t.len()
            &&& t[key_index(t, v)].1 == val
            &&& key_index(t0, v) >= t0.len() ==> key_index(t, v) == t0.len()
            &&& forall|i: int| 0 <= i < t0.len() && t0[i].0 != v ==> (#[trigger] t[i]).1 == t0[i].1
            &&& forall|i: int| 0 <= i < t.len() ==> (#[trigger] t[i]).0 == v || (i < t0.len() && t[i].0 == t0[i].0)
        }),
{
    let t = upsert(t0, v, val);
    lemma_key_index(t0, v);
    let ki = key_index(t0, v);
    assert forall|w: Seq<char>| key_index(t0, w) < t0.len() implies #[trigger] key_index(t, w) == key_index(t0, w) by {
        lemma_key_index(t0, w);
        lemma_key_index_is(t, w, key_index(t0, w));
    }
    if ki >= t0.len() {
        assert forall|j: int| 0 <= j < t0.len() implies t[j].0 != v by {}
        lemma_key_index_is(t, v, t0.len() as int);
    }
    assert forall|i: int, j: int| 0 <= i < j < t.len() implies (#[trigger] t[i]).0 != (#[trigger] t[j]).0 by {
        if j < t0.len() {
            assert(t0[i].0 != t0[j].0);
        }
    }
}

/// Law: the table `finalize` builds from the entries is refused exactly when an entry
/// resolves to no length.
pub proof fn lemma_selector_table_refused(es: Seq<AddressEntry>, length: Option<u32>, default_len: Option<u32>)
    ensures
        selector_table(es, length, default_len) is Err <==> exists|k: int|
            0 <= k < es.len() && (#[trigger] entry_len(es[k], length, default_len)) is None,
    decreases es.len(),
{
    if es.len() > 0 {
        let pre = es.drop_last();
        let n = es.len() - 1;
        lemma_selector_table_refused(pre, length, default_len);
        assert forall|k: int| 0 <= k < pre.len() implies pre[k] == es[k] by {}
        if selector_table(pre, length, default_len) is Err {
            let k0 = choose|k: int| 0 <= k < pre.len() && (#[trigger] entry_len(pre[k], length, default_len)) is None;
            assert(entry_len(es[k0], length, default_len) is None);
        } else if entry_len(es[n], length, default_len) is None {
        } else {
            assert forall|k: int| 0 <= k < es.len() implies (#[trigger] entry_len(es[k], length, default_len)) is Some by {
                if k < n {
                    assert(es[k] == pre[k]);
                }
            }
        }
    }
}

/// Law: the keys of the table `finalize` builds are distinct, and are the values of the
/// entries.
pub proof fn lemma_selector_table_keys(es: Seq<AddressEntry>, length: Option<u32>, default_len: Option<u32>)
    ensures
        selector_table(es, length, default_len) matches Ok(t) ==> {
            &&& distinct_keys(t)
            &&& forall|k: int| 0 <= k < es.len() ==> #[trigger] key_index(t, es[k].value@) < t.len()
            &&& forall|i: int| 0 <= i < t.len() ==> exists|k: int| 0 <= k < es.len() && (#[trigger] es[k]).value@ == (#[trigger] t[i]).0
        },
    decreases es.len(),
{
    if es.len() > 0 {
        let pre = es.drop_last();
        let e = es.last();
        let n = es.len() - 1;
        lemma_selector_table_keys(pre, length, default_len);
        assert forall|k: int| 0 <= k < pre.len() implies pre[k] == es[k] by {}
        if let Ok(t0) = selector_table(pre, length, default_len) {
            if entry_len(e, length, default_len) is Some {
                let l = entry_len(e, length, default_len)->Some_0;
                let v = e.value@;
                lemma_upsert_facts(t0, v, (e.address, l));
                let t = upsert(t0, v, (e.address, l));
                assert forall|k: int| 0 <= k < es.len() implies #[trigger] key_index(t, es[k].value@) < t.len() by {
                    if k < n {
                        assert(key_index(t0, pre[k].value@) < t0.len());
                    }
                }
                assert forall|i: int| 0 <= i < t.len() implies exists|k: int| 0 <= k < es.len() && (#[trigger] es[k]).value@ == (#[trigger] t[i]).0 by {
                    if t[i].0 == v {
                        assert(es[n].value@ == t[i].0);
                    } else {
                        let k = choose|k: int| 0 <= k < pre.len() && (#[trigger] pre[k]).value@ == t0[i].0;
                        assert(es[k] == pre[k]);
                    }
                }
            }
        }
    }
}

/// Law: in the table `finalize` builds, each key holds the address and length of the last
/// entry with that value.
#[verifier::spinoff_prover]
#[verifier::rlimit(100)]
pub proof fn lemma_selector_table_last_wins(es: Seq<AddressEntry>, length: Option<u32>, default_len: Option<u32>)
    ensures
        selector_table(es, length, default_len) matches Ok(t) ==> forall|k: int|
            0 <= k < es.len() && last_occurrence(es, k) ==> t[key_index(t, (#[trigger] es[k]).value@)].1 == (
                es[k].address,
                entry_len(es[k], length, default_len)->Some_0,
            ),
    decreases es.len(),
{
    if es.len() > 0 {
        let pre = es.drop_last();
        let e = es.last();
        let n = es.len() - 1;
        lemma_selector_table_last_wins(pre, length, default_len);
        lemma_selector_table_keys(pre, length, default_len);
        assert forall|k: int| 0 <= k < pre.len() implies pre[k] == es[k] by {}
        if let Ok(t0) = selector_table(pre, length, default_len) {
            if entry_len(e, length, default_len) is Some {
                let l = entry_len(e, length, default_len)->Some_0;
                let v = e.value@;
                lemma_upsert_facts(t0, v, (e.address, l));
                lemma_key_index(t0, v);
                let t = upsert(t0, v, (e.address, l));
                assert forall|k: int| 0 <= k < es.len() && last_occurrence(es, k) implies t[key_index(t, (#[trigger] es[k]).value@)].1 == (
                    es[k].address,
                    entry_len(es[k], length, default_len)->Some_0,
                ) by {
                    if k < n {
                        let w = pre[k].value@;
                        assert(es[n].value@ != w);
                        assert(last_occurrence(pre, k));
                        assert(key_index(t0, w) < t0.len());
                        lemma_key_index(t0, w);
                        assert(t0[key_index(t0, w)].0 == w);
                    }
                }
            }
        }
    }
}

/// Law: the keys of the table `finalize` builds come in the order in which their values
/// first occur among the entries.
pub proof fn lemma_selector_table_order(es: Seq<AddressEntry>, length: Option<u32>, default_len: Option<u32>)
    ensures
        selector_table(es, length, default_len) matches Ok(t) ==> forall|k1: int, k2: int|
            0 <= k1 < k2 < es.len() && first_occurrence(es, k1) && first_occurrence(es, k2) ==> key_index(
                t,
                (#[trigger] es[k1]).value@,
            ) < key_index(t, (#[trigger] es[k2]).value@),
    decreases es.len(),
{
    if es.len() > 0 {
        let pre = es.drop_last();
        let e = es.last();
        let n = es.len() - 1;
        lemma_selector_table_order(pre, length, default_len);
        lemma_selector_table_keys(pre, length, default_len);
        assert forall|k: int| 0 <= k < pre.len() implies pre[k] == es[k] by {}
        if let Ok(t0) = selector_table(pre, length, default_len) {
            if entry_len(e, length, default_len) is Some {
                let l = entry_len(e, length, default_len)->Some_0;
                let v = e.value@;
                lemma_upsert_facts(t0, v, (e.address, l));
                lemma_key_index(t0, v);
                let t = upsert(t0, v, (e.address, l));
                assert forall|k1: int, k2: int|
                    0 <= k1 < k2 < es.len() && first_occurrence(es, k1) && first_occurrence(es, k2) implies key_index(
                    t,
                    (#[trigger] es[k1]).value@,
                ) < key_index(t, (#[trigger] es[k2]).value@) by {
                    assert(key_index(t0, pre[k1].value@) < t0.len());
                    if k2 < n {
                        assert(first_occurrence(pre, k1));
                        assert(first_occurrence(pre, k2));
                        assert(key_index(t0, pre[k2].value@) < t0.len());
                    } else {
                        if key_index(t0, v) < t0.len() {
                            let i = key_index(t0, v);
                            let kk = choose|k: int| 0 <= k < pre.len() && (#[trigger] pre[k]).value@ == t0[i].0;
                            assert(es[kk].value@ == es[n].value@);
                        }
                    }
                }
            }
        }
    }
}

/// What `finalize` produces for a builder.
pub open spec fn spec_finalize(b: AddressingBuilder, node: Seq<char>, default_len: Option<u32>, r: Result<
    Addressing,
    XmlError,
>) -> bool {
    if b.entries@.len() > 0 {
        match b.selector {
            None => r matches Err(XmlError::Invalid(m)) && m@ == node_msg(
                node,
                " provides <Selected> addresses without <pSelected>"@,
            ),
            Some(sel) => match selector_table(b.entries@, b.length, default_len) {
                Err(v) => r matches Err(XmlError::Invalid(m)) && m@ == node_msg(
                    node,
                    " is missing <Length> for selector value "@ + v,
                ),
                Ok(t) => r matches Ok(Addressing::BySelector { selector, map }) && selector@ == sel@
                    && table_view(map@) == t,
            },
        }
    } else {
        match or_else(b.length, default_len) {
            None => r matches Err(XmlError::Invalid(m)) && m@ == node_msg(
                node,
                " is missing <Length>"@,
            ),
            Some(l) => match b.p_address_node {
                Some(p) => r matches Ok(Addressing::Indirect { p_address_node, len })
                    && p_address_node@ == p@ && len == l,
                None => match b.fixed_address {
                    None => r matches Err(XmlError::Invalid(m)) && m@ == node_msg(
                        node,
                        " is missing <Address>"@,
                    ),
                    Some(a) => r == Ok::<Addressing, XmlError>(
                        Addressing::Fixed { address: a, len: l },
                    ),
                },
            },
        }
    }
}

impl AddressingBuilder {
    /// Set a fixed register address.
    pub fn set_fixed_address(&mut self, address: u64)
        ensures
            *final(self) == (AddressingBuilder { fixed_address: Some(address), ..*old(self) }),
            final(self).view() == av_set_fixed(old(self).view(), address),
    {
        self.fixed_address = Some(address);
    }

    /// Set the register length in bytes.
    pub fn set_length(&mut self, len: u32)
        ensures
            *final(self) == (AddressingBuilder { length: Some(len), ..*old(self) }),
            final(self).view() == av_set_length(old(self).view(), len),
    {
        self.length = Some(len);
    }

    /// Set an indirect address provider node.
    pub fn set_p_address_node(&mut self, node: &str)
        ensures
            final(self).p_address_node matches Some(n) && n@ == node@,
            final(self).fixed_address == old(self).fixed_address,
            final(self).length == old(self).length,
            final(self).selector == old(self).selector,
            final(self).entries == old(self).entries,
            final(self).pending_value == old(self).pending_value,
            final(self).pending_len == old(self).pending_len,
            final(self).view() == av_set_p_address(old(self).view(), node@),
    {
        self.p_address_node = Some(String::from_str(node));
    }

    /// Register a selector node for address switching (the first one wins).
    pub fn register_selector(&mut self, selector: &str)
        ensures
            old(self).selector is Some ==> *final(self) == *old(self),
            old(self).selector is None ==> (final(self).selector matches Some(s) && s@ == selector@),
            final(self).fixed_address == old(self).fixed_address,
            final(self).length == old(self).length,
            final(self).entries == old(self).entries,
            final(self).pending_value == old(self).pending_value,
            final(self).pending_len == old(self).pending_len,
            final(self).p_address_node == old(self).p_address_node,
            final(self).view() == av_register_selector(old(self).view(), selector@),
    {
        if self.selector.is_none() {
            self.selector = Some(String::from_str(selector));
        }
    }

    /// Push a selector value for the next address attachment.
    pub fn push_selected_value(&mut self, value: String)
        ensures
            *final(self) == (AddressingBuilder {
                pending_value: Some(value),
                pending_len: None,
                ..*old(self)
            }),
            final(self).view() == av_push_value(old(self).view(), value@),
    {
        self.pending_value = Some(value);
        self.pending_len = None;
    }

    /// Apply a length value, either to the pending selector entry or globally.
    pub fn apply_length(&mut self, len: u32)
        ensures
            old(self).pending_value is Some ==> *final(self) == (AddressingBuilder {
                pending_len: Some(len),
                ..*old(self)
            }),
            old(self).pending_value is None ==> *final(self) == (AddressingBuilder {
                length: Some(len),
                ..*old(self)
            }),
            final(self).view() == av_apply_length(old(self).view(), len),
    {
        if self.pending_value.is_some() {
            self.pending_len = Some(len);
        } else {
            self.length = Some(len);
        }
    }

    /// Attach an address to the current pending selector value, or set the fixed address.
    pub fn attach_selected_address(&mut self, address: u64, len_override: Option<u32>)
        ensures
            match old(self).pending_value {
                Some(v) => *final(self) == (AddressingBuilder {
                    entries: final(self).entries,
                    pending_value: None,
                    pending_len: None,
                    ..*old(self)
                }) && final(self).entries@ == old(self).entries@.push(
                    AddressEntry { value: v, address, len: or_else(len_override, old(self).pending_len) },
                ),
                None => *final(self) == (AddressingBuilder {
                    fixed_address: Some(address),
                    length: or_else(len_override, old(self).length),
                    ..*old(self)
                }),
            },
            final(self).view() == av_attach(old(self).view(), address, len_override),
    {
        if let Some(value) = self.pending_value.take() {
            let pending = self.pending_len.take();
            let len = match len_override {
                Some(l) => Some(l),
                None => pending,
            };
            let ghost before = self.entries@;
            self.entries.push(AddressEntry { value, address, len });
            assert(self.entries@.map_values(|e: AddressEntry| (e.value@, e.address, e.len)) =~= before.map_values(
                |e: AddressEntry| (e.value@, e.address, e.len),
            ).push((self.entries@.last().value@, address, len)));
        } else {
            self.fixed_address = Some(address);
            if let Some(len) = len_override {
                self.length = Some(len);
            }
        }
    }

    /// Finalize the builder into an [`Addressing`] variant.
    pub fn finalize(self, node: &str, default_len: Option<u32>) -> (r: Result<Addressing, XmlError>)
        ensures
            spec_finalize(self, node@, default_len, r),
    {
        if self.entries.len() > 0 {
            let selector = match self.selector {
                Some(s) => s,
                None => {
                    return Err(
                        node_error(node, " provides <Selected> addresses without <pSelected>"),
                    );
                },
            };
            let mut map: Vec<(String, (u64, u32))> = Vec::new();
            let mut i: usize = 0;
            assert(self.entries@.subrange(0, 0) =~= Seq::<AddressEntry>::empty());
            assert(table_view(map@) =~= Seq::<(Seq<char>, (u64, u32))>::empty());
            while i < self.entries.len()
                invariant
                    i <= self.entries@.len(),
                    self.selector is Some,
                    selector_table(self.entries@.subrange(0, i as int), self.length, default_len)
                        == Ok::<Seq<(Seq<char>, (u64, u32))>, Seq<char>>(table_view(map@)),
                decreases self.entries@.len() - i,
            {
                let ghost pre = self.entries@.subrange(0, i as int);
                assert(self.entries@.subrange(0, i + 1).drop_last() =~= pre);
                let entry = &self.entries[i];
                assert(self.entries@.subrange(0, i + 1).last() == *entry);
                let len = match entry.len {
                    Some(l) => l,
                    None => match self.length {
                        Some(l) => l,
                        None => match default_len {
                            Some(l) => l,
                            None => {
                                proof {
                                    lemma_table_err_sticky(
                                        self.entries@,
                                        i + 1,
                                        self.length,
                                        default_len,
                                    );
                                    assert(self.entries@.subrange(0, self.entries@.len() as int)
                                        =~= self.entries@);
                                }
                                let mut m = String::from_str("node ");
                                m.append(node);
                                m.append(" is missing <Length> for selector value ");
                                m.append(entry.value.as_str());
                                assert(m@ =~= node_msg(
                                    node@,
                                    " is missing <Length> for selector value "@ + entry.value@,
                                ));
                                return Err(XmlError::Invalid(m));
                            },
                        },
                    },
                };
                upsert_exec(&mut map, entry.value.clone(), (entry.address, len));
                i = i + 1;
            }
            assert(self.entries@.subrange(0, self.entries@.len() as int) =~= self.entries@);
            Ok(Addressing::BySelector { selector, map })
        } else {
            let len = match self.length {
                Some(l) => l,
                None => match default_len {
                    Some(l) => l,
                    None => {
                        return Err(node_error(node, " is missing <Length>"));
                    },
                },
            };
            if let Some(p_address_node) = self.p_address_node {
                Ok(Addressing::Indirect { p_address_node, len })
            } else {
                match self.fixed_address {
                    Some(address) => Ok(Addressing::Fixed { address, len }),
                    None => Err(node_error(node, " is missing <Address>")),
                }
            }
        }
    }
}

proof fn lemma_table_err_sticky(
    es: Seq<AddressEntry>,
    i: int,
    length: Option<u32>,
    default_len: Option<u32>,
)
    requires
        0 <= i <= es.len(),
        selector_table(es.subrange(0, i), length, default_len) is Err,
    ensures
        selector_table(es.subrange(0, es.len() as int), length, default_len) == selector_table(
            es.subrange(0, i),
            length,
            default_len,
        ),
    decreases es.len() - i,
{
    if i < es.len() {
        assert(es.subrange(0, i + 1).drop_last() =~= es.subrange(0, i));
        lemma_table_err_sticky(es, i + 1, length, default_len);
    }
}

/// Register lengths named by an addressing variant.
pub open spec fn spec_addressing_lengths(a: Addressing) -> Seq<u32> {
    match a {
        Addressing::Fixed { len, .. } => seq![len],
        Addressing::Indirect { len, .. } => seq![len],
        Addressing::BySelector { map, .. } => map@.map_values(|e: (String, (u64, u32))| e.1.1),
    }
}

/// Extract lengths from an addressing variant.
pub fn addressing_lengths(addressing: &Addressing) -> (r: Vec<u32>)
    ensures
        r@ == spec_addressing_lengths(*addressing),
{
    match addressing {
        Addressing::Fixed { len, .. } => {
            let mut v: Vec<u32> = Vec::new();
            v.push(*len);
            assert(v@ =~= seq![*len]);
            v
        },
        Addressing::Indirect { len, .. } => {
            let mut v: Vec<u32> = Vec::new();
            v.push(*len);
            assert(v@ =~= seq![*len]);
            v
        },
        Addressing::BySelector { map, .. } => {
            let mut v: Vec<u32> = Vec::new();
            let mut i: usize = 0;
            while i < map.len()
                invariant
                    i <= map@.len(),
                    v@ =~= map@.subrange(0, i as int).map_values(|e: (String, (u64, u32))| e.1.1),
                decreases map@.len() - i,
            {
                v.push(map[i].1.1);
                i = i + 1;
                assert(v@ =~= map@.subrange(0, i as int).map_values(
                    |e: (String, (u64, u32))| e.1.1,
                ));
            }
            assert(map@.subrange(0, map@.len() as int) =~= map@);
            v
        },
    }
}

// ---------------------------------------------------------------------------
// Selector state
// ---------------------------------------------------------------------------

/// Tracks selector references while a node is read.
#[derive(Debug)]
pub struct SelectorState {
    /// Selector node names referencing this feature.
    pub selectors: Vec<String>,
    /// Selector gating rules in the form (selector name, allowed values).
    pub selected_if: Vec<(String, Vec<String>)>,
    /// Index into `selected_if` for the most recent `<pSelected>` element.
    pub last_selector: Option<usize>,
}

impl SelectorState {
    /// An empty state.
    pub fn new() -> (s: SelectorState)
        ensures
            s.selectors@.len() == 0,
            s.selected_if@.len() == 0,
            s.last_selector is None,
    {
        SelectorState { selectors: Vec::new(), selected_if: Vec::new(), last_selector: None }
    }

    /// Split into the selector list and the gating rules.
    pub fn into_parts(self) -> (r: (Vec<String>, Vec<(String, Vec<String>)>))
        ensures
            r.0 == self.selectors,
            r.1 == self.selected_if,
    {
        (self.selectors, self.selected_if)
    }
}

// ---------------------------------------------------------------------------
// Bitfields
// ---------------------------------------------------------------------------

/// Source of a bitfield specification.
#[derive(Debug, Clone, Copy, PartialEq, Eq, Structural)]
pub enum BitfieldSource {
    /// LSB/MSB pair defining the range.
    LsbMsb,
    /// Bit index and optional length.
    BitLength,
    /// Bitmask value.
    Mask,
}

/// Builder for collecting bitfield-related elements during parsing.
#[derive(Debug)]
pub struct BitfieldBuilder {
    pub lsb: Option<u32>,
    pub msb: Option<u32>,
    pub bit: Option<u32>,
    pub bit_length: Option<u32>,
    pub mask: Option<u64>,
    pub byte_order: Option<ByteOrder>,
    pub source: Option<BitfieldSource>,
}

impl Default for BitfieldBuilder {
    fn default() -> (b: BitfieldBuilder)
        ensures
            b == (BitfieldBuilder {
                lsb: None,
                msb: None,
                bit: None,
                bit_length: None,
                mask: None,
                byte_order: None,
                source: None,
            }),
    {
        BitfieldBuilder {
            lsb: None,
            msb: None,
            bit: None,
            bit_length: None,
            mask: None,
            byte_order: None,
            source: None,
        }
    }
}

/// Number of trailing zero bits of `v` (64 for zero).
pub open spec fn trailing_zeros(v: nat) -> nat
    decreases v,
{
    if v == 0 {
        64
    } else if v % 2 == 1 {
        0
    } else {
        1 + trailing_zeros(v / 2)
    }
}

/// Number of set bits of `v`.
pub open spec fn count_ones(v: nat) -> nat
    decreases v,
{
    if v == 0 {
        0
    } else {
        v % 2 + count_ones(v / 2)
    }
}

proof fn lemma_bits_bounds(v: nat, n: nat)
    requires
        v < pow2(n),
    ensures
        count_ones(v) <= n,
        v != 0 ==> trailing_zeros(v) < n,
    decreases n,
{
    if n == 0 {
        vstd::arithmetic::power2::lemma2_to64();
    } else {
        vstd::arithmetic::power2::lemma_pow2_unfold(n);
        assert(v / 2 < pow2((n - 1) as nat));
        lemma_bits_bounds(v / 2, (n - 1) as nat);
    }
}

fn trailing_zeros_u64(v: u64) -> (r: u32)
    requires
        v != 0,
    ensures
        r as nat == trailing_zeros(v as nat),
        r < 64,
{
    proof {
        vstd::arithmetic::power2::lemma2_to64();
        lemma_bits_bounds(v as nat, 64);
    }
    let mut x = v;
    let mut k: u32 = 0;
    while x % 2 == 0
        invariant
            x != 0,
            trailing_zeros(v as nat) == k + trailing_zeros(x as nat),
            trailing_zeros(v as nat) < 64,
        decreases x,
    {
        x = x / 2;
        k = k + 1;
    }
    k
}

fn count_ones_u64(v: u64) -> (r: u32)
    ensures
        r as nat == count_ones(v as nat),
        r <= 64,
{
    proof {
        vstd::arithmetic::power2::lemma2_to64();
        lemma_bits_bounds(v as nat, 64);
    }
    let mut x = v;
    let mut k: u32 = 0;
    while x != 0
        invariant
            count_ones(v as nat) == k + count_ones(x as nat),
            count_ones(v as nat) <= 64,
        decreases x,
    {
        k = k + (x % 2) as u32;
        x = x / 2;
    }
    k
}

/// Why bitfield metadata was rejected.
#[derive(Debug, Clone, Copy, PartialEq, Eq, Structural)]
pub enum BitfieldProblem {
    MissingLengths,
    ZeroLength,
    InconsistentLengths,
    LengthOverflow,
    MissingLsb,
    MissingMsb,
    BadRange(u32, u32),
    MissingBit,
    MissingMask,
    ZeroMask,
    EmptyField,
    TooLong(u32),
    OffsetTooLarge(u32),
    ExceedsRegister,
}

/// Index of the first length that is zero or differs from the first one, or `l.len()`.
pub open spec fn first_len_issue(l: Seq<u32>, i: int) -> int
    decreases l.len() - i,
{
    if i >= l.len() {
        l.len() as int
    } else if l[i] == 0 || l[i] != l[0] {
        i
    } else {
        first_len_issue(l, i + 1)
    }
}

/// Offset of the lowest bit and length of the field, before any range checks.
pub open spec fn raw_range(b: BitfieldBuilder, src: BitfieldSource) -> Result<(nat, nat), BitfieldProblem> {
    match src {
        BitfieldSource::LsbMsb => match (b.lsb, b.msb) {
            (None, _) => Err(BitfieldProblem::MissingLsb),
            (Some(_), None) => Err(BitfieldProblem::MissingMsb),
            (Some(lsb), Some(msb)) => {
                let lo = if lsb <= msb { lsb } else { msb };
                let hi = if lsb <= msb { msb } else { lsb };
                if hi - lo + 1 > u32::MAX {
                    Err(BitfieldProblem::BadRange(lsb, msb))
                } else {
                    Ok((lo as nat, (hi - lo + 1) as nat))
                }
            },
        },
        BitfieldSource::BitLength => match b.bit {
            None => Err(BitfieldProblem::MissingBit),
            Some(bit) => Ok((bit as nat, (if b.bit_length is Some { b.bit_length->Some_0 } else { 1 }) as nat)),
        },
        BitfieldSource::Mask => match b.mask {
            None => Err(BitfieldProblem::MissingMask),
            Some(m) => if m == 0 {
                Err(BitfieldProblem::ZeroMask)
            } else {
                Ok((trailing_zeros(m as nat), count_ones(m as nat)))
            },
        },
    }
}

/// What `finish` produces: no bitfield, the bitfield, or the problem found.
pub open spec fn spec_finish(b: BitfieldBuilder, lengths: Seq<u32>) -> Result<Option<BitField>, BitfieldProblem> {
    match b.source {
        None => Ok(None),
        Some(src) => {
            let order = if b.byte_order is Some { b.byte_order->Some_0 } else { ByteOrder::Little };
            if lengths.len() == 0 {
                Err(BitfieldProblem::MissingLengths)
            } else if first_len_issue(lengths, 0) < lengths.len() {
                if lengths[first_len_issue(lengths, 0)] == 0 {
                    Err(BitfieldProblem::ZeroLength)
                } else {
                    Err(BitfieldProblem::InconsistentLengths)
                }
            } else if lengths[0] * 8 > u32::MAX {
                Err(BitfieldProblem::LengthOverflow)
            } else {
                let total = lengths[0] * 8;
                match raw_range(b, src) {
                    Err(p) => Err(p),
                    Ok((off, len)) => if len == 0 {
                        Err(BitfieldProblem::EmptyField)
                    } else if len > 64 {
                        Err(BitfieldProblem::TooLong(len as u32))
                    } else if off > 65535 {
                        Err(BitfieldProblem::OffsetTooLarge(off as u32))
                    } else if off + len > total {
                        Err(BitfieldProblem::ExceedsRegister)
                    } else {
                        let offset: int = if order == ByteOrder::Little {
                            off as int
                        } else {
                            total - len - off
                        };
                        if offset > 65535 {
                            Err(BitfieldProblem::OffsetTooLarge(offset as u32))
                        } else {
                            Ok(
                                Some(
                                    BitField {
                                        bit_offset: offset as u16,
                                        bit_length: len as u16,
                                        byte_order: order,
                                    },
                                ),
                            )
                        }
                    },
                }
            }
        },
    }
}

/// Law: a bit field `finish` makes lies in the register: it is one to 64 bits long and ends
/// within the register's bits.
pub proof fn lemma_finish_bounds(b: BitfieldBuilder, lengths: Seq<u32>)
    ensures
        spec_finish(b, lengths) matches Ok(Some(bf)) ==> 1 <= bf.bit_length <= 64 && lengths.len() > 0
            && bf.bit_offset + bf.bit_length <= lengths[0] * 8,
{
}

/// Law: `<Lsb>` and `<Msb>` name the same field whichever of the two is the larger.
pub proof fn lemma_finish_lsb_msb_swap(b: BitfieldBuilder, lengths: Seq<u32>, x: u32, y: u32)
    requires
        b.source == Some(BitfieldSource::LsbMsb),
    ensures
        spec_finish(BitfieldBuilder { lsb: Some(x), msb: Some(y), ..b }, lengths) is Ok ==> spec_finish(
            BitfieldBuilder { lsb: Some(y), msb: Some(x), ..b },
            lengths,
        ) == spec_finish(BitfieldBuilder { lsb: Some(x), msb: Some(y), ..b }, lengths),
{
}

/// Law: the same bits counted from the other end of the register: with big-endian byte
/// order a field's offset is counted from the most significant bit, so the two offsets and
/// the length make up the whole register.
pub proof fn lemma_finish_byte_orders(b: BitfieldBuilder, lengths: Seq<u32>)
    ensures
        ({
            let little = spec_finish(BitfieldBuilder { byte_order: Some(ByteOrder::Little), ..b }, lengths);
            let big = spec_finish(BitfieldBuilder { byte_order: Some(ByteOrder::Big), ..b }, lengths);
            match (little, big) {
                (Ok(Some(x)), Ok(Some(y))) => x.bit_length == y.bit_length && x.bit_offset + y.bit_offset
                    + x.bit_length == lengths[0] * 8,
                _ => true,
            }
        }),
{
    let bl = BitfieldBuilder { byte_order: Some(ByteOrder::Little), ..b };
    let bb = BitfieldBuilder { byte_order: Some(ByteOrder::Big), ..b };
    if b.source is Some {
        let src = b.source->Some_0;
        assert(raw_range(bl, src) == raw_range(bb, src));
        if raw_range(bl, src) is Ok {
            let (off, len) = raw_range(bl, src)->Ok_0;
            assert(spec_finish(bl, lengths) matches Ok(Some(x)) ==> x.bit_offset == off && x.bit_length == len);
            assert(spec_finish(bb, lengths) matches Ok(Some(y)) ==> y.bit_offset == lengths[0] * 8 - len - off
                && y.bit_length == len);
        }
    }
}

/// Message of the `XmlError::Invalid` for a bitfield problem on node `node`.
pub open spec fn bitfield_msg(node: Seq<char>, p: BitfieldProblem) -> Seq<char> {
    "node "@ + node + match p {
        BitfieldProblem::MissingLengths => " is missing register length information"@,
        BitfieldProblem::ZeroLength => " declares zero-length register"@,
        BitfieldProblem::InconsistentLengths => " uses inconsistent register lengths"@,
        BitfieldProblem::LengthOverflow => " register length overflow"@,
        BitfieldProblem::MissingLsb => " is missing <Lsb>"@,
        BitfieldProblem::MissingMsb => " is missing <Msb>"@,
        BitfieldProblem::BadRange(lsb, msb) => " has invalid bit range <Lsb>="@ + ascii_chars(
            dec_digits(lsb as nat),
        ) + ", <Msb>="@ + ascii_chars(dec_digits(msb as nat)),
        BitfieldProblem::MissingBit => " is missing <Bit>"@,
        BitfieldProblem::MissingMask => " is missing <Mask> value"@,
        BitfieldProblem::ZeroMask => " mask must be non-zero"@,
        BitfieldProblem::EmptyField => " bitfield must have positive length"@,
        BitfieldProblem::TooLong(n) => " bitfield length "@ + ascii_chars(dec_digits(n as nat))
            + " exceeds 64 bits"@,
        BitfieldProblem::OffsetTooLarge(o) => " bit offset "@ + ascii_chars(dec_digits(o as nat))
            + " exceeds u16 range"@,
        BitfieldProblem::ExceedsRegister => " bitfield exceeds register width"@,
    }
}

fn bitfield_error(node: &str, p: BitfieldProblem) -> (e: XmlError)
    ensures
        e matches XmlError::Invalid(m) && m@ == bitfield_msg(node@, p),
{
    let mut m = String::from_str("node ");
    m.append(node);
    match p {
        BitfieldProblem::MissingLengths => m.append(" is missing register length information"),
        BitfieldProblem::ZeroLength => m.append(" declares zero-length register"),
        BitfieldProblem::InconsistentLengths => m.append(" uses inconsistent register lengths"),
        BitfieldProblem::LengthOverflow => m.append(" register length overflow"),
        BitfieldProblem::MissingLsb => m.append(" is missing <Lsb>"),
        BitfieldProblem::MissingMsb => m.append(" is missing <Msb>"),
        BitfieldProblem::BadRange(lsb, msb) => {
            m.append(" has invalid bit range <Lsb>=");
            let a = decimal_string(lsb as u64);
            m.append(a.as_str());
            m.append(", <Msb>=");
            let b = decimal_string(msb as u64);
            m.append(b.as_str());
        },
        BitfieldProblem::MissingBit => m.append(" is missing <Bit>"),
        BitfieldProblem::MissingMask => m.append(" is missing <Mask> value"),
        BitfieldProblem::ZeroMask => m.append(" mask must be non-zero"),
        BitfieldProblem::EmptyField => m.append(" bitfield must have positive length"),
        BitfieldProblem::TooLong(n) => {
            m.append(" bitfield length ");
            let a = decimal_string(n as u64);
            m.append(a.as_str());
            m.append(" exceeds 64 bits");
        },
        BitfieldProblem::OffsetTooLarge(o) => {
            m.append(" bit offset ");
            let a = decimal_string(o as u64);
            m.append(a.as_str());
            m.append(" exceeds u16 range");
        },
        BitfieldProblem::ExceedsRegister => m.append(" bitfield exceeds register width"),
    }
    XmlError::Invalid(m)
}

impl BitfieldBuilder {
    /// Record an LSB value (ignored once another kind of specification was seen).
    pub fn note_lsb(&mut self, value: u32)
        ensures
            (old(self).source is Some && old(self).source != Some(BitfieldSource::LsbMsb))
                ==> *final(self) == *old(self),
            !(old(self).source is Some && old(self).source != Some(BitfieldSource::LsbMsb))
                ==> *final(self) == (BitfieldBuilder {
                source: Some(BitfieldSource::LsbMsb),
                lsb: Some(value),
                ..*old(self)
            }),
    {
        if let Some(source) = self.source {
            if source != BitfieldSource::LsbMsb {
                return;
            }
        }
        self.source = Some(BitfieldSource::LsbMsb);
        self.lsb = Some(value);
    }

    /// Record an MSB value (ignored once another kind of specification was seen).
    pub fn note_msb(&mut self, value: u32)
        ensures
            (old(self).source is Some && old(self).source != Some(BitfieldSource::LsbMsb))
                ==> *final(self) == *old(self),
            !(old(self).source is Some && old(self).source != Some(BitfieldSource::LsbMsb))
                ==> *final(self) == (BitfieldBuilder {
                source: Some(BitfieldSource::LsbMsb),
                msb: Some(value),
                ..*old(self)
            }),
    {
        if let Some(source) = self.source {
            if source != BitfieldSource::LsbMsb {
                return;
            }
        }
        self.source = Some(BitfieldSource::LsbMsb);
        self.msb = Some(value);
    }

    /// Record a bit index (ignored once another kind of specification was seen).
    pub fn note_bit(&mut self, value: u32)
        ensures
            (old(self).source is Some && old(self).source != Some(BitfieldSource::BitLength))
                ==> *final(self) == *old(self),
            !(old(self).source is Some && old(self).source != Some(BitfieldSource::BitLength))
                ==> *final(self) == (BitfieldBuilder {
                source: Some(BitfieldSource::BitLength),
                bit: Some(value),
                ..*old(self)
            }),
    {
        if let Some(source) = self.source {
            if source != BitfieldSource::BitLength {
                return;
            }
        }
        self.source = Some(BitfieldSource::BitLength);
        self.bit = Some(value);
    }

    /// Record a bit length (ignored once another kind of specification was seen).
    pub fn note_bit_length(&mut self, value: u32)
        ensures
            (old(self).source is Some && old(self).source != Some(BitfieldSource::BitLength))
                ==> *final(self) == *old(self),
            !(old(self).source is Some && old(self).source != Some(BitfieldSource::BitLength))
                ==> *final(self) == (BitfieldBuilder {
                source: Some(BitfieldSource::BitLength),
                bit_length: Some(value),
                ..*old(self)
            }),
    {
        if let Some(source) = self.source {
            if source != BitfieldSource::BitLength {
                return;
            }
        }
        self.source = Some(BitfieldSource::BitLength);
        self.bit_length = Some(value);
    }

    /// Record a bitmask (only when no specification was seen yet).
    pub fn note_mask(&mut self, mask: u64)
        ensures
            old(self).source is Some ==> *final(self) == *old(self),
            old(self).source is None ==> *final(self) == (BitfieldBuilder {
                source: Some(BitfieldSource::Mask),
                mask: Some(mask),
                ..*old(self)
            }),
    {
        if self.source.is_some() {
            return;
        }
        self.source = Some(BitfieldSource::Mask);
        self.mask = Some(mask);
    }

    /// Record a byte order.
    pub fn note_byte_order(&mut self, order: ByteOrder)
        ensures
            *final(self) == (BitfieldBuilder { byte_order: Some(order), ..*old(self) }),
    {
        self.byte_order = Some(order);
    }

    /// Finalize the builder into a [`BitField`] if a specification was recorded.
    pub fn finish(self, node: &str, lengths: &[u32]) -> (r: Result<Option<BitField>, XmlError>)
        ensures
            match spec_finish(self, lengths@) {
                Ok(o) => r == Ok::<Option<BitField>, XmlError>(o),
                Err(p) => r matches Err(XmlError::Invalid(m)) && m@ == bitfield_msg(node@, p),
            },
    {
        let source = match self.source {
            Some(source) => source,
            None => return Ok(None),
        };
        let byte_order = match self.byte_order {
            Some(o) => o,
            None => ByteOrder::Little,
        };
        if lengths.len() == 0 {
            return Err(bitfield_error(node, BitfieldProblem::MissingLengths));
        }
        let mut i: usize = 0;
        while i < lengths.len()
            invariant
                self.source == Some(source),
                lengths@.len() > 0,
                i <= lengths@.len(),
                first_len_issue(lengths@, i as int) == first_len_issue(lengths@, 0),
            decreases lengths@.len() - i,
        {
            if lengths[i] == 0 {
                assert(first_len_issue(lengths@, i as int) == i as int);
                return Err(bitfield_error(node, BitfieldProblem::ZeroLength));
            }
            if lengths[i] != lengths[0] {
                assert(first_len_issue(lengths@, i as int) == i as int);
                return Err(bitfield_error(node, BitfieldProblem::InconsistentLengths));
            }
            i = i + 1;
        }
        let len_bytes = lengths[0];
        if len_bytes > u32::MAX / 8 {
            return Err(bitfield_error(node, BitfieldProblem::LengthOverflow));
        }
        let total_bits = len_bytes * 8;
        let (offset_lsb, bit_length): (u32, u32) = match source {
            BitfieldSource::LsbMsb => {
                let lsb = match self.lsb {
                    Some(v) => v,
                    None => return Err(bitfield_error(node, BitfieldProblem::MissingLsb)),
                };
                let msb = match self.msb {
                    Some(v) => v,
                    None => return Err(bitfield_error(node, BitfieldProblem::MissingMsb)),
                };
                let lower = if lsb <= msb {
                    lsb
                } else {
                    msb
                };
                let upper = if lsb <= msb {
                    msb
                } else {
                    lsb
                };
                if upper - lower == u32::MAX {
                    return Err(bitfield_error(node, BitfieldProblem::BadRange(lsb, msb)));
                }
                (lower, upper - lower + 1)
            },
            BitfieldSource::BitLength => {
                let bit = match self.bit {
                    Some(v) => v,
                    None => return Err(bitfield_error(node, BitfieldProblem::MissingBit)),
                };
                let length = match self.bit_length {
                    Some(l) => l,
                    None => 1,
                };
                (bit, length)
            },
            BitfieldSource::Mask => {
                let mask = match self.mask {
                    Some(m) => m,
                    None => return Err(bitfield_error(node, BitfieldProblem::MissingMask)),
                };
                if mask == 0 {
                    return Err(bitfield_error(node, BitfieldProblem::ZeroMask));
                }
                (trailing_zeros_u64(mask), count_ones_u64(mask))
            },
        };
        if bit_length == 0 {
            return Err(bitfield_error(node, BitfieldProblem::EmptyField));
        }
        if bit_length > 64 {
            return Err(bitfield_error(node, BitfieldProblem::TooLong(bit_length)));
        }
        if offset_lsb > 65535 {
            return Err(bitfield_error(node, BitfieldProblem::OffsetTooLarge(offset_lsb)));
        }
        if offset_lsb + bit_length > total_bits {
            return Err(bitfield_error(node, BitfieldProblem::ExceedsRegister));
        }
        let offset = match byte_order {
            ByteOrder::Little => offset_lsb,
            ByteOrder::Big => total_bits - bit_length - offset_lsb,
        };
        if offset > 65535 {
            return Err(bitfield_error(node, BitfieldProblem::OffsetTooLarge(offset)));
        }
        Ok(
            Some(
                BitField {
                    bit_offset: offset as u16,
                    bit_length: bit_length as u16,
                    byte_order,
                },
            ),
        )
    }
}

} // verus!
