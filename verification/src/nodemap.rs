//! The runtime node map: the nodes of an XML model by name, which nodes depend on which,
//! and typed feature access through register IO.
use vstd::prelude::*;
use vstd::arithmetic::power2::pow2;
use vstd::string::StringSliceAdditionalSpecFns;
use vstd::utf8::encode_utf8;
use crate::xml_nodes::texts;
use crate::genapi::{
    add_dependent, addressing_source, dependents_of, deps_view, register_addressing_dependency, BooleanNode, Cache, CategoryNode, CommandNode, EnumNode,
    FloatNode, GenApiError, IntegerNode, SkNode,
};
use crate::bitops::{extract, field_of, field_problem, field_shift, insert, reg_value};
use crate::genapi::{
    bytes_to_i64, encode_bitfield_value, ensure_readable, ensure_writable, get_raw_or_read, i64_to_bytes,
    fits_bitfield, interpret_bitfield_value, map_bitops_error, signed_low_bits, EnumMapping, RegisterIo,
};
use crate::text::{ascii_chars, signed_dec_digits, signed_decimal_string};
use crate::wire::{be_bytes, be_signed, bits64, fits_signed};
use crate::xml_model::{AccessMode, Addressing, BitField, EnumEntryDecl, EnumValueSrc};
use crate::builders::{key_index, table_view};
use crate::xml_nodes::NodeDecl;
use crate::xml_parse::XmlModel;
use crate::expr::{check_formula, formula_error, formula_ok};

verus! {

/// Node kinds of the node map.
#[derive(Debug)]
pub enum Node {
    /// Signed integer feature stored in a fixed-width register block.
    Integer(IntegerNode),
    /// Floating point feature with optional scale/offset conversion.
    Float(FloatNode),
    /// Enumeration feature mapping integers to symbolic names.
    Enum(EnumNode),
    /// Boolean feature represented as an integer register.
    Boolean(BooleanNode),
    /// Command feature triggering a device-side action when written.
    Command(CommandNode),
    /// Category organising related features.
    Category(CategoryNode),
    /// SwissKnife expression producing a computed value.
    SwissKnife(SkNode),
}

impl Node {
    /// The node's name.
    pub open spec fn name_of(&self) -> Seq<char> {
        match self {
            Node::Integer(n) => n.name@,
            Node::Float(n) => n.name@,
            Node::Enum(n) => n.name@,
            Node::Boolean(n) => n.name@,
            Node::Command(n) => n.name@,
            Node::Category(n) => n.name@,
            Node::SwissKnife(n) => n.name@,
        }
    }

    /// The node's name.
    pub fn name(&self) -> (s: &String)
        ensures
            s@ == self.name_of(),
    {
        match self {
            Node::Integer(n) => &n.name,
            Node::Float(n) => &n.name,
            Node::Enum(n) => &n.name,
            Node::Boolean(n) => &n.name,
            Node::Command(n) => &n.name,
            Node::Category(n) => &n.name,
            Node::SwissKnife(n) => &n.name,
        }
    }

    /// No value of the node is cached.
    pub open spec fn uncached(&self) -> bool {
        match self {
            Node::Integer(n) => n.is_uncached(),
            Node::Float(n) => n.cache.content() is None,
            Node::Enum(n) => n.is_uncached(),
            Node::Boolean(n) => n.is_uncached(),
            _ => true,
        }
    }
}

/// Two nodes that differ at most in what they cache.
pub open spec fn same_meta(a: Node, b: Node) -> bool {
    match (a, b) {
        (Node::Integer(x), Node::Integer(y)) => x.name == y.name && x.addressing == y.addressing
            && x.len == y.len && x.access == y.access && x.min == y.min && x.max == y.max && x.inc
            == y.inc && x.unit == y.unit && x.bitfield == y.bitfield && x.selectors == y.selectors
            && x.selected_if == y.selected_if,
        (Node::Float(x), Node::Float(y)) => x.name == y.name && x.addressing == y.addressing
            && x.access == y.access && x.min == y.min && x.max == y.max && x.unit == y.unit
            && x.scale == y.scale && x.offset == y.offset && x.selectors == y.selectors
            && x.selected_if == y.selected_if,
        (Node::Enum(x), Node::Enum(y)) => x.name == y.name && x.addressing == y.addressing
            && x.access == y.access && x.entries == y.entries && x.default == y.default
            && x.selectors == y.selectors && x.selected_if == y.selected_if && x.providers
            == y.providers,
        (Node::Boolean(x), Node::Boolean(y)) => x.name == y.name && x.addressing == y.addressing
            && x.len == y.len && x.access == y.access && x.bitfield == y.bitfield && x.selectors
            == y.selectors && x.selected_if == y.selected_if,
        (Node::Command(x), Node::Command(y)) => x == y,
        (Node::Category(x), Node::Category(y)) => x == y,
        (Node::SwissKnife(x), Node::SwissKnife(y)) => x == y,
        _ => false,
    }
}

/// The names of a list of nodes.
pub open spec fn node_names(nodes: Seq<Node>) -> Seq<Seq<char>> {
    nodes.map_values(|n: Node| n.name_of())
}

/// Index of the first node named `k`, or the number of nodes.
pub open spec fn name_index(names: Seq<Seq<char>>, k: Seq<char>) -> int
    decreases names.len(),
{
    if names.len() == 0 {
        0
    } else if name_index(names.drop_last(), k) < names.len() - 1 {
        name_index(names.drop_last(), k)
    } else if names.last() == k {
        names.len() - 1
    } else {
        names.len() as int
    }
}

proof fn lemma_name_index(names: Seq<Seq<char>>, k: Seq<char>)
    ensures
        0 <= name_index(names, k) <= names.len(),
        name_index(names, k) < names.len() ==> names[name_index(names, k)] == k,
        forall|j: int| 0 <= j < name_index(names, k) ==> names[j] != k,
    decreases names.len(),
{
    if names.len() > 0 {
        lemma_name_index(names.drop_last(), k);
        assert forall|j: int| 0 <= j < name_index(names, k) implies names[j] != k by {
            if j < names.len() - 1 {
                assert(names[j] == names.drop_last()[j]);
            }
        }
    }
}

proof fn lemma_name_index_is(names: Seq<Seq<char>>, k: Seq<char>, i: int)
    requires
        0 <= i <= names.len(),
        forall|j: int| 0 <= j < i ==> names[j] != k,
        i < names.len() ==> names[i] == k,
    ensures
        name_index(names, k) == i,
    decreases names.len(),
{
    lemma_name_index(names, k);
    if names.len() > 0 {
        if i < names.len() - 1 {
            lemma_name_index_is(names.drop_last(), k, i);
        } else {
            lemma_name_index_is(names.drop_last(), k, names.len() - 1);
        }
    }
}

/// Runtime node map built from an [`XmlModel`], reading and writing feature values via a
/// [`crate::genapi::RegisterIo`] transport.
#[derive(Debug)]
pub struct NodeMap {
    pub version: String,
    /// The nodes, each name at most once.
    pub nodes: Vec<Node>,
    /// For each node name, the nodes whose cached values depend on it.
    pub dependents: Vec<(String, Vec<String>)>,
    /// Bumped on every write.
    pub generation: u64,
}

/// The index of the node named `k` in `m`, if there is one.
pub open spec fn lookup(nodes: Seq<Node>, k: Seq<char>) -> Option<int> {
    let i = name_index(node_names(nodes), k);
    if 0 <= i < nodes.len() {
        Some(i)
    } else {
        None
    }
}

impl NodeMap {
    /// No two nodes share a name.
    pub open spec fn wf(&self) -> bool {
        forall|i: int, j: int|
            0 <= i < j < self.nodes@.len() ==> #[trigger] self.nodes@[i].name_of() != #[trigger] self.nodes@[j].name_of()
    }

    /// The schema version string associated with the XML description.
    pub fn version(&self) -> (v: &str)
        ensures
            v@ == self.version@,
    {
        self.version.as_str()
    }

    /// Index of the node named `name`, if there is one.
    pub fn find(&self, name: &String) -> (r: Option<usize>)
        ensures
            match r {
                Some(i) => lookup(self.nodes@, name@) == Some(i as int),
                None => lookup(self.nodes@, name@) is None,
            },
    {
        let ghost ns = node_names(self.nodes@);
        let mut i: usize = 0;
        while i < self.nodes.len()
            invariant
                i <= self.nodes@.len(),
                ns == node_names(self.nodes@),
                forall|j: int| 0 <= j < i ==> ns[j] != name@,
            decreases self.nodes@.len() - i,
        {
            assert(ns[i as int] == self.nodes@[i as int].name_of());
            if *self.nodes[i].name() == *name {
                proof {
                    lemma_name_index_is(ns, name@, i as int);
                }
                return Some(i);
            }
            i = i + 1;
        }
        proof {
            lemma_name_index_is(ns, name@, i as int);
        }
        None
    }

    /// Fetch a node by name for inspection.
    pub fn node(&self, name: &str) -> (r: Option<&Node>)
        ensures
            match lookup(self.nodes@, name@) {
                Some(i) => r is Some && *r->Some_0 == self.nodes@[i],
                None => r is None,
            },
    {
        let key = String::from_str(name);
        match self.find(&key) {
            Some(i) => {
                Some(&self.nodes[i])
            },
            None => None,
        }
    }
}

/// `nodes` with `n` in place of the node of the same name, or `n` appended.
pub open spec fn put_node(nodes: Seq<Node>, n: Node) -> Seq<Node> {
    match lookup(nodes, n.name_of()) {
        Some(i) => nodes.update(i, n),
        None => nodes.push(n),
    }
}

/// Insert `n`, replacing the node of the same name.
fn insert_node(nodes: &mut Vec<Node>, n: Node)
    requires
        forall|i: int, j: int|
            0 <= i < j < old(nodes)@.len() ==> #[trigger] old(nodes)@[i].name_of() != #[trigger] old(nodes)@[j].name_of(),
    ensures
        final(nodes)@ == put_node(old(nodes)@, n),
        forall|i: int, j: int|
            0 <= i < j < final(nodes)@.len() ==> #[trigger] final(nodes)@[i].name_of() != #[trigger] final(nodes)@[j].name_of(),
{
    let ghost ns = node_names(nodes@);
    let ghost k = n.name_of();
    let mut i: usize = 0;
    while i < nodes.len()
        invariant
            i <= nodes@.len(),
            nodes@ == old(nodes)@,
            ns == node_names(nodes@),
            k == n.name_of(),
            forall|j: int| 0 <= j < i ==> ns[j] != k,
            forall|a: int, b: int|
                0 <= a < b < old(nodes)@.len() ==> #[trigger] old(nodes)@[a].name_of() != #[trigger] old(nodes)@[b].name_of(),
        decreases nodes@.len() - i,
    {
        assert(ns[i as int] == nodes@[i as int].name_of());
        let same = *nodes[i].name() == *n.name();
        if same {
            proof {
                lemma_name_index_is(ns, k, i as int);
            }
            let ghost before = nodes@;
            nodes.set(i, n);
            proof {
                assert forall|a: int| 0 <= a < nodes@.len() implies nodes@[a].name_of() == before[a].name_of() by {
                    if a == i as int {
                        assert(before[a].name_of() == ns[a]);
                    }
                }
                assert forall|a: int, b: int| 0 <= a < b < nodes@.len() implies #[trigger] nodes@[a].name_of() != #[trigger] nodes@[b].name_of() by {
                    assert(nodes@[a].name_of() == old(nodes)@[a].name_of());
                    assert(nodes@[b].name_of() == old(nodes)@[b].name_of());
                    assert(old(nodes)@[a].name_of() != old(nodes)@[b].name_of());
                }
            }
            return;
        }
        i = i + 1;
    }
    proof {
        lemma_name_index_is(ns, k, i as int);
    }
    nodes.push(n);
    proof {
        assert forall|a: int, b: int| 0 <= a < b < nodes@.len() implies #[trigger] nodes@[a].name_of() != #[trigger] nodes@[b].name_of() by {
            if b == nodes@.len() - 1 {
                assert(ns[a] == old(nodes)@[a].name_of());
            }
        }
    }
}

// ---------------------------------------------------------------------------
// Building the map from an XML model
// ---------------------------------------------------------------------------

/// `name`, once if `cond` holds.
pub open spec fn once_if(cond: bool, name: Seq<char>) -> Seq<Seq<char>> {
    if cond {
        seq![name]
    } else {
        Seq::empty()
    }
}

/// `name` once for each gating rule on the selector `k`.
pub open spec fn rule_deps(rules: Seq<(String, Vec<String>)>, k: Seq<char>, name: Seq<char>) -> Seq<Seq<char>>
    decreases rules.len(),
{
    if rules.len() == 0 {
        Seq::empty()
    } else {
        rule_deps(rules.drop_last(), k, name) + once_if(rules.last().0@ == k, name)
    }
}

/// `name` once for each entry whose value is provided by the node `k`.
pub open spec fn provider_deps(entries: Seq<EnumEntryDecl>, k: Seq<char>, name: Seq<char>) -> Seq<Seq<char>>
    decreases entries.len(),
{
    if entries.len() == 0 {
        Seq::empty()
    } else {
        provider_deps(entries.drop_last(), k, name) + once_if(
            entries.last().value matches EnumValueSrc::FromNode(p) && p@ == k,
            name,
        )
    }
}

/// `name` once for each variable provided by the node `k`.
pub open spec fn var_deps(vars: Seq<(String, String)>, k: Seq<char>, name: Seq<char>) -> Seq<Seq<char>>
    decreases vars.len(),
{
    if vars.len() == 0 {
        Seq::empty()
    } else {
        var_deps(vars.drop_last(), k, name) + once_if(vars.last().1@ == k, name)
    }
}

/// The nodes a declaration records as depending on `k`: a node depends on the node deciding
/// its address, on the selectors gating it, on the providers of its entries, and on the
/// providers of its variables.
pub open spec fn decl_deps(d: NodeDecl, k: Seq<char>) -> Seq<Seq<char>> {
    match d {
        NodeDecl::Integer { name, addressing, selected_if, .. } => once_if(
            addressing_source(addressing) == Some(k),
            name@,
        ) + rule_deps(selected_if@, k, name@),
        NodeDecl::Float { name, addressing, selected_if, .. } => once_if(
            addressing_source(addressing) == Some(k),
            name@,
        ) + rule_deps(selected_if@, k, name@),
        NodeDecl::Enum { name, addressing, selected_if, entries, .. } => once_if(
            addressing_source(addressing) == Some(k),
            name@,
        ) + rule_deps(selected_if@, k, name@) + provider_deps(entries@, k, name@),
        NodeDecl::Boolean { name, addressing, selected_if, .. } => once_if(
            addressing_source(addressing) == Some(k),
            name@,
        ) + rule_deps(selected_if@, k, name@),
        NodeDecl::Command { .. } => Seq::empty(),
        NodeDecl::Category { .. } => Seq::empty(),
        NodeDecl::SwissKnife(sk) => var_deps(sk.variables@, k, sk.name@),
    }
}

/// The nodes the declarations record, in order, as depending on `k`.
pub open spec fn deps_fold(decls: Seq<NodeDecl>, k: Seq<char>) -> Seq<Seq<char>>
    decreases decls.len(),
{
    if decls.len() == 0 {
        Seq::empty()
    } else {
        deps_fold(decls.drop_last(), k) + decl_deps(decls.last(), k)
    }
}

/// Record `name` as depending on the selector of each gating rule.
fn record_rules(deps: &mut Vec<(String, Vec<String>)>, rules: &Vec<(String, Vec<String>)>, name: &str)
    ensures
        forall|k: Seq<char>| #[trigger]
            dependents_of(deps_view(final(deps)@), k) == dependents_of(deps_view(old(deps)@), k) + rule_deps(
                rules@,
                k,
                name@,
            ),
{
    let mut i: usize = 0;
    while i < rules.len()
        invariant
            i <= rules@.len(),
            forall|k: Seq<char>| #[trigger]
                dependents_of(deps_view(deps@), k) == dependents_of(deps_view(old(deps)@), k) + rule_deps(
                    rules@.take(i as int),
                    k,
                    name@,
                ),
        decreases rules@.len() - i,
    {
        let ghost before = deps_view(deps@);
        add_dependent(deps, &rules[i].0, name);
        proof {
            assert(rules@.take(i + 1).drop_last() =~= rules@.take(i as int));
            assert forall|k: Seq<char>| #[trigger]
                dependents_of(deps_view(deps@), k) == dependents_of(deps_view(old(deps)@), k) + rule_deps(
                    rules@.take(i + 1),
                    k,
                    name@,
                ) by {
                if k == rules@[i as int].0@ {
                    assert(dependents_of(deps_view(old(deps)@), k) + rule_deps(rules@.take(i as int), k, name@) + seq![name@]
                        =~= dependents_of(deps_view(old(deps)@), k) + (rule_deps(rules@.take(i as int), k, name@) + seq![name@]));
                } else {
                    assert(rule_deps(rules@.take(i as int), k, name@) + Seq::<Seq<char>>::empty() =~= rule_deps(rules@.take(i as int), k, name@));
                }
            }
        }
        i = i + 1;
    }
    assert(rules@.take(rules@.len() as int) =~= rules@);
}

/// Record `name` as depending on the provider of each entry given by another node.
fn record_providers(deps: &mut Vec<(String, Vec<String>)>, entries: &Vec<EnumEntryDecl>, name: &str)
    ensures
        forall|k: Seq<char>| #[trigger]
            dependents_of(deps_view(final(deps)@), k) == dependents_of(deps_view(old(deps)@), k) + provider_deps(
                entries@,
                k,
                name@,
            ),
{
    let mut i: usize = 0;
    while i < entries.len()
        invariant
            i <= entries@.len(),
            forall|k: Seq<char>| #[trigger]
                dependents_of(deps_view(deps@), k) == dependents_of(deps_view(old(deps)@), k) + provider_deps(
                    entries@.take(i as int),
                    k,
                    name@,
                ),
        decreases entries@.len() - i,
    {
        proof {
            assert(entries@.take(i + 1).drop_last() =~= entries@.take(i as int));
        }
        match &entries[i].value {
            EnumValueSrc::FromNode(p) => {
                add_dependent(deps, p, name);
                proof {
                    assert forall|k: Seq<char>| #[trigger]
                        dependents_of(deps_view(deps@), k) == dependents_of(deps_view(old(deps)@), k) + provider_deps(
                            entries@.take(i + 1),
                            k,
                            name@,
                        ) by {
                        if k == p@ {
                            assert(dependents_of(deps_view(old(deps)@), k) + provider_deps(entries@.take(i as int), k, name@) + seq![name@]
                                =~= dependents_of(deps_view(old(deps)@), k) + (provider_deps(entries@.take(i as int), k, name@) + seq![name@]));
                        } else {
                            assert(provider_deps(entries@.take(i as int), k, name@) + Seq::<Seq<char>>::empty() =~= provider_deps(entries@.take(i as int), k, name@));
                        }
                    }
                }
            },
            EnumValueSrc::Literal(_) => {
                proof {
                    assert forall|k: Seq<char>| #[trigger]
                        dependents_of(deps_view(deps@), k) == dependents_of(deps_view(old(deps)@), k) + provider_deps(
                            entries@.take(i + 1),
                            k,
                            name@,
                        ) by {
                        assert(provider_deps(entries@.take(i as int), k, name@) + Seq::<Seq<char>>::empty() =~= provider_deps(entries@.take(i as int), k, name@));
                    }
                }
            },
        }
        i = i + 1;
    }
    assert(entries@.take(entries@.len() as int) =~= entries@);
}

/// Record `name` as depending on the provider of each variable.
fn record_vars(deps: &mut Vec<(String, Vec<String>)>, vars: &Vec<(String, String)>, name: &str)
    ensures
        forall|k: Seq<char>| #[trigger]
            dependents_of(deps_view(final(deps)@), k) == dependents_of(deps_view(old(deps)@), k) + var_deps(
                vars@,
                k,
                name@,
            ),
{
    let mut i: usize = 0;
    while i < vars.len()
        invariant
            i <= vars@.len(),
            forall|k: Seq<char>| #[trigger]
                dependents_of(deps_view(deps@), k) == dependents_of(deps_view(old(deps)@), k) + var_deps(
                    vars@.take(i as int),
                    k,
                    name@,
                ),
        decreases vars@.len() - i,
    {
        add_dependent(deps, &vars[i].1, name);
        proof {
            assert(vars@.take(i + 1).drop_last() =~= vars@.take(i as int));
            assert forall|k: Seq<char>| #[trigger]
                dependents_of(deps_view(deps@), k) == dependents_of(deps_view(old(deps)@), k) + var_deps(
                    vars@.take(i + 1),
                    k,
                    name@,
                ) by {
                if k == vars@[i as int].1@ {
                    assert(dependents_of(deps_view(old(deps)@), k) + var_deps(vars@.take(i as int), k, name@) + seq![name@]
                        =~= dependents_of(deps_view(old(deps)@), k) + (var_deps(vars@.take(i as int), k, name@) + seq![name@]));
                } else {
                    assert(var_deps(vars@.take(i as int), k, name@) + Seq::<Seq<char>>::empty() =~= var_deps(vars@.take(i as int), k, name@));
                }
            }
        }
        i = i + 1;
    }
    assert(vars@.take(vars@.len() as int) =~= vars@);
}

/// `a` sorts strictly before `b`, byte by byte (the order of `String`).
pub open spec fn lex_lt(a: Seq<u8>, b: Seq<u8>) -> bool
    decreases a.len(),
{
    if a.len() == 0 {
        b.len() > 0
    } else if b.len() == 0 {
        false
    } else if a[0] != b[0] {
        a[0] < b[0]
    } else {
        lex_lt(a.drop_first(), b.drop_first())
    }
}

proof fn lemma_lex_total(a: Seq<u8>, b: Seq<u8>)
    ensures
        lex_lt(a, b) || a == b || lex_lt(b, a),
        !(lex_lt(a, b) && lex_lt(b, a)),
        !lex_lt(a, a),
    decreases a.len(),
{
    if a.len() > 0 && b.len() > 0 {
        lemma_lex_total(a.drop_first(), b.drop_first());
        if a[0] == b[0] && a.drop_first() == b.drop_first() {
            assert(a =~= seq![a[0]] + a.drop_first());
            assert(b =~= seq![b[0]] + b.drop_first());
        }
    } else if a.len() > 0 {
        lemma_lex_total(a.drop_first(), a.drop_first());
    } else if b.len() > 0 {
    } else {
        assert(a =~= b);
    }
}

proof fn lemma_lex_trans(a: Seq<u8>, b: Seq<u8>, c: Seq<u8>)
    requires
        lex_lt(a, b),
        lex_lt(b, c),
    ensures
        lex_lt(a, c),
    decreases a.len(),
{
    if a.len() > 0 && b.len() > 0 && c.len() > 0 && a[0] == b[0] && b[0] == c[0] {
        lemma_lex_trans(a.drop_first(), b.drop_first(), c.drop_first());
    }
}

/// Whether `a` sorts before `b` as strings do.
pub fn str_lt(a: &str, b: &str) -> (r: bool)
    ensures
        r == lex_lt(a.spec_bytes(), b.spec_bytes()),
{
    let x = a.as_bytes();
    let y = b.as_bytes();
    let mut i: usize = 0;
    assert(x@.subrange(0, x@.len() as int) =~= x@);
    assert(y@.subrange(0, y@.len() as int) =~= y@);
    while i < x.len() && i < y.len()
        invariant
            i <= x@.len(),
            i <= y@.len(),
            x@ == a.spec_bytes(),
            y@ == b.spec_bytes(),
            x@.subrange(0, i as int) == y@.subrange(0, i as int),
            lex_lt(x@, y@) == lex_lt(x@.subrange(i as int, x@.len() as int), y@.subrange(i as int, y@.len() as int)),
        decreases x@.len() - i,
    {
        if x[i] != y[i] {
            return x[i] < y[i];
        }
        proof {
            let xs = x@.subrange(i as int, x@.len() as int);
            let ys = y@.subrange(i as int, y@.len() as int);
            assert(xs.drop_first() =~= x@.subrange(i + 1, x@.len() as int));
            assert(ys.drop_first() =~= y@.subrange(i + 1, y@.len() as int));
            assert(x@.subrange(0, i + 1) =~= x@.subrange(0, i as int).push(x@[i as int]));
            assert(y@.subrange(0, i + 1) =~= y@.subrange(0, i as int).push(y@[i as int]));
        }
        i = i + 1;
    }
    i == x.len() && i < y.len()
}

/// Whether some entry's value is provided by the node `p`.
pub open spec fn is_provider(entries: Seq<EnumEntryDecl>, p: Seq<char>) -> bool {
    exists|i: int| 0 <= i < entries.len() && (#[trigger] entries[i].value matches EnumValueSrc::FromNode(q) && q@ == p)
}

/// Texts in strictly increasing string order.
pub open spec fn sorted_texts(v: Seq<String>) -> bool {
    forall|a: int, b: int| 0 <= a < b < v.len() ==> lex_lt(#[trigger] encode_utf8(v[a]@), #[trigger] encode_utf8(v[b]@))
}

proof fn lemma_sorted_insert(v: Seq<String>, j: int, p: String)
    requires
        sorted_texts(v),
        0 <= j <= v.len(),
        forall|x: int| 0 <= x < j ==> lex_lt(#[trigger] encode_utf8(v[x]@), encode_utf8(p@)),
        j < v.len() ==> lex_lt(encode_utf8(p@), encode_utf8(v[j]@)),
    ensures
        sorted_texts(v.insert(j, p)),
{
    let w = v.insert(j, p);
    assert forall|a: int, b: int| 0 <= a < b < w.len() implies lex_lt(#[trigger] encode_utf8(w[a]@), #[trigger] encode_utf8(w[b]@)) by {
        if a < j && b == j {
        } else if a < j && b > j {
            assert(w[b] == v[b - 1]);
            if b - 1 > a {
            }
        } else if a == j && b > j {
            assert(w[b] == v[b - 1]);
            if b - 1 > j {
                lemma_lex_trans(encode_utf8(p@), encode_utf8(v[j]@), encode_utf8(v[b - 1]@));
            }
        } else if a > j {
            assert(w[a] == v[a - 1]);
            assert(w[b] == v[b - 1]);
        } else {
            assert(w[a] == v[a]);
            assert(w[b] == v[b]);
        }
    }
}

/// The names of the nodes providing entry values: each once, in string order.
pub fn enum_providers(entries: &Vec<EnumEntryDecl>) -> (r: Vec<String>)
    ensures
        sorted_texts(r@),
        forall|p: Seq<char>| #[trigger] texts(r@).contains(p) <==> is_provider(entries@, p),
{
    let mut out: Vec<String> = Vec::new();
    let mut i: usize = 0;
    while i < entries.len()
        invariant
            i <= entries@.len(),
            sorted_texts(out@),
            forall|p: Seq<char>| #[trigger] texts(out@).contains(p) <==> is_provider(entries@.take(i as int), p),
        decreases entries@.len() - i,
    {
        proof {
            assert forall|p: Seq<char>| is_provider(entries@.take(i as int), p) implies is_provider(entries@.take(i + 1), p) by {
                let x = choose|x: int| 0 <= x < entries@.take(i as int).len() && (#[trigger] entries@.take(i as int)[x].value matches EnumValueSrc::FromNode(q) && q@ == p);
                assert(entries@.take(i + 1)[x] == entries@.take(i as int)[x]);
            }
        }
        match &entries[i].value {
            EnumValueSrc::FromNode(p) => {
                let mut j: usize = 0;
                while j < out.len() && str_lt(out[j].as_str(), p.as_str())
                    invariant
                        j <= out@.len(),
                        forall|x: int| 0 <= x < j ==> lex_lt(#[trigger] encode_utf8(out@[x]@), encode_utf8(p@)),
                    decreases out@.len() - j,
                {
                    j = j + 1;
                }
                let present = j < out.len() && out[j] == *p;
                if !present {
                    proof {
                        if j < out@.len() {
                            lemma_lex_total(encode_utf8(out@[j as int]@), encode_utf8(p@));
                            if encode_utf8(out@[j as int]@) == encode_utf8(p@) {
                                vstd::utf8::encode_utf8_decode_utf8(out@[j as int]@);
                                vstd::utf8::encode_utf8_decode_utf8(p@);
                            }
                        }
                    }
                    let ghost before = out@;
                    let q = p.clone();
                    proof {
                        lemma_sorted_insert(before, j as int, q);
                    }
                    out.insert(j, q);
                    proof {
                        assert(texts(out@) =~= texts(before).insert(j as int, p@));
                        assert forall|t: Seq<char>| #[trigger] texts(out@).contains(t) <==> is_provider(entries@.take(i + 1), t) by {
                            if t == p@ {
                                assert(texts(out@)[j as int] == p@);
                                assert(entries@.take(i + 1)[i as int] == entries@[i as int]);
                            } else {
                                if texts(out@).contains(t) {
                                    let y = choose|y: int| 0 <= y < texts(out@).len() && texts(out@)[y] == t;
                                    if y < j {
                                        assert(texts(before)[y] == t);
                                    } else {
                                        assert(texts(before)[y - 1] == t);
                                    }
                                }
                                if texts(before).contains(t) {
                                    let y = choose|y: int| 0 <= y < texts(before).len() && texts(before)[y] == t;
                                    if y < j {
                                        assert(texts(out@)[y] == t);
                                    } else {
                                        assert(texts(out@)[y + 1] == t);
                                    }
                                }
                                if is_provider(entries@.take(i + 1), t) {
                                    let x = choose|x: int| 0 <= x < entries@.take(i + 1).len() && (#[trigger] entries@.take(i + 1)[x].value matches EnumValueSrc::FromNode(q) && q@ == t);
                                    assert(x != i);
                                    assert(entries@.take(i as int)[x] == entries@.take(i + 1)[x]);
                                }
                            }
                        }
                    }
                } else {
                    proof {
                        assert forall|t: Seq<char>| #[trigger] texts(out@).contains(t) <==> is_provider(entries@.take(i + 1), t) by {
                            if t == p@ {
                                assert(texts(out@)[j as int] == p@);
                                assert(entries@.take(i + 1)[i as int] == entries@[i as int]);
                            } else if is_provider(entries@.take(i + 1), t) {
                                let x = choose|x: int| 0 <= x < entries@.take(i + 1).len() && (#[trigger] entries@.take(i + 1)[x].value matches EnumValueSrc::FromNode(q) && q@ == t);
                                assert(x != i);
                                assert(entries@.take(i as int)[x] == entries@.take(i + 1)[x]);
                            }
                        }
                    }
                }
            },
            EnumValueSrc::Literal(_) => {
                proof {
                    assert forall|t: Seq<char>| #[trigger] texts(out@).contains(t) <==> is_provider(entries@.take(i + 1), t) by {
                        if is_provider(entries@.take(i + 1), t) {
                            let x = choose|x: int| 0 <= x < entries@.take(i + 1).len() && (#[trigger] entries@.take(i + 1)[x].value matches EnumValueSrc::FromNode(q) && q@ == t);
                            assert(x != i);
                            assert(entries@.take(i as int)[x] == entries@.take(i + 1)[x]);
                        }
                    }
                }
            },
        }
        i = i + 1;
    }
    assert(entries@.take(entries@.len() as int) =~= entries@);
    out
}

/// The name a declaration gives its node.
pub open spec fn decl_name(d: NodeDecl) -> Seq<char> {
    match d {
        NodeDecl::Integer { name, .. } => name@,
        NodeDecl::Float { name, .. } => name@,
        NodeDecl::Enum { name, .. } => name@,
        NodeDecl::Boolean { name, .. } => name@,
        NodeDecl::Command { name, .. } => name@,
        NodeDecl::Category { name, .. } => name@,
        NodeDecl::SwissKnife(sk) => sk.name@,
    }
}

/// Index of the last declaration named `k`, or -1.
pub open spec fn last_decl(decls: Seq<NodeDecl>, k: Seq<char>) -> int
    decreases decls.len(),
{
    if decls.len() == 0 {
        -1
    } else if decl_name(decls.last()) == k {
        decls.len() - 1
    } else {
        last_decl(decls.drop_last(), k)
    }
}

proof fn lemma_last_decl(decls: Seq<NodeDecl>, k: Seq<char>)
    ensures
        -1 <= last_decl(decls, k) < decls.len(),
        last_decl(decls, k) >= 0 ==> decl_name(decls[last_decl(decls, k)]) == k,
    decreases decls.len(),
{
    if decls.len() > 0 {
        lemma_last_decl(decls.drop_last(), k);
    }
}

/// Whether a declaration is a SwissKnife node whose formula the map refuses.
pub open spec fn sk_bad(d: NodeDecl) -> bool {
    d matches NodeDecl::SwissKnife(s) && !formula_ok(s.expr@, s.variables@)
}

/// The node a declaration yields: the same metadata, nothing cached; an enumeration lists
/// the nodes providing its entry values once each, in string order.
pub open spec fn node_from(d: NodeDecl, n: Node) -> bool {
    match d {
        NodeDecl::Integer { name, addressing, len, access, min, max, inc, unit, bitfield, selectors, selected_if } =>
            n matches Node::Integer(x) && x.name == name && x.addressing == addressing && x.len == len
                && x.access == access && x.min == min && x.max == max && x.inc == inc && x.unit == unit
                && x.bitfield == bitfield && x.selectors == selectors && x.selected_if == selected_if
                && x.is_uncached(),
        NodeDecl::Float { name, addressing, access, min, max, unit, scale, offset, selectors, selected_if } =>
            n matches Node::Float(x) && x.name == name && x.addressing == addressing && x.access == access
                && x.min == min && x.max == max && x.unit == unit && x.scale == scale && x.offset == offset
                && x.selectors == selectors && x.selected_if == selected_if && x.cache.content() is None,
        NodeDecl::Enum { name, addressing, access, entries, default, selectors, selected_if } =>
            n matches Node::Enum(x) && x.name == name && x.addressing == addressing && x.access == access
                && x.entries == entries && x.default == default && x.selectors == selectors
                && x.selected_if == selected_if && x.is_uncached() && sorted_texts(x.providers@)
                && forall|p: Seq<char>| #[trigger] texts(x.providers@).contains(p) <==> is_provider(entries@, p),
        NodeDecl::Boolean { name, addressing, len, access, bitfield, selectors, selected_if } =>
            n matches Node::Boolean(x) && x.name == name && x.addressing == addressing && x.len == len
                && x.access == access && x.bitfield == bitfield && x.selectors == selectors
                && x.selected_if == selected_if && x.is_uncached(),
        NodeDecl::Command { name, address, len } => n == Node::Command(CommandNode { name, address, len }),
        NodeDecl::Category { name, children } => n == Node::Category(CategoryNode { name, children }),
        NodeDecl::SwissKnife(sk) => n == Node::SwissKnife(
            SkNode { name: sk.name, output: sk.output, expr: sk.expr, vars: sk.variables },
        ),
    }
}

/// No two nodes share a name.
pub open spec fn distinct_names(nodes: Seq<Node>) -> bool {
    forall|i: int, j: int| 0 <= i < j < nodes.len() ==> #[trigger] nodes[i].name_of() != #[trigger] nodes[j].name_of()
}

proof fn lemma_put_node(nodes: Seq<Node>, n: Node, k: Seq<char>)
    requires
        distinct_names(nodes),
    ensures
        k == n.name_of() ==> (lookup(put_node(nodes, n), k) matches Some(i) && put_node(nodes, n)[i] == n),
        k != n.name_of() ==> lookup(put_node(nodes, n), k) == lookup(nodes, k) && (lookup(nodes, k) matches Some(i)
            ==> put_node(nodes, n)[i] == nodes[i]),
{
    let ns = node_names(nodes);
    let kn = n.name_of();
    lemma_name_index(ns, kn);
    lemma_name_index(ns, k);
    let m = put_node(nodes, n);
    let ms = node_names(m);
    match lookup(nodes, kn) {
        Some(i) => {
            assert(ms =~= ns.update(i, kn));
            if k == kn {
                lemma_name_index_is(ms, k, i);
            } else {
                lemma_name_index_is(ms, k, name_index(ns, k));
            }
        },
        None => {
            assert(ms =~= ns.push(kn));
            if k == kn {
                lemma_name_index_is(ms, k, ns.len() as int);
            } else if name_index(ns, k) < ns.len() {
                lemma_name_index_is(ms, k, name_index(ns, k));
            } else {
                lemma_name_index_is(ms, k, ms.len() as int);
            }
        },
    }
}

impl NodeMap {
    /// Build the node for declaration `d`, recording what it depends on.
    fn node_of_decl(deps: &mut Vec<(String, Vec<String>)>, d: NodeDecl) -> (n: Node)
        ensures
            node_from(d, n),
            n.name_of() == decl_name(d),
            forall|k: Seq<char>| #[trigger]
                dependents_of(deps_view(final(deps)@), k) == dependents_of(deps_view(old(deps)@), k) + decl_deps(d, k),
    {
        let ghost d0 = d;
        match d {
            NodeDecl::Integer { name, addressing, len, access, min, max, inc, unit, bitfield, selectors, selected_if } => {
                register_addressing_dependency(deps, name.as_str(), &addressing);
                let ghost mid = deps_view(deps@);
                record_rules(deps, &selected_if, name.as_str());
                proof {
                    assert forall|k: Seq<char>| #[trigger] dependents_of(deps_view(deps@), k) == dependents_of(deps_view(old(deps)@), k) + decl_deps(d0, k) by {
                        assert(dependents_of(mid, k) == dependents_of(deps_view(old(deps)@), k) + once_if(addressing_source(addressing) == Some(k), name@));
                    }
                }
                Node::Integer(IntegerNode::new(name, addressing, len, access, min, max, inc, unit, bitfield, selectors, selected_if))
            },
            NodeDecl::Float { name, addressing, access, min, max, unit, scale, offset, selectors, selected_if } => {
                register_addressing_dependency(deps, name.as_str(), &addressing);
                let ghost mid = deps_view(deps@);
                record_rules(deps, &selected_if, name.as_str());
                proof {
                    assert forall|k: Seq<char>| #[trigger] dependents_of(deps_view(deps@), k) == dependents_of(deps_view(old(deps)@), k) + decl_deps(d0, k) by {
                        assert(dependents_of(mid, k) == dependents_of(deps_view(old(deps)@), k) + once_if(addressing_source(addressing) == Some(k), name@));
                    }
                }
                Node::Float(
                    FloatNode {
                        name,
                        addressing,
                        access,
                        min,
                        max,
                        unit,
                        scale,
                        offset,
                        selectors,
                        selected_if,
                        cache: Cache::empty(),
                    },
                )
            },
            NodeDecl::Enum { name, addressing, access, entries, default, selectors, selected_if } => {
                register_addressing_dependency(deps, name.as_str(), &addressing);
                let ghost mid = deps_view(deps@);
                record_rules(deps, &selected_if, name.as_str());
                let ghost mid2 = deps_view(deps@);
                record_providers(deps, &entries, name.as_str());
                proof {
                    assert forall|k: Seq<char>| #[trigger] dependents_of(deps_view(deps@), k) == dependents_of(deps_view(old(deps)@), k) + decl_deps(d0, k) by {
                        assert(dependents_of(mid, k) == dependents_of(deps_view(old(deps)@), k) + once_if(addressing_source(addressing) == Some(k), name@));
                        assert(dependents_of(mid2, k) == dependents_of(mid, k) + rule_deps(selected_if@, k, name@));
                        assert(dependents_of(deps_view(old(deps)@), k) + once_if(addressing_source(addressing) == Some(k), name@)
                            + rule_deps(selected_if@, k, name@) + provider_deps(entries@, k, name@) =~= dependents_of(deps_view(old(deps)@), k)
                            + (once_if(addressing_source(addressing) == Some(k), name@) + rule_deps(selected_if@, k, name@)
                            + provider_deps(entries@, k, name@)));
                    }
                }
                let providers = enum_providers(&entries);
                Node::Enum(EnumNode::new(name, addressing, access, entries, default, selectors, selected_if, providers))
            },
            NodeDecl::Boolean { name, addressing, len, access, bitfield, selectors, selected_if } => {
                register_addressing_dependency(deps, name.as_str(), &addressing);
                let ghost mid = deps_view(deps@);
                record_rules(deps, &selected_if, name.as_str());
                proof {
                    assert forall|k: Seq<char>| #[trigger] dependents_of(deps_view(deps@), k) == dependents_of(deps_view(old(deps)@), k) + decl_deps(d0, k) by {
                        assert(dependents_of(mid, k) == dependents_of(deps_view(old(deps)@), k) + once_if(addressing_source(addressing) == Some(k), name@));
                    }
                }
                Node::Boolean(BooleanNode::new(name, addressing, len, access, bitfield, selectors, selected_if))
            },
            NodeDecl::Command { name, address, len } => {
                proof {
                    assert forall|k: Seq<char>| #[trigger] dependents_of(deps_view(deps@), k) == dependents_of(deps_view(old(deps)@), k) + decl_deps(d0, k) by {
                        assert(dependents_of(deps_view(deps@), k) + Seq::<Seq<char>>::empty() =~= dependents_of(deps_view(deps@), k));
                    }
                }
                Node::Command(CommandNode { name, address, len })
            },
            NodeDecl::Category { name, children } => {
                proof {
                    assert forall|k: Seq<char>| #[trigger] dependents_of(deps_view(deps@), k) == dependents_of(deps_view(old(deps)@), k) + decl_deps(d0, k) by {
                        assert(dependents_of(deps_view(deps@), k) + Seq::<Seq<char>>::empty() =~= dependents_of(deps_view(deps@), k));
                    }
                }
                Node::Category(CategoryNode { name, children })
            },
            NodeDecl::SwissKnife(sk) => {
                record_vars(deps, &sk.variables, sk.name.as_str());
                Node::SwissKnife(SkNode { name: sk.name, output: sk.output, expr: sk.expr, vars: sk.variables })
            },
        }
    }

    /// Construct a [`NodeMap`] from an [`XmlModel`]: one node per name, from the last
    /// declaration of that name, and for each node the nodes that depend on it. A
    /// SwissKnife node whose formula does not follow the grammar, or names a variable it
    /// does not declare, is refused: the first such declaration gives the error.
    pub fn try_from_xml(model: XmlModel) -> (r: Result<NodeMap, GenApiError>)
        ensures
            (exists|k: int| 0 <= k < model.nodes@.len() && #[trigger] sk_bad(model.nodes@[k])) ==> exists|k: int|
                0 <= k < model.nodes@.len() && #[trigger] sk_bad(model.nodes@[k]) && (forall|j: int|
                    0 <= j < k ==> !#[trigger] sk_bad(model.nodes@[j])) && (r matches Err(e) && formula_error(
                    model.nodes@[k]->SwissKnife_0.name@,
                    model.nodes@[k]->SwissKnife_0.expr@,
                    model.nodes@[k]->SwissKnife_0.variables@,
                    e,
                )),
            (forall|k: int| 0 <= k < model.nodes@.len() ==> !#[trigger] sk_bad(model.nodes@[k])) ==> (r matches Ok(m) && m.wf() && m.version == model.version && m.generation == 0
                && (forall|k: Seq<char>| #[trigger] lookup(m.nodes@, k) is Some <==> last_decl(model.nodes@, k) >= 0)
                && (forall|k: Seq<char>| #[trigger] lookup(m.nodes@, k) matches Some(i) ==> node_from(
                model.nodes@[last_decl(model.nodes@, k)],
                m.nodes@[i],
            )) && (forall|k: Seq<char>| #[trigger] dependents_of(deps_view(m.dependents@), k) == deps_fold(model.nodes@, k))),
    {
        let ghost orig = model.nodes@;
        let version = model.version;
        let mut decls = model.nodes;
        let mut nodes: Vec<Node> = Vec::new();
        let mut dependents: Vec<(String, Vec<String>)> = Vec::new();
        let mut i: usize = 0;
        let n = decls.len();
        while decls.len() > 0
            invariant
                n == orig.len(),
                i + decls@.len() == n,
                decls@ == orig.subrange(i as int, n as int),
                distinct_names(nodes@),
                forall|k: Seq<char>| #[trigger] lookup(nodes@, k) is Some <==> last_decl(orig.take(i as int), k) >= 0,
                forall|k: Seq<char>| #[trigger] lookup(nodes@, k) matches Some(j) ==> node_from(
                    orig[last_decl(orig.take(i as int), k)],
                    nodes@[j],
                ),
                forall|k: Seq<char>| #[trigger] dependents_of(deps_view(dependents@), k) == deps_fold(orig.take(i as int), k),
                forall|j: int| 0 <= j < i ==> !#[trigger] sk_bad(orig[j]),
                orig == model.nodes@,
            decreases decls@.len(),
        {
            let d = decls.remove(0);
            let ghost dd = d;
            assert(dd == orig[i as int]);
            match &d {
                NodeDecl::SwissKnife(sk) => match check_formula(&sk.name, &sk.expr, &sk.variables) {
                    Err(e) => {
                        proof {
                            assert(sk_bad(orig[i as int]));
                            assert(sk_bad(model.nodes@[i as int]));
                        }
                        return Err(e);
                    },
                    Ok(()) => {},
                },
                _ => {},
            }
            let ghost before = nodes@;
            let node = Self::node_of_decl(&mut dependents, d);
            let ghost nv = node;
            insert_node(&mut nodes, node);
            proof {
                let t0 = orig.take(i as int);
                let t1 = orig.take(i + 1);
                assert(t1.drop_last() =~= t0);
                assert(t1.last() == dd);
                assert forall|k: Seq<char>| #[trigger] lookup(nodes@, k) is Some <==> last_decl(t1, k) >= 0 by {
                    lemma_put_node(before, nv, k);
                }
                assert forall|k: Seq<char>| #[trigger] lookup(nodes@, k) is Some implies node_from(orig[last_decl(t1, k)], nodes@[lookup(nodes@, k)->Some_0]) by {
                    lemma_put_node(before, nv, k);
                }
                assert forall|k: Seq<char>| #[trigger] dependents_of(deps_view(dependents@), k) == deps_fold(t1, k) by {}
                assert(decls@ =~= orig.subrange(i + 1, n as int));
            }
            i = i + 1;
        }
        proof {
            assert(orig.take(i as int) =~= orig);
        }
        Ok(NodeMap { version, nodes, dependents, generation: 0 })
    }
}

// ---------------------------------------------------------------------------
// The decisions behind feature access
// ---------------------------------------------------------------------------

/// Message of the `Unavailable` error for a node hidden by the selector value `value`.
pub open spec fn unavailable_msg(node: Seq<char>, selector: Seq<char>, value: Seq<char>) -> Seq<char> {
    "node '"@ + node + "' unavailable for selector '"@ + selector + "="@ + value + "'"@
}

fn unavailable(node: &String, selector: &String, value: &String) -> (e: GenApiError)
    ensures
        e matches GenApiError::Unavailable(m) && m@ == unavailable_msg(node@, selector@, value@),
{
    let mut m = String::from_str("node '");
    m.append(node.as_str());
    m.append("' unavailable for selector '");
    m.append(selector.as_str());
    m.append("=");
    m.append(value.as_str());
    m.append("'");
    GenApiError::Unavailable(m)
}

/// A gating rule lets the node through when it allows the selector's current value.
pub fn gate_check(node: &String, selector: &String, allowed: &Vec<String>, current: &String) -> (r: Result<(), GenApiError>)
    ensures
        texts(allowed@).contains(current@) ==> r is Ok,
        !texts(allowed@).contains(current@) ==> (r matches Err(GenApiError::Unavailable(m)) && m@
            == unavailable_msg(node@, selector@, current@)),
{
    let mut i: usize = 0;
    while i < allowed.len()
        invariant
            i <= allowed@.len(),
            forall|j: int| 0 <= j < i ==> texts(allowed@)[j] != current@,
        decreases allowed@.len() - i,
    {
        if allowed[i] == *current {
            assert(texts(allowed@)[i as int] == current@);
            return Ok(());
        }
        i = i + 1;
    }
    Err(unavailable(node, selector, current))
}

/// The register a selector value picks: the first table entry for the value.
pub fn select_address(node: &String, selector: &String, map: &Vec<(String, (u64, u32))>, value: &String) -> (r: Result<
    (u64, u32),
    GenApiError,
>)
    ensures
        key_index(table_view(map@), value@) < map@.len() ==> r == Ok::<(u64, u32), GenApiError>(
            map@[key_index(table_view(map@), value@)].1,
        ),
        key_index(table_view(map@), value@) >= map@.len() ==> (r matches Err(GenApiError::Unavailable(m))
            && m@ == unavailable_msg(node@, selector@, value@)),
{
    let ghost t = table_view(map@);
    let mut i: usize = 0;
    while i < map.len()
        invariant
            i <= map@.len(),
            t == table_view(map@),
            forall|j: int| 0 <= j < i ==> t[j].0 != value@,
        decreases map@.len() - i,
    {
        assert(t[i as int].0 == map@[i as int].0@);
        if map[i].0 == *value {
            proof {
                crate::builders::lemma_key_index_is(t, value@, i as int);
            }
            return Ok(map[i].1);
        }
        i = i + 1;
    }
    proof {
        crate::builders::lemma_key_index_is(t, value@, i as int);
    }
    Err(unavailable(node, selector, value))
}

/// The register an indirect node uses: the provider's value must be a positive address.
pub fn indirect_address(node: &String, addr: i64, len: u32) -> (r: Result<(u64, u32), GenApiError>)
    ensures
        addr > 0 ==> r == Ok::<(u64, u32), GenApiError>((addr as u64, len)),
        addr <= 0 ==> (r matches Err(GenApiError::BadIndirectAddress { name, addr: a }) && name@ == node@
            && a == addr),
{
    if addr <= 0 {
        Err(GenApiError::BadIndirectAddress { name: node.clone(), addr })
    } else {
        Ok((addr as u64, len))
    }
}

/// Whether `value` may be written to an integer node with these limits: within
/// `[min, max]`, and a whole number of increments above `min` when an increment is declared.
pub open spec fn integer_allowed(value: int, min: int, max: int, inc: Option<i64>) -> bool {
    min <= value <= max && match inc {
        Some(i) => i == 0 || (value - min) % (i as int) == 0,
        None => true,
    }
}

/// Law: with a non-zero increment, each value reached from `min` by whole increments and
/// not above `max` may be written.
pub proof fn lemma_increment_steps_allowed(min: i64, max: i64, inc: i64, k: nat)
    requires
        inc != 0,
        min <= min + k * inc <= max,
    ensures
        integer_allowed(min + k * inc, min as int, max as int, Some(inc)),
{
    assert((k * inc) % (inc as int) == 0) by (nonlinear_arith)
        requires
            inc != 0,
    ;
    assert((min + k * inc) - min == k * inc);
}

/// Law: a value within `[min, max]` is refused only when the increment is not zero and the
/// value lies no whole number of increments away from `min`.
pub proof fn lemma_refused_in_range(value: int, min: int, max: int, inc: i64)
    requires
        min <= value <= max,
        !integer_allowed(value, min, max, Some(inc)),
    ensures
        inc != 0,
        forall|k: int| value - min != #[trigger] (k * inc),
{
    assert forall|k: int| value - min != #[trigger] (k * inc) by {
        if value - min == k * inc {
            assert((k * inc) % (inc as int) == 0) by (nonlinear_arith)
                requires
                    inc != 0,
            ;
        }
    }
}

/// Check a value against an integer node's limits.
pub fn check_integer_write(node: &String, value: i64, min: i64, max: i64, inc: Option<i64>) -> (r: Result<(), GenApiError>)
    ensures
        integer_allowed(value as int, min as int, max as int, inc) ==> r is Ok,
        !integer_allowed(value as int, min as int, max as int, inc) ==> (r matches Err(GenApiError::Range(n))
            && n@ == node@),
{
    if value < min || value > max {
        return Err(GenApiError::Range(node.clone()));
    }
    match inc {
        Some(i) => {
            if i != 0 && ((value as i128) - (min as i128)) % (i as i128) != 0 {
                return Err(GenApiError::Range(node.clone()));
            }
        },
        None => {},
    }
    Ok(())
}

/// Index of the first entry whose resolved value is `raw`, or the number of entries.
pub open spec fn first_value_index(values: Seq<i64>, raw: i64) -> int
    decreases values.len(),
{
    if values.len() == 0 {
        0
    } else if first_value_index(values.drop_last(), raw) < values.len() - 1 {
        first_value_index(values.drop_last(), raw)
    } else if values.last() == raw {
        values.len() - 1
    } else {
        values.len() as int
    }
}

proof fn lemma_first_value_index_is(values: Seq<i64>, raw: i64, i: int)
    requires
        0 <= i <= values.len(),
        forall|j: int| 0 <= j < i ==> values[j] != raw,
        i < values.len() ==> values[i] == raw,
    ensures
        first_value_index(values, raw) == i,
    decreases values.len(),
{
    if values.len() > 0 {
        if i < values.len() - 1 {
            lemma_first_value_index_is(values.drop_last(), raw, i);
        } else {
            lemma_first_value_index_is(values.drop_last(), raw, values.len() - 1);
        }
    }
}

/// The entry a raw value names: the first entry that resolved to it.
pub fn entry_for_value(entries: &Vec<EnumEntryDecl>, values: &Vec<i64>, raw: i64) -> (r: Option<String>)
    requires
        values@.len() == entries@.len(),
    ensures
        first_value_index(values@, raw) < values@.len() ==> (r matches Some(s) && s == entries@[first_value_index(values@, raw)].name),
        first_value_index(values@, raw) >= values@.len() ==> r is None,
        r matches Some(s) ==> has_entry(entries@, s@),
{
    let mut i: usize = 0;
    while i < values.len()
        invariant
            i <= values@.len(),
            values@.len() == entries@.len(),
            forall|j: int| 0 <= j < i ==> values@[j] != raw,
        decreases values@.len() - i,
    {
        if values[i] == raw {
            proof {
                lemma_first_value_index_is(values@, raw, i as int);
                assert(entries@[i as int].name@ == entries@[i as int].name@);
            }
            let name = entries[i].name.clone();
            proof {
                assert(entries@[i as int].name@ == name@);
            }
            return Some(name);
        }
        i = i + 1;
    }
    proof {
        lemma_first_value_index_is(values@, raw, i as int);
    }
    None
}

/// Index of the last entry named `name`, or -1.
pub open spec fn last_name_index(entries: Seq<EnumEntryDecl>, name: Seq<char>) -> int
    decreases entries.len(),
{
    if entries.len() == 0 {
        -1
    } else if entries.last().name@ == name {
        entries.len() - 1
    } else {
        last_name_index(entries.drop_last(), name)
    }
}

/// The value an entry name stands for: that of the last entry so named.
pub fn value_for_entry(entries: &Vec<EnumEntryDecl>, values: &Vec<i64>, name: &String) -> (r: Option<i64>)
    requires
        values@.len() == entries@.len(),
    ensures
        last_name_index(entries@, name@) >= 0 ==> r == Some(values@[last_name_index(entries@, name@)]),
        last_name_index(entries@, name@) < 0 ==> r is None,
{
    let mut i: usize = entries.len();
    assert(entries@.take(i as int) =~= entries@);
    while i > 0
        invariant
            i <= entries@.len(),
            values@.len() == entries@.len(),
            last_name_index(entries@, name@) == last_name_index(entries@.take(i as int), name@),
        decreases i,
    {
        proof {
            assert(entries@.take(i as int).drop_last() =~= entries@.take(i - 1));
        }
        if entries[i - 1].name == *name {
            return Some(values[i - 1]);
        }
        i = i - 1;
    }
    None
}

// ---------------------------------------------------------------------------
// Feature access
// ---------------------------------------------------------------------------

/// The value an integer node's register bytes stand for, when they can be read.
pub open spec fn int_decode(raw: Seq<u8>, bitfield: Option<BitField>, min: i64) -> Option<i64> {
    match bitfield {
        None => if 1 <= raw.len() <= 8 {
            Some(be_signed(raw) as i64)
        } else {
            None
        },
        Some(bf) => match field_problem(raw.len(), bf) {
            Some(_) => None,
            None => {
                let x = field_of(reg_value(raw, bf.byte_order), field_shift(raw.len(), bf), bf.bit_length as nat);
                if min < 0 {
                    Some(signed_low_bits(x, bf.bit_length as nat) as i64)
                } else if x <= i64::MAX {
                    Some(x as i64)
                } else {
                    None
                }
            },
        },
    }
}

/// The value a boolean node's register bytes stand for, when they can be read.
pub open spec fn bool_decode(raw: Seq<u8>, bf: BitField) -> Option<bool> {
    match field_problem(raw.len(), bf) {
        Some(_) => None,
        None => Some(field_of(reg_value(raw, bf.byte_order), field_shift(raw.len(), bf), bf.bit_length as nat) != 0),
    }
}

/// A cached value always is what the cached register bytes stand for.
pub open spec fn coherent(n: Node) -> bool {
    match n {
        Node::Integer(x) => x.cache.content() matches Some(v) ==> (x.raw_cache.content() matches Some(r)
            && int_decode(r@, x.bitfield, x.min) == Some(v)),
        Node::Boolean(x) => x.cache.content() matches Some(b) ==> (x.raw_cache.content() matches Some(r)
            && bool_decode(r@, x.bitfield) == Some(b)),
        Node::Enum(x) => x.value_cache.content() matches Some(v) ==> has_entry(x.entries@, v@),
        _ => true,
    }
}

/// `b` is `a` with at most the caches changed.
pub open spec fn frame(a: NodeMap, b: NodeMap) -> bool {
    &&& b.version == a.version
    &&& b.dependents == a.dependents
    &&& b.nodes@.len() == a.nodes@.len()
    &&& forall|i: int| 0 <= i < a.nodes@.len() ==> #[trigger] same_meta(a.nodes@[i], b.nodes@[i])
}

impl NodeMap {
    /// Names are unique and cached values agree with the cached register bytes.
    pub open spec fn valid(&self) -> bool {
        &&& self.wf()
        &&& forall|i: int| 0 <= i < self.nodes@.len() ==> #[trigger] coherent(self.nodes@[i])
    }
}

proof fn lemma_same_meta_name(a: Node, b: Node)
    requires
        same_meta(a, b),
    ensures
        a.name_of() == b.name_of(),
{
}

proof fn lemma_frame(a: NodeMap, b: NodeMap)
    requires
        frame(a, b),
    ensures
        node_names(a.nodes@) == node_names(b.nodes@),
        forall|k: Seq<char>| #[trigger] lookup(b.nodes@, k) == lookup(a.nodes@, k),
        a.wf() ==> b.wf(),
{
    assert forall|i: int| 0 <= i < a.nodes@.len() implies a.nodes@[i].name_of() == b.nodes@[i].name_of() by {
        lemma_same_meta_name(a.nodes@[i], b.nodes@[i]);
    }
    assert(node_names(a.nodes@) =~= node_names(b.nodes@));
    if a.wf() {
        assert forall|i: int, j: int| 0 <= i < j < b.nodes@.len() implies #[trigger] b.nodes@[i].name_of() != #[trigger] b.nodes@[j].name_of() by {
            assert(a.nodes@[i].name_of() != a.nodes@[j].name_of());
        }
    }
}

proof fn lemma_frame_trans(a: NodeMap, b: NodeMap, c: NodeMap)
    requires
        frame(a, b),
        frame(b, c),
    ensures
        frame(a, c),
{
    assert forall|i: int| 0 <= i < a.nodes@.len() implies #[trigger] same_meta(a.nodes@[i], c.nodes@[i]) by {
        assert(same_meta(a.nodes@[i], b.nodes@[i]));
        assert(same_meta(b.nodes@[i], c.nodes@[i]));
    }
}

/// `b` still holds every value `a` holds in a cache: reading only fills empty caches.
pub open spec fn keeps(a: Node, b: Node) -> bool {
    match a {
        Node::Integer(x) => x.cache.content() is Some ==> (b matches Node::Integer(y) && y.cache.content()
            == x.cache.content()),
        Node::Boolean(x) => x.cache.content() is Some ==> (b matches Node::Boolean(y) && y.cache.content()
            == x.cache.content()),
        Node::Float(x) => x.cache.content() is Some ==> (b matches Node::Float(y) && y.cache.content()
            == x.cache.content()),
        Node::Enum(x) => x.value_cache.content() is Some ==> (b matches Node::Enum(y)
            && y.value_cache.content() == x.value_cache.content()),
        _ => true,
    }
}

/// Every node of `b` keeps the values its counterpart in `a` has cached.
pub open spec fn fills(a: NodeMap, b: NodeMap) -> bool {
    &&& b.nodes@.len() == a.nodes@.len()
    &&& forall|i: int| 0 <= i < a.nodes@.len() ==> #[trigger] keeps(a.nodes@[i], b.nodes@[i])
}

proof fn lemma_fills_trans(a: NodeMap, b: NodeMap, c: NodeMap)
    requires
        fills(a, b),
        fills(b, c),
    ensures
        fills(a, c),
{
    assert forall|i: int| 0 <= i < a.nodes@.len() implies #[trigger] keeps(a.nodes@[i], c.nodes@[i]) by {
        assert(keeps(a.nodes@[i], b.nodes@[i]));
        assert(keeps(b.nodes@[i], c.nodes@[i]));
    }
}

/// Storing into node `i` alone keeps what `a` cached, when node `i` keeps it.
proof fn lemma_fills_store(a: NodeMap, b: NodeMap, c: NodeMap, i: int)
    requires
        fills(a, b),
        c.nodes@.len() == b.nodes@.len(),
        0 <= i < b.nodes@.len(),
        forall|j: int| 0 <= j < c.nodes@.len() && j != i ==> c.nodes@[j] == b.nodes@[j],
        keeps(a.nodes@[i], c.nodes@[i]),
    ensures
        fills(a, c),
{
    assert forall|j: int| 0 <= j < a.nodes@.len() implies #[trigger] keeps(a.nodes@[j], c.nodes@[j]) by {
        if j != i {
            assert(keeps(a.nodes@[j], b.nodes@[j]));
        }
    }
}

/// The kind of a node.
#[derive(Debug, Clone, Copy, PartialEq, Eq, Structural)]
pub enum NodeTag {
    Integer,
    Float,
    Enum,
    Boolean,
    Command,
    Category,
    SwissKnife,
}

/// The kind of a node.
pub open spec fn tag_of_node(n: Node) -> NodeTag {
    match n {
        Node::Integer(_) => NodeTag::Integer,
        Node::Float(_) => NodeTag::Float,
        Node::Enum(_) => NodeTag::Enum,
        Node::Boolean(_) => NodeTag::Boolean,
        Node::Command(_) => NodeTag::Command,
        Node::Category(_) => NodeTag::Category,
        Node::SwissKnife(_) => NodeTag::SwissKnife,
    }
}

impl Node {
    /// The kind of the node.
    pub fn tag(&self) -> (t: NodeTag)
        ensures
            t == tag_of_node(*self),
    {
        match self {
            Node::Integer(_) => NodeTag::Integer,
            Node::Float(_) => NodeTag::Float,
            Node::Enum(_) => NodeTag::Enum,
            Node::Boolean(_) => NodeTag::Boolean,
            Node::Command(_) => NodeTag::Command,
            Node::Category(_) => NodeTag::Category,
            Node::SwissKnife(_) => NodeTag::SwissKnife,
        }
    }

    /// The addressing of a register-backed node.
    pub open spec fn addressing_of(&self) -> Option<Addressing> {
        match self {
            Node::Integer(x) => Some(x.addressing),
            Node::Float(x) => Some(x.addressing),
            Node::Enum(x) => Some(x.addressing),
            Node::Boolean(x) => Some(x.addressing),
            _ => None,
        }
    }

    /// The gating rules of a register-backed node.
    pub open spec fn rules_of(&self) -> Seq<(String, Vec<String>)> {
        match self {
            Node::Integer(x) => x.selected_if@,
            Node::Float(x) => x.selected_if@,
            Node::Enum(x) => x.selected_if@,
            Node::Boolean(x) => x.selected_if@,
            _ => Seq::empty(),
        }
    }

    fn addressing(&self) -> (r: Option<&Addressing>)
        ensures
            match self.addressing_of() {
                Some(a) => r is Some && *r->Some_0 == a,
                None => r is None,
            },
    {
        match self {
            Node::Integer(x) => Some(&x.addressing),
            Node::Float(x) => Some(&x.addressing),
            Node::Enum(x) => Some(&x.addressing),
            Node::Boolean(x) => Some(&x.addressing),
            _ => None,
        }
    }

    fn rules(&self) -> (r: Option<&Vec<(String, Vec<String>)>>)
        ensures
            r is Some ==> r->Some_0@ == self.rules_of(),
            r is None ==> self.rules_of().len() == 0,
    {
        match self {
            Node::Integer(x) => Some(&x.selected_if),
            Node::Float(x) => Some(&x.selected_if),
            Node::Enum(x) => Some(&x.selected_if),
            Node::Boolean(x) => Some(&x.selected_if),
            _ => None,
        }
    }
}

proof fn lemma_same_meta_parts(a: Node, b: Node)
    requires
        same_meta(a, b),
    ensures
        tag_of_node(a) == tag_of_node(b),
        a.addressing_of() == b.addressing_of(),
        a.rules_of() == b.rules_of(),
{
}

/// The text a selector node's cached value stands for: an entry name, `true`/`false`, or a
/// decimal number.
pub open spec fn cached_text(n: Node) -> Option<Seq<char>> {
    match n {
        Node::Enum(x) => match x.value_cache.content() {
            Some(v) => Some(v@),
            None => None,
        },
        Node::Boolean(x) => match x.cache.content() {
            Some(b) => Some(if b { "true"@ } else { "false"@ }),
            None => None,
        },
        Node::Integer(x) => match x.cache.content() {
            Some(v) => Some(ascii_chars(signed_dec_digits(v as int))),
            None => None,
        },
        _ => None,
    }
}

/// Whether the gating rule `rule` lets a node through in state `m`: it lists no values, or its
/// selector holds a cached value that is one of them.
pub open spec fn rule_passes(m: NodeMap, rule: (String, Vec<String>)) -> bool {
    rule.1@.len() == 0 || (lookup(m.nodes@, rule.0@) matches Some(j) && cached_text(m.nodes@[j]) matches Some(t)
        && texts(rule.1@).contains(t))
}

/// The value an entry resolved to in state `m`: its literal, or the value its provider, an
/// integer node, holds in its cache.
pub open spec fn mapped_value(m: NodeMap, src: EnumValueSrc, v: i64) -> bool {
    match src {
        EnumValueSrc::Literal(l) => v == l,
        EnumValueSrc::FromNode(p) => lookup(m.nodes@, p@) matches Some(j) && m.nodes@[j] matches Node::Integer(y)
            && y.cache.content() == Some(v),
    }
}

/// Whether every entry of the list has a literal value.
pub open spec fn all_literal(entries: Seq<EnumEntryDecl>) -> bool {
    forall|k: int| 0 <= k < entries.len() ==> #[trigger] entries[k].value is Literal
}

proof fn lemma_passes_kept(a: NodeMap, b: NodeMap, rule: (String, Vec<String>))
    requires
        frame(a, b),
        fills(a, b),
        rule_passes(a, rule),
    ensures
        rule_passes(b, rule),
{
    lemma_frame(a, b);
    if rule.1@.len() != 0 {
        let j = lookup(a.nodes@, rule.0@)->Some_0;
        assert(keeps(a.nodes@[j], b.nodes@[j]));
    }
}

proof fn lemma_mapped_kept(a: NodeMap, b: NodeMap, src: EnumValueSrc, v: i64)
    requires
        frame(a, b),
        fills(a, b),
        mapped_value(a, src, v),
    ensures
        mapped_value(b, src, v),
{
    lemma_frame(a, b);
    match src {
        EnumValueSrc::FromNode(p) => {
            let j = lookup(a.nodes@, p@)->Some_0;
            assert(keeps(a.nodes@[j], b.nodes@[j]));
        },
        _ => {},
    }
}

proof fn lemma_first_value_found(values: Seq<i64>, raw: i64, k: int)
    requires
        0 <= k < values.len(),
        values[k] == raw,
    ensures
        first_value_index(values, raw) <= k,
    decreases values.len(),
{
    if k < values.len() - 1 {
        assert(values.drop_last()[k] == raw);
        lemma_first_value_found(values.drop_last(), raw, k);
    } else {
        lemma_first_value_index_bound(values.drop_last(), raw);
    }
}

proof fn lemma_first_value_index_bound(values: Seq<i64>, raw: i64)
    ensures
        first_value_index(values, raw) <= values.len(),
    decreases values.len(),
{
    if values.len() > 0 {
        lemma_first_value_index_bound(values.drop_last(), raw);
    }
}

/// Whether the register block `(a, l)` is the one `addressing` names in state `m`: its fixed
/// block, the block its selector's cached value maps to, or the positive address its
/// address node holds in its cache.
pub open spec fn addr_from(m: NodeMap, addressing: Addressing, a: u64, l: u32) -> bool {
    match addressing {
        Addressing::Fixed { address, len } => a == address && l == len,
        Addressing::BySelector { selector, map } => lookup(m.nodes@, selector@) matches Some(j) && cached_text(
            m.nodes@[j],
        ) matches Some(t) && key_index(table_view(map@), t) < map@.len() && (a, l) == map@[key_index(
            table_view(map@),
            t,
        )].1,
        Addressing::Indirect { p_address_node, len } => lookup(m.nodes@, p_address_node@) matches Some(j)
            && m.nodes@[j] matches Node::Integer(y) && y.cache.content() matches Some(v) && v > 0 && a == v as u64
            && l == len,
    }
}

/// Whether the device answered with `d` a read of the block that `addressing` names in a
/// state `m` that keeps the nodes of `a` and every value `a` has cached.
pub open spec fn device_gave<IO: RegisterIo>(io: &IO, a: NodeMap, addressing: Addressing, d: Seq<u8>) -> bool {
    exists|m: NodeMap, x: u64, l: u32|
        frame(a, m) && fills(a, m) && #[trigger] addr_from(m, addressing, x, l) && io.read_gave(x, l as usize, d)
}

/// A value that the register-backed node `y` holds and that its earlier self `x`, in state
/// `a`, did not hold, is what bytes the device answered for its register stand for.
pub open spec fn fresh_node<IO: RegisterIo>(io: &IO, a: NodeMap, x: Node, y: Node) -> bool {
    match (x, y) {
        (Node::Integer(x), Node::Integer(y)) => (x.cache.content() is None && y.cache.content() is Some) ==> exists|
            d: Seq<u8>,
        | device_gave(io, a, x.addressing, d) && #[trigger] int_decode(d, x.bitfield, x.min) == y.cache.content(),
        (Node::Boolean(x), Node::Boolean(y)) => (x.cache.content() is None && y.cache.content() is Some) ==> exists|
            d: Seq<u8>,
        | device_gave(io, a, x.addressing, d) && #[trigger] bool_decode(d, x.bitfield) == y.cache.content(),
        (Node::Float(x), Node::Float(y)) => (x.cache.content() is None && y.cache.content() is Some) ==> exists|
            d: Seq<u8>,
        | device_gave(io, a, x.addressing, d) && #[trigger] int_decode(d, None, 0) == y.cache.content(),
        _ => true,
    }
}

/// Every value cached in `b` that was not cached in `a` came from the device.
pub open spec fn from_device<IO: RegisterIo>(io: &IO, a: NodeMap, b: NodeMap) -> bool {
    forall|j: int| 0 <= j < a.nodes@.len() ==> #[trigger] fresh_node(io, a, a.nodes@[j], b.nodes@[j])
}

proof fn lemma_frame_fills_refl(a: NodeMap)
    ensures
        frame(a, a),
        fills(a, a),
{
    assert forall|i: int| 0 <= i < a.nodes@.len() implies #[trigger] same_meta(a.nodes@[i], a.nodes@[i]) by {}
    assert forall|i: int| 0 <= i < a.nodes@.len() implies #[trigger] keeps(a.nodes@[i], a.nodes@[i]) by {}
}

proof fn lemma_device_gave_back<IO: RegisterIo>(io: &IO, a: NodeMap, b: NodeMap, addressing: Addressing, d: Seq<u8>)
    requires
        frame(a, b),
        fills(a, b),
        device_gave(io, b, addressing, d),
    ensures
        device_gave(io, a, addressing, d),
{
    let (m, x, l) = choose|m: NodeMap, x: u64, l: u32|
        frame(b, m) && fills(b, m) && #[trigger] addr_from(m, addressing, x, l) && io.read_gave(x, l as usize, d);
    lemma_frame_trans(a, b, m);
    lemma_fills_trans(a, b, m);
}

proof fn lemma_from_device_refl<IO: RegisterIo>(io: &IO, a: NodeMap)
    ensures
        from_device(io, a, a),
{
    assert forall|j: int| 0 <= j < a.nodes@.len() implies #[trigger] fresh_node(io, a, a.nodes@[j], a.nodes@[j]) by {}
}

proof fn lemma_from_device_trans<IO: RegisterIo>(io: &IO, a: NodeMap, b: NodeMap, c: NodeMap)
    requires
        frame(a, b),
        fills(a, b),
        frame(b, c),
        forall|j: int| 0 <= j < b.nodes@.len() && !(b.nodes@[j] is Enum) ==> #[trigger] keeps(b.nodes@[j], c.nodes@[j]),
        from_device(io, a, b),
        from_device(io, b, c),
    ensures
        from_device(io, a, c),
{
    assert forall|j: int| 0 <= j < a.nodes@.len() implies #[trigger] fresh_node(io, a, a.nodes@[j], c.nodes@[j]) by {
        let x = a.nodes@[j];
        let y = b.nodes@[j];
        let z = c.nodes@[j];
        assert(fresh_node(io, a, x, y));
        assert(fresh_node(io, b, y, z));
        assert(same_meta(x, y));
        assert(keeps(x, y));
        assert(same_meta(y, z));
        if !(y is Enum) {
            assert(keeps(y, z));
        }
        match (x, y, z) {
            (Node::Integer(x0), Node::Integer(y0), Node::Integer(z0)) => {
                if x0.cache.content() is None && z0.cache.content() is Some && y0.cache.content() is None {
                    let d = choose|d: Seq<u8>| device_gave(io, b, y0.addressing, d) && #[trigger] int_decode(d, y0.bitfield, y0.min) == z0.cache.content();
                    lemma_device_gave_back(io, a, b, y0.addressing, d);
                }
            },
            (Node::Boolean(x0), Node::Boolean(y0), Node::Boolean(z0)) => {
                if x0.cache.content() is None && z0.cache.content() is Some && y0.cache.content() is None {
                    let d = choose|d: Seq<u8>| device_gave(io, b, y0.addressing, d) && #[trigger] bool_decode(d, y0.bitfield) == z0.cache.content();
                    lemma_device_gave_back(io, a, b, y0.addressing, d);
                }
            },
            (Node::Float(x0), Node::Float(y0), Node::Float(z0)) => {
                if x0.cache.content() is None && z0.cache.content() is Some && y0.cache.content() is None {
                    let d = choose|d: Seq<u8>| device_gave(io, b, y0.addressing, d) && #[trigger] int_decode(d, None, 0) == z0.cache.content();
                    lemma_device_gave_back(io, a, b, y0.addressing, d);
                }
            },
            _ => {},
        }
    }
}

/// A store into node `i` alone, of a value that came from the device, keeps the caches
/// coming from it.
proof fn lemma_from_device_store<IO: RegisterIo>(io: &IO, a: NodeMap, b: NodeMap, i: int)
    requires
        b.nodes@.len() == a.nodes@.len(),
        0 <= i < a.nodes@.len(),
        forall|j: int| 0 <= j < b.nodes@.len() && j != i ==> b.nodes@[j] == a.nodes@[j],
        fresh_node(io, a, a.nodes@[i], b.nodes@[i]),
    ensures
        from_device(io, a, b),
{
    assert forall|j: int| 0 <= j < a.nodes@.len() implies #[trigger] fresh_node(io, a, a.nodes@[j], b.nodes@[j]) by {
        if j != i {
            assert(b.nodes@[j] == a.nodes@[j]);
        }
    }
}

/// A store into the enumeration node `i` alone keeps the values that came from the device.
proof fn lemma_from_device_enum_store<IO: RegisterIo>(io: &IO, a: NodeMap, b: NodeMap, c: NodeMap, i: int)
    requires
        frame(a, b),
        fills(a, b),
        from_device(io, a, b),
        frame(b, c),
        0 <= i < b.nodes@.len(),
        b.nodes@[i] is Enum,
        c.nodes@[i] is Enum,
        forall|j: int| 0 <= j < c.nodes@.len() && j != i ==> c.nodes@[j] == b.nodes@[j],
    ensures
        from_device(io, a, c),
{
    lemma_from_device_store(io, b, c, i);
    assert forall|j: int| 0 <= j < b.nodes@.len() && !(b.nodes@[j] is Enum) implies #[trigger] keeps(b.nodes@[j], c.nodes@[j]) by {
        assert(c.nodes@[j] == b.nodes@[j]);
    }
    lemma_from_device_trans(io, a, b, c);
}

/// The value node `i` now holds was decoded from the bytes `raw` it had no value before.
pub open spec fn decoded_from(x: Node, y: Node, raw: Seq<u8>) -> bool {
    match (x, y) {
        (Node::Integer(x), Node::Integer(y)) => x.cache.content() is None && y.cache.content() is Some
            && y.cache.content() == int_decode(raw, x.bitfield, x.min),
        (Node::Boolean(x), Node::Boolean(y)) => x.cache.content() is None && y.cache.content() is Some
            && y.cache.content() == bool_decode(raw, x.bitfield),
        (Node::Float(x), Node::Float(y)) => x.cache.content() is None && y.cache.content() is Some
            && y.cache.content() == int_decode(raw, None, 0),
        _ => false,
    }
}

/// Storing into node `i` alone the value the device's answer `raw` for its register stands
/// for keeps every cache and adds one that came from the device.
proof fn lemma_read_store<IO: RegisterIo>(io: &IO, s2: NodeMap, s3: NodeMap, i: int, a: u64, l: u32, raw: Seq<u8>)
    requires
        frame(s2, s3),
        0 <= i < s2.nodes@.len(),
        forall|j: int| 0 <= j < s3.nodes@.len() && j != i ==> s3.nodes@[j] == s2.nodes@[j],
        s2.nodes@[i].addressing_of() is Some,
        addr_from(s2, s2.nodes@[i].addressing_of()->Some_0, a, l),
        io.read_gave(a, l as usize, raw),
        decoded_from(s2.nodes@[i], s3.nodes@[i], raw),
    ensures
        fills(s2, s3),
        from_device(io, s2, s3),
{
    assert forall|j: int| 0 <= j < s2.nodes@.len() implies #[trigger] keeps(s2.nodes@[j], s3.nodes@[j]) by {
        if j != i {
            assert(s3.nodes@[j] == s2.nodes@[j]);
        }
    }
    let ad = s2.nodes@[i].addressing_of()->Some_0;
    lemma_frame_fills_refl(s2);
    assert(device_gave(io, s2, ad, raw));
    lemma_from_device_store(io, s2, s3, i);
}

/// A node that no selector gates and that lives at a fixed register block: nothing but its
/// own cache and the device decide what a read of it gives.
pub open spec fn plain_fixed(n: Node) -> bool {
    &&& n.addressing_of() matches Some(Addressing::Fixed { .. })
    &&& forall|k: int| 0 <= k < n.rules_of().len() ==> (#[trigger] n.rules_of()[k]).1@.len() == 0
}

/// The value a read of the integer node `name` owes without asking the device: the node
/// is plain, fixed and readable, and holds one.
pub open spec fn owed_integer(m: NodeMap, name: Seq<char>) -> Option<i64> {
    match lookup(m.nodes@, name) {
        Some(i) => match m.nodes@[i] {
            Node::Integer(x) => if plain_fixed(m.nodes@[i]) && x.access != AccessMode::WO { x.cache.content() } else { None },
            _ => None,
        },
        None => None,
    }
}

/// The value a read of the boolean node `name` owes without asking the device.
pub open spec fn owed_bool(m: NodeMap, name: Seq<char>) -> Option<bool> {
    match lookup(m.nodes@, name) {
        Some(i) => match m.nodes@[i] {
            Node::Boolean(x) => if plain_fixed(m.nodes@[i]) && x.access != AccessMode::WO { x.cache.content() } else { None },
            _ => None,
        },
        None => None,
    }
}

/// The entry a read of the enumeration node `name` owes without asking the device.
pub open spec fn owed_enum(m: NodeMap, name: Seq<char>) -> Option<String> {
    match lookup(m.nodes@, name) {
        Some(i) => match m.nodes@[i] {
            Node::Enum(x) => if plain_fixed(m.nodes@[i]) && x.access != AccessMode::WO { x.value_cache.content() } else { None },
            _ => None,
        },
        None => None,
    }
}

/// The raw value a read of the floating point node `name` owes without asking the device.
pub open spec fn owed_float(m: NodeMap, name: Seq<char>) -> Option<i64> {
    match lookup(m.nodes@, name) {
        Some(i) => match m.nodes@[i] {
            Node::Float(x) => if plain_fixed(m.nodes@[i]) && x.access != AccessMode::WO { x.cache.content() } else { None },
            _ => None,
        },
        None => None,
    }
}

/// Whether `(x, l)` is the register block `addressing` names in some state that keeps the
/// nodes of `a` and every value `a` has cached.
pub open spec fn block_named(a: NodeMap, addressing: Addressing, x: u64, l: u32) -> bool {
    exists|m: NodeMap| frame(a, m) && fills(a, m) && #[trigger] addr_from(m, addressing, x, l)
}

/// What a write of `value` to the integer node `name` hands the device: bytes that stand
/// for `value` (the big-endian two's complement of the block's length, for a node without
/// bitfield), written at the node's register block; and, for a plain fixed writable node,
/// a value off its limits is refused with `Range`.
pub open spec fn integer_sent<IO: RegisterIo>(io: &IO, old: NodeMap, name: Seq<char>, value: i64, r: Result<(), GenApiError>) -> bool {
    match lookup(old.nodes@, name) {
        Some(i) => match old.nodes@[i] {
            Node::Integer(x) => (r is Ok ==> exists|a: u64, l: u32, d: Seq<u8>|
                #![trigger block_named(old, x.addressing, a, l), io.took(a, d)]
                block_named(old, x.addressing, a, l) && io.took(a, d) && int_decode(d, x.bitfield, x.min) == Some(value)
                    && (x.bitfield is None ==> d == be_bytes(bits64(value as int), l as nat)))
                && (plain_fixed(old.nodes@[i]) && x.access != AccessMode::RO && !integer_allowed(
                value as int,
                x.min as int,
                x.max as int,
                x.inc,
            ) ==> (r matches Err(GenApiError::Range(n)) && n@ == name)),
            _ => true,
        },
        None => true,
    }
}

/// A write of `value` to the integer node `name` that nothing refuses: a plain, fixed,
/// writable node without bit field, a value within its limits that fits its register, and
/// a device that accepts the bytes standing for it. Such a write succeeds.
pub open spec fn integer_accepted<IO: RegisterIo>(io: &IO, old: NodeMap, name: Seq<char>, value: i64, r: Result<(), GenApiError>) -> bool {
    match lookup(old.nodes@, name) {
        Some(i) => match old.nodes@[i] {
            Node::Integer(x) => match x.addressing {
                Addressing::Fixed { address, len } => (plain_fixed(old.nodes@[i]) && x.access != AccessMode::RO
                    && x.bitfield is None && integer_allowed(value as int, x.min as int, x.max as int, x.inc) && 1
                    <= len <= 8 && fits_signed(value as int, len as nat) && io.accepts(
                    address,
                    be_bytes(bits64(value as int), len as nat),
                )) ==> r is Ok,
                _ => true,
            },
            _ => true,
        },
        None => true,
    }
}

/// What a write of `value` to the boolean node `name` hands the device: register bytes
/// whose bit field stands for `value`, written at the node's register block.
pub open spec fn bool_sent<IO: RegisterIo>(io: &IO, old: NodeMap, name: Seq<char>, value: bool, r: Result<(), GenApiError>) -> bool {
    match lookup(old.nodes@, name) {
        Some(i) => match old.nodes@[i] {
            Node::Boolean(x) => r is Ok ==> exists|a: u64, l: u32, d: Seq<u8>|
                #![trigger block_named(old, x.addressing, a, l), io.took(a, d)]
                block_named(old, x.addressing, a, l) && io.took(a, d) && bool_decode(d, x.bitfield) == Some(value),
            _ => true,
        },
        None => true,
    }
}

/// Whether entry `k` is the first of the list named `e`.
pub open spec fn first_named(entries: Seq<EnumEntryDecl>, e: Seq<char>, k: int) -> bool {
    &&& 0 <= k < entries.len()
    &&& entries[k].name@ == e
    &&& forall|j: int| 0 <= j < k ==> (#[trigger] entries[j]).name@ != e
}

/// What a write of entry `entry` to the enumeration node `name` hands the device: the
/// big-endian two's complement, of the block's length, of the value of the first entry so
/// named (its literal, when it has one), written at the node's register block; and, for a
/// plain fixed writable node, a name no entry has is refused with `EnumNoSuchEntry`.
pub open spec fn enum_sent<IO: RegisterIo>(io: &IO, old: NodeMap, name: Seq<char>, entry: Seq<char>, r: Result<(), GenApiError>) -> bool {
    match lookup(old.nodes@, name) {
        Some(i) => match old.nodes@[i] {
            Node::Enum(x) => (r is Ok ==> exists|a: u64, l: u32, v: i64, k: int|
                #![trigger block_named(old, x.addressing, a, l), io.took(a, be_bytes(bits64(v as int), l as nat)), x.entries@[k]]
                block_named(old, x.addressing, a, l) && io.took(a, be_bytes(bits64(v as int), l as nat)) && first_named(
                    x.entries@,
                    entry,
                    k,
                ) && (x.entries@[k].value matches EnumValueSrc::Literal(lit) ==> v == lit))
                && (ungated(old.nodes@[i]) && addressing_settles(old, x.addressing) && x.access != AccessMode::RO
                && !has_entry(x.entries@, entry) ==> (r matches Err(GenApiError::EnumNoSuchEntry { node, entry: e })
                && node@ == name && e@ == entry)),
            _ => true,
        },
        None => true,
    }
}

/// The text a read of the selector `sel` owes without asking the device: the selector is an
/// enumeration, boolean or integer node, plain, fixed and readable, and holds a value.
pub open spec fn selector_owed(m: NodeMap, sel: Seq<char>) -> Option<Seq<char>> {
    match lookup(m.nodes@, sel) {
        Some(j) => match m.nodes@[j] {
            Node::Enum(x) => if plain_fixed(m.nodes@[j]) && x.access != AccessMode::WO { cached_text(m.nodes@[j]) } else { None },
            Node::Boolean(x) => if plain_fixed(m.nodes@[j]) && x.access != AccessMode::WO { cached_text(m.nodes@[j]) } else { None },
            Node::Integer(x) => if plain_fixed(m.nodes@[j]) && x.access != AccessMode::WO { cached_text(m.nodes@[j]) } else { None },
            _ => None,
        },
        None => None,
    }
}

/// What an access through `addressing` owes when the node its block depends on is settled
/// without the device: a selector value the table does not map refuses the access with
/// `Unavailable`, and an address node holding zero or less refuses it with
/// `BadIndirectAddress`.
pub open spec fn addressing_refuses<T>(m: NodeMap, name: Seq<char>, addressing: Addressing, r: Result<T, GenApiError>) -> bool {
    match addressing {
        Addressing::BySelector { selector, map } => match selector_owed(m, selector@) {
            Some(t) => key_index(table_view(map@), t) >= map@.len() ==> (r matches Err(GenApiError::Unavailable(msg))
                && msg@ == unavailable_msg(name, selector@, t)),
            None => true,
        },
        Addressing::Indirect { p_address_node, len } => match owed_integer(m, p_address_node@) {
            Some(v) => v <= 0 ==> (r matches Err(GenApiError::BadIndirectAddress { name: n, addr }) && n@ == name && addr
                == v),
            None => true,
        },
        Addressing::Fixed { .. } => true,
    }
}

/// A node no selector gates.
pub open spec fn ungated(n: Node) -> bool {
    forall|k: int| 0 <= k < n.rules_of().len() ==> (#[trigger] n.rules_of()[k]).1@.len() == 0
}

/// Whether a read (`write` false) or a write of the register-backed node `n` passes its
/// access mode.
pub open spec fn access_passes(n: Node, write: bool) -> bool {
    match n {
        Node::Integer(x) => if write { x.access != AccessMode::RO } else { x.access != AccessMode::WO },
        Node::Boolean(x) => if write { x.access != AccessMode::RO } else { x.access != AccessMode::WO },
        Node::Enum(x) => if write { x.access != AccessMode::RO } else { x.access != AccessMode::WO },
        Node::Float(x) => if write { x.access != AccessMode::RO } else { x.access != AccessMode::WO },
        _ => false,
    }
}

/// Whether an access through `addressing` finds its register block without asking the
/// device: a fixed block; a selector whose owed value the table maps; an address node
/// owing an address above zero.
pub open spec fn addressing_settles(m: NodeMap, addressing: Addressing) -> bool {
    match addressing {
        Addressing::Fixed { .. } => true,
        Addressing::BySelector { selector, map } => selector_owed(m, selector@) matches Some(t) && key_index(
            table_view(map@),
            t,
        ) < map@.len(),
        Addressing::Indirect { p_address_node, .. } => owed_integer(m, p_address_node@) matches Some(v) && v > 0,
    }
}

/// An access to the ungated node `name` of kind `tag` that its access mode lets through is
/// refused as its addressing owes.
pub open spec fn access_refuses<T>(m: NodeMap, name: Seq<char>, tag: NodeTag, write: bool, r: Result<T, GenApiError>) -> bool {
    match lookup(m.nodes@, name) {
        Some(i) => tag_of_node(m.nodes@[i]) == tag && ungated(m.nodes@[i]) && access_passes(m.nodes@[i], write) ==> addressing_refuses(
            m,
            name,
            m.nodes@[i].addressing_of()->Some_0,
            r,
        ),
        None => true,
    }
}

proof fn lemma_refuses_kept<T, U>(a: NodeMap, b: NodeMap, name: Seq<char>, addressing: Addressing, r: Result<T, GenApiError>, q: Result<U, GenApiError>)
    requires
        frame(a, b),
        fills(a, b),
        addressing_refuses(b, name, addressing, r),
        r is Err ==> (q matches Err(e) && r->Err_0 == e),
    ensures
        addressing_refuses(a, name, addressing, q),
{
    match addressing {
        Addressing::BySelector { selector, .. } => lemma_owed_kept(a, b, selector@),
        Addressing::Indirect { p_address_node, .. } => lemma_owed_kept(a, b, p_address_node@),
        _ => {},
    }
}

proof fn lemma_owed_kept(a: NodeMap, b: NodeMap, k: Seq<char>)
    requires
        frame(a, b),
        fills(a, b),
    ensures
        owed_integer(a, k) is Some ==> owed_integer(b, k) == owed_integer(a, k),
        selector_owed(a, k) is Some ==> selector_owed(b, k) == selector_owed(a, k),
{
    lemma_frame(a, b);
    if lookup(a.nodes@, k) is Some {
        let j = lookup(a.nodes@, k)->Some_0;
        assert(same_meta(a.nodes@[j], b.nodes@[j]));
        assert(keeps(a.nodes@[j], b.nodes@[j]));
        lemma_same_meta_parts(a.nodes@[j], b.nodes@[j]);
    }
}

/// Message of the error for a dependency chain longer than the map allows (a node that,
/// through selectors, addresses or providers, depends on itself).
pub open spec fn too_deep_msg(name: Seq<char>) -> Seq<char> {
    "dependency chain through node "@ + name + " is too long"@
}

fn too_deep(name: &String) -> (e: GenApiError)
    ensures
        e matches GenApiError::Parse(m) && m@ == too_deep_msg(name@),
{
    let mut m = String::from_str("dependency chain through node ");
    m.append(name.as_str());
    m.append(" is too long");
    GenApiError::Parse(m)
}

/// How a node's register is found.
enum AddrPlan {
    Fixed(u64, u32),
    Selector(String),
    Indirect(String, u32),
}

/// The text of a boolean as `bool::to_string` writes it.
fn bool_text(b: bool) -> (s: String)
    ensures
        s@ == (if b { "true"@ } else { "false"@ }),
{
    if b {
        String::from_str("true")
    } else {
        String::from_str("false")
    }
}

/// Where an entry's value comes from, with the provider's name copied out.
enum EntrySrc {
    Literal(i64),
    Provider(String),
}

/// What a read of the integer node `name` gives: a missing node, a node of another kind and
/// a write-only node are refused; a value returned is the node's cached value afterwards.
pub open spec fn integer_read(old: NodeMap, new: NodeMap, name: Seq<char>, r: Result<i64, GenApiError>) -> bool {
    match lookup(old.nodes@, name) {
        None => r matches Err(GenApiError::NodeNotFound(n)) && n@ == name,
        Some(i) => match old.nodes@[i] {
            Node::Integer(x) => (x.access == AccessMode::WO ==> (r matches Err(GenApiError::Access(n)) && n@ == name))
                && (r matches Ok(v) ==> (new.nodes@[i] matches Node::Integer(y) && y.cache.content() == Some(v)))
                && (x.cache.content() matches Some(c) ==> (r matches Ok(v) ==> v == c)),
            _ => r matches Err(GenApiError::Type(n)) && n@ == name,
        },
    }
}

/// What a read of the boolean node `name` gives, as for integers.
pub open spec fn bool_read(old: NodeMap, new: NodeMap, name: Seq<char>, r: Result<bool, GenApiError>) -> bool {
    match lookup(old.nodes@, name) {
        None => r matches Err(GenApiError::NodeNotFound(n)) && n@ == name,
        Some(i) => match old.nodes@[i] {
            Node::Boolean(x) => (x.access == AccessMode::WO ==> (r matches Err(GenApiError::Access(n)) && n@ == name))
                && (r matches Ok(v) ==> (new.nodes@[i] matches Node::Boolean(y) && y.cache.content() == Some(v)))
                && (x.cache.content() matches Some(c) ==> (r matches Ok(v) ==> v == c)),
            _ => r matches Err(GenApiError::Type(n)) && n@ == name,
        },
    }
}

/// What a read of the enumeration node `name` gives: the entry name returned is the node's
/// cached entry afterwards.
pub open spec fn enum_read(old: NodeMap, new: NodeMap, name: Seq<char>, r: Result<String, GenApiError>) -> bool {
    match lookup(old.nodes@, name) {
        None => r matches Err(GenApiError::NodeNotFound(n)) && n@ == name,
        Some(i) => match old.nodes@[i] {
            Node::Enum(x) => (x.access == AccessMode::WO ==> (r matches Err(GenApiError::Access(n)) && n@ == name))
                && (r matches Ok(v) ==> (new.nodes@[i] matches Node::Enum(y) && y.value_cache.content() == Some(v)))
                && (r matches Ok(v) ==> has_entry(x.entries@, v@))
                && (x.value_cache.content() matches Some(c) ==> (r matches Ok(v) ==> v == c)),
            _ => r matches Err(GenApiError::Type(n)) && n@ == name,
        },
    }
}

/// Message of the `Parse` error for a selector of a kind that has no textual value.
pub open spec fn unsupported_selector_msg(selector: Seq<char>) -> Seq<char> {
    "selector "@ + selector + " has unsupported type"@
}

/// The text of a selector's value: an entry name, `true`/`false`, or a decimal number.
pub open spec fn selector_read(old: NodeMap, name: Seq<char>, r: Result<String, GenApiError>) -> bool {
    match lookup(old.nodes@, name) {
        None => r matches Err(GenApiError::NodeNotFound(n)) && n@ == name,
        Some(i) => match old.nodes@[i] {
            Node::Enum(_) | Node::Boolean(_) | Node::Integer(_) => true,
            _ => r matches Err(GenApiError::Parse(m)) && m@ == unsupported_selector_msg(name),
        },
    }
}

impl NodeMap {
    fn store_integer(&mut self, i: usize, value: i64, raw: Vec<u8>)
        requires
            old(self).valid(),
            i < old(self).nodes@.len(),
            old(self).nodes@[i as int] matches Node::Integer(x) && int_decode(raw@, x.bitfield, x.min) == Some(value),
        ensures
            final(self).valid(),
            frame(*old(self), *final(self)),
            final(self).generation == old(self).generation,
            final(self).nodes@[i as int] matches Node::Integer(y) && y.cache.content() == Some(value)
                && y.raw_cache.content() == Some(raw),
            forall|j: int| 0 <= j < final(self).nodes@.len() && j != i ==> final(self).nodes@[j] == old(self).nodes@[j],
    {
        let ghost s0 = *self;
        let mut node = self.nodes.remove(i);
        match &mut node {
            Node::Integer(x) => {
                x.cache.store(value);
                x.raw_cache.store(raw);
            },
            _ => {},
        }
        self.nodes.insert(i, node);
        proof {
            assert(self.nodes@ =~= s0.nodes@.update(i as int, node));
            lemma_frame(s0, *self);
        }
    }

    fn store_bool(&mut self, i: usize, value: bool, raw: Vec<u8>)
        requires
            old(self).valid(),
            i < old(self).nodes@.len(),
            old(self).nodes@[i as int] matches Node::Boolean(x) && bool_decode(raw@, x.bitfield) == Some(value),
        ensures
            final(self).valid(),
            frame(*old(self), *final(self)),
            final(self).generation == old(self).generation,
            final(self).nodes@[i as int] matches Node::Boolean(y) && y.cache.content() == Some(value)
                && y.raw_cache.content() == Some(raw),
            forall|j: int| 0 <= j < final(self).nodes@.len() && j != i ==> final(self).nodes@[j] == old(self).nodes@[j],
    {
        let ghost s0 = *self;
        let mut node = self.nodes.remove(i);
        match &mut node {
            Node::Boolean(x) => {
                x.cache.store(value);
                x.raw_cache.store(raw);
            },
            _ => {},
        }
        self.nodes.insert(i, node);
        proof {
            assert(self.nodes@ =~= s0.nodes@.update(i as int, node));
            lemma_frame(s0, *self);
        }
    }

    fn store_enum(&mut self, i: usize, value: Option<String>, mapping: Option<EnumMapping>)
        requires
            old(self).valid(),
            i < old(self).nodes@.len(),
            old(self).nodes@[i as int] is Enum,
            value matches Some(v) ==> has_entry(old(self).nodes@[i as int]->Enum_0.entries@, v@),
        ensures
            final(self).valid(),
            frame(*old(self), *final(self)),
            final(self).generation == old(self).generation,
            final(self).nodes@[i as int] matches Node::Enum(y) && (value matches Some(v) ==> y.value_cache.content() == Some(v))
                && (mapping matches Some(m) ==> y.mapping_cache.content() == Some(m))
                && (value is None ==> y.value_cache.content() == old(self).nodes@[i as int]->Enum_0.value_cache.content()),
            forall|j: int| 0 <= j < final(self).nodes@.len() && j != i ==> final(self).nodes@[j] == old(self).nodes@[j],
    {
        let ghost s0 = *self;
        let mut node = self.nodes.remove(i);
        match &mut node {
            Node::Enum(x) => {
                match value {
                    Some(v) => x.value_cache.store(v),
                    None => {},
                }
                match mapping {
                    Some(m) => x.mapping_cache.store(m),
                    None => {},
                }
            },
            _ => {},
        }
        self.nodes.insert(i, node);
        proof {
            assert(self.nodes@ =~= s0.nodes@.update(i as int, node));
            assert(coherent(s0.nodes@[i as int]));
            assert(coherent(node));
            lemma_frame(s0, *self);
        }
    }

    fn get_integer_at<IO: RegisterIo>(&mut self, name: &String, io: &IO, depth: usize) -> (r: Result<i64, GenApiError>)
        requires
            old(self).valid(),
        ensures
            final(self).valid(),
            frame(*old(self), *final(self)),
            fills(*old(self), *final(self)),
            from_device(io, *old(self), *final(self)),
            final(self).generation == old(self).generation,
            integer_read(*old(self), *final(self), name@, r),
            depth > 0 && owed_integer(*old(self), name@) is Some ==> r == Ok::<i64, GenApiError>(owed_integer(*old(self), name@)->Some_0),
            depth > 1 ==> access_refuses(*old(self), name@, NodeTag::Integer, false, r),
        decreases depth, 0usize,
    {
        let ghost s0 = *self;
        proof {
            lemma_from_device_refl(io, s0);
        }
        let i = match self.find(name) {
            None => return Err(GenApiError::NodeNotFound(name.clone())),
            Some(i) => i,
        };
        let access = match &self.nodes[i] {
            Node::Integer(x) => x.access,
            _ => return Err(GenApiError::Type(name.clone())),
        };
        match ensure_readable(&access, name.as_str()) {
            Err(e) => return Err(e),
            Ok(()) => {},
        }
        if depth == 0 {
            return Err(too_deep(name));
        }
        match self.ensure_selectors_at(name, i, io, depth - 1) {
            Err(e) => return Err(e),
            Ok(()) => {},
        }
        let ghost s1 = *self;
        let resolved = self.resolve_address_at(name, i, io, depth - 1);
        proof {
            if depth > 1 && s1.nodes@[i as int].addressing_of() is Some {
                lemma_refuses_kept(s0, s1, name@, s1.nodes@[i as int].addressing_of()->Some_0, resolved, resolved);
            }
        }
        proof {
            lemma_frame_trans(s0, s1, *self);
            lemma_fills_trans(s0, s1, *self);
            lemma_from_device_trans(io, s0, s1, *self);
            lemma_same_meta_parts(s0.nodes@[i as int], s1.nodes@[i as int]);
        }
        let (address, len) = match resolved {
            Err(e) => return Err(e),
            Ok(p) => p,
        };
        proof {
            lemma_same_meta_parts(s0.nodes@[i as int], self.nodes@[i as int]);
            assert(keeps(s0.nodes@[i as int], self.nodes@[i as int]));
        }
        let (cached, bitfield, min) = match &self.nodes[i] {
            Node::Integer(x) => (
                match x.cache.get() {
                    Some(v) => Some(*v),
                    None => None,
                },
                x.bitfield,
                x.min,
            ),
            _ => return Err(GenApiError::Type(name.clone())),
        };
        match cached {
            Some(v) => return Ok(v),
            None => {},
        }
        let raw = match io.read(address, len as usize) {
            Err(e) => return Err(e),
            Ok(b) => b,
        };
        let value = match bitfield {
            Some(bf) => {
                let ex = match extract(raw.as_slice(), bf) {
                    Err(e) => return Err(map_bitops_error(name.as_str(), e)),
                    Ok(x) => x,
                };
                match interpret_bitfield_value(name.as_str(), ex, bf.bit_length, min < 0) {
                    Err(e) => return Err(e),
                    Ok(v) => v,
                }
            },
            None => match bytes_to_i64(name.as_str(), raw.as_slice()) {
                Err(e) => return Err(e),
                Ok(v) => v,
            },
        };
        let ghost s2 = *self;
        let ghost raw_v = raw@;
        self.store_integer(i, value, raw);
        proof {
            lemma_frame_trans(s0, s2, *self);
            lemma_fills_store(s0, s2, *self, i as int);
            lemma_same_meta_parts(s1.nodes@[i as int], s2.nodes@[i as int]);
            lemma_read_store(io, s2, *self, i as int, address, len, raw_v);
            lemma_from_device_trans(io, s0, s2, *self);
        }
        Ok(value)
    }

    fn get_bool_at<IO: RegisterIo>(&mut self, name: &String, io: &IO, depth: usize) -> (r: Result<bool, GenApiError>)
        requires
            old(self).valid(),
        ensures
            final(self).valid(),
            frame(*old(self), *final(self)),
            fills(*old(self), *final(self)),
            from_device(io, *old(self), *final(self)),
            final(self).generation == old(self).generation,
            bool_read(*old(self), *final(self), name@, r),
            depth > 0 && owed_bool(*old(self), name@) is Some ==> r == Ok::<bool, GenApiError>(owed_bool(*old(self), name@)->Some_0),
            depth > 1 ==> access_refuses(*old(self), name@, NodeTag::Boolean, false, r),
        decreases depth, 0usize,
    {
        let ghost s0 = *self;
        proof {
            lemma_from_device_refl(io, s0);
        }
        let i = match self.find(name) {
            None => return Err(GenApiError::NodeNotFound(name.clone())),
            Some(i) => i,
        };
        let access = match &self.nodes[i] {
            Node::Boolean(x) => x.access,
            _ => return Err(GenApiError::Type(name.clone())),
        };
        match ensure_readable(&access, name.as_str()) {
            Err(e) => return Err(e),
            Ok(()) => {},
        }
        if depth == 0 {
            return Err(too_deep(name));
        }
        match self.ensure_selectors_at(name, i, io, depth - 1) {
            Err(e) => return Err(e),
            Ok(()) => {},
        }
        let ghost s1 = *self;
        let resolved = self.resolve_address_at(name, i, io, depth - 1);
        proof {
            if depth > 1 && s1.nodes@[i as int].addressing_of() is Some {
                lemma_refuses_kept(s0, s1, name@, s1.nodes@[i as int].addressing_of()->Some_0, resolved, resolved);
            }
        }
        proof {
            lemma_frame_trans(s0, s1, *self);
            lemma_fills_trans(s0, s1, *self);
            lemma_from_device_trans(io, s0, s1, *self);
            lemma_same_meta_parts(s0.nodes@[i as int], s1.nodes@[i as int]);
        }
        let (address, len) = match resolved {
            Err(e) => return Err(e),
            Ok(p) => p,
        };
        proof {
            lemma_same_meta_parts(s0.nodes@[i as int], self.nodes@[i as int]);
            assert(keeps(s0.nodes@[i as int], self.nodes@[i as int]));
        }
        let (cached, bitfield) = match &self.nodes[i] {
            Node::Boolean(x) => (
                match x.cache.get() {
                    Some(v) => Some(*v),
                    None => None,
                },
                x.bitfield,
            ),
            _ => return Err(GenApiError::Type(name.clone())),
        };
        match cached {
            Some(v) => return Ok(v),
            None => {},
        }
        let raw = match io.read(address, len as usize) {
            Err(e) => return Err(e),
            Ok(b) => b,
        };
        let ex = match extract(raw.as_slice(), bitfield) {
            Err(e) => return Err(map_bitops_error(name.as_str(), e)),
            Ok(x) => x,
        };
        let value = ex != 0;
        let ghost s2 = *self;
        let ghost raw_v = raw@;
        self.store_bool(i, value, raw);
        proof {
            lemma_frame_trans(s0, s2, *self);
            lemma_fills_store(s0, s2, *self, i as int);
            lemma_same_meta_parts(s1.nodes@[i as int], s2.nodes@[i as int]);
            lemma_read_store(io, s2, *self, i as int, address, len, raw_v);
            lemma_from_device_trans(io, s0, s2, *self);
        }
        Ok(value)
    }

    fn get_enum_at<IO: RegisterIo>(&mut self, name: &String, io: &IO, depth: usize) -> (r: Result<String, GenApiError>)
        requires
            old(self).valid(),
        ensures
            final(self).valid(),
            frame(*old(self), *final(self)),
            fills(*old(self), *final(self)),
            from_device(io, *old(self), *final(self)),
            final(self).generation == old(self).generation,
            enum_read(*old(self), *final(self), name@, r),
            depth > 0 && owed_enum(*old(self), name@) is Some ==> r == Ok::<String, GenApiError>(owed_enum(*old(self), name@)->Some_0),
            depth > 1 ==> access_refuses(*old(self), name@, NodeTag::Enum, false, r),
        decreases depth, 0usize,
    {
        let ghost s0 = *self;
        proof {
            lemma_from_device_refl(io, s0);
        }
        let i = match self.find(name) {
            None => return Err(GenApiError::NodeNotFound(name.clone())),
            Some(i) => i,
        };
        let access = match &self.nodes[i] {
            Node::Enum(x) => x.access,
            _ => return Err(GenApiError::Type(name.clone())),
        };
        match ensure_readable(&access, name.as_str()) {
            Err(e) => return Err(e),
            Ok(()) => {},
        }
        if depth == 0 {
            return Err(too_deep(name));
        }
        match self.ensure_selectors_at(name, i, io, depth - 1) {
            Err(e) => return Err(e),
            Ok(()) => {},
        }
        let ghost s1 = *self;
        let resolved = self.resolve_address_at(name, i, io, depth - 1);
        proof {
            if depth > 1 && s1.nodes@[i as int].addressing_of() is Some {
                lemma_refuses_kept(s0, s1, name@, s1.nodes@[i as int].addressing_of()->Some_0, resolved, resolved);
            }
        }
        proof {
            lemma_frame_trans(s0, s1, *self);
            lemma_fills_trans(s0, s1, *self);
            lemma_from_device_trans(io, s0, s1, *self);
            lemma_same_meta_parts(s0.nodes@[i as int], s1.nodes@[i as int]);
        }
        let (address, len) = match resolved {
            Err(e) => return Err(e),
            Ok(p) => p,
        };
        proof {
            lemma_same_meta_parts(s0.nodes@[i as int], self.nodes@[i as int]);
            assert(keeps(s0.nodes@[i as int], self.nodes@[i as int]));
            assert(coherent(self.nodes@[i as int]));
            assert(same_meta(s0.nodes@[i as int], self.nodes@[i as int]));
        }
        let cached = match &self.nodes[i] {
            Node::Enum(x) => match x.value_cache.get() {
                Some(v) => Some(v.clone()),
                None => None,
            },
            _ => return Err(GenApiError::Type(name.clone())),
        };
        match cached {
            Some(v) => return Ok(v),
            None => {},
        }
        let raw = match io.read(address, len as usize) {
            Err(e) => return Err(e),
            Ok(b) => b,
        };
        let raw_value = match bytes_to_i64(name.as_str(), raw.as_slice()) {
            Err(e) => return Err(e),
            Ok(v) => v,
        };
        let ghost s2 = *self;
        let looked = self.lookup_enum_entry_at(name, i, raw_value, io, depth - 1);
        let ghost s3 = *self;
        proof {
            lemma_frame_trans(s0, s2, s3);
            lemma_fills_trans(s0, s2, s3);
            lemma_from_device_trans(io, s0, s2, s3);
        }
        let entry = match looked {
            Err(e) => return Err(e),
            Ok(e) => e,
        };
        proof {
            lemma_same_meta_parts(s0.nodes@[i as int], s3.nodes@[i as int]);
            assert(same_meta(s2.nodes@[i as int], s3.nodes@[i as int]));
        }
        let stored = entry.clone();
        self.store_enum(i, Some(stored), None);
        proof {
            lemma_frame_trans(s0, s3, *self);
            lemma_fills_store(s0, s3, *self, i as int);
            lemma_from_device_enum_store(io, s0, s3, *self, i as int);
        }
        Ok(entry)
    }

    fn get_selector_value_at<IO: RegisterIo>(&mut self, selector: &String, io: &IO, depth: usize) -> (r: Result<
        String,
        GenApiError,
    >)
        requires
            old(self).valid(),
        ensures
            final(self).valid(),
            frame(*old(self), *final(self)),
            fills(*old(self), *final(self)),
            from_device(io, *old(self), *final(self)),
            final(self).generation == old(self).generation,
            selector_read(*old(self), selector@, r),
            r matches Ok(v) ==> (lookup(old(self).nodes@, selector@) matches Some(j) && cached_text(
                final(self).nodes@[j],
            ) == Some(v@)),
            depth > 0 && selector_owed(*old(self), selector@) is Some ==> (r matches Ok(v) && v@ == selector_owed(
                *old(self),
                selector@,
            )->Some_0),
        decreases depth, 1usize,
    {
        proof {
            lemma_from_device_refl(io, *self);
        }
        let j = match self.find(selector) {
            None => return Err(GenApiError::NodeNotFound(selector.clone())),
            Some(j) => j,
        };
        let t = self.nodes[j].tag();
        if t != NodeTag::Enum && t != NodeTag::Boolean && t != NodeTag::Integer {
            let mut m = String::from_str("selector ");
            m.append(selector.as_str());
            m.append(" has unsupported type");
            return Err(GenApiError::Parse(m));
        }
        if t == NodeTag::Enum {
            self.get_enum_at(selector, io, depth)
        } else if t == NodeTag::Boolean {
            match self.get_bool_at(selector, io, depth) {
                Err(e) => Err(e),
                Ok(b) => Ok(bool_text(b)),
            }
        } else {
            match self.get_integer_at(selector, io, depth) {
                Err(e) => Err(e),
                Ok(v) => Ok(signed_decimal_string(v)),
            }
        }
    }

    fn ensure_selectors_at<IO: RegisterIo>(&mut self, name: &String, i: usize, io: &IO, depth: usize) -> (r: Result<
        (),
        GenApiError,
    >)
        requires
            old(self).valid(),
            i < old(self).nodes@.len(),
        ensures
            final(self).valid(),
            frame(*old(self), *final(self)),
            fills(*old(self), *final(self)),
            from_device(io, *old(self), *final(self)),
            final(self).generation == old(self).generation,
        r is Ok ==> forall|k: int|
                0 <= k < old(self).nodes@[i as int].rules_of().len() ==> rule_passes(
                    *final(self),
                    #[trigger] old(self).nodes@[i as int].rules_of()[k],
                ),
            (forall|k: int|
                0 <= k < old(self).nodes@[i as int].rules_of().len() ==> (#[trigger] old(self).nodes@[i as int].rules_of()[k]).1@.len()
                    == 0) ==> r is Ok,
        decreases depth, 2usize,
    {
        let ghost s0 = *self;
        proof {
            lemma_from_device_refl(io, s0);
        }
        let n_rules = match self.nodes[i].rules() {
            Some(rs) => rs.len(),
            None => 0,
        };
        let mut k: usize = 0;
        while k < n_rules
            invariant
                s0 == *old(self),
                self.valid(),
                frame(s0, *self),
                fills(s0, *self),
                from_device(io, s0, *self),
                self.generation == s0.generation,
                i < self.nodes@.len(),
                n_rules == s0.nodes@[i as int].rules_of().len(),
                k <= n_rules,
                forall|k2: int| 0 <= k2 < k ==> rule_passes(*self, #[trigger] s0.nodes@[i as int].rules_of()[k2]),
            decreases n_rules - k,
        {
            proof {
                lemma_same_meta_parts(s0.nodes@[i as int], self.nodes@[i as int]);
            }
            let (sel, empty) = match self.nodes[i].rules() {
                Some(rs) => (rs[k].0.clone(), rs[k].1.len() == 0),
                None => return Ok(()),
            };
            if !empty {
                let ghost s1 = *self;
                let got = self.get_selector_value_at(&sel, io, depth);
                proof {
                    lemma_frame_trans(s0, s1, *self);
                    lemma_fills_trans(s0, s1, *self);
                    lemma_from_device_trans(io, s0, s1, *self);
                    assert forall|k2: int| 0 <= k2 < k implies rule_passes(*self, #[trigger] s0.nodes@[i as int].rules_of()[k2]) by {
                        lemma_passes_kept(s1, *self, s0.nodes@[i as int].rules_of()[k2]);
                    }
                }
                let current = match got {
                    Err(e) => return Err(e),
                    Ok(c) => c,
                };
                proof {
                    lemma_same_meta_parts(s0.nodes@[i as int], self.nodes@[i as int]);
                }
                let res = match self.nodes[i].rules() {
                    Some(rs) => gate_check(name, &sel, &rs[k].1, &current),
                    None => Ok(()),
                };
                match res {
                    Err(e) => return Err(e),
                    Ok(()) => {},
                }
                proof {
                    let rule = s0.nodes@[i as int].rules_of()[k as int];
                    lemma_frame(s1, *self);
                    assert(rule.0@ == sel@);
                    assert(texts(rule.1@).contains(current@));
                    assert(rule_passes(*self, rule));
                }
            }
            proof {
                assert(rule_passes(*self, s0.nodes@[i as int].rules_of()[k as int]));
            }
            k = k + 1;
        }
        Ok(())
    }

    fn resolve_address_at<IO: RegisterIo>(&mut self, name: &String, i: usize, io: &IO, depth: usize) -> (r: Result<
        (u64, u32),
        GenApiError,
    >)
        requires
            old(self).valid(),
            i < old(self).nodes@.len(),
        ensures
            final(self).valid(),
            frame(*old(self), *final(self)),
            fills(*old(self), *final(self)),
            from_device(io, *old(self), *final(self)),
            final(self).generation == old(self).generation,
            old(self).nodes@[i as int].addressing_of() matches Some(Addressing::Fixed { address, len }) ==> r
                == Ok::<(u64, u32), GenApiError>((address, len)),
            depth > 0 && old(self).nodes@[i as int].addressing_of() is Some && addressing_settles(
                *old(self),
                old(self).nodes@[i as int].addressing_of()->Some_0,
            ) ==> r is Ok,
            r matches Ok((a, l)) ==> old(self).nodes@[i as int].addressing_of() is Some && addr_from(
                *final(self),
                old(self).nodes@[i as int].addressing_of()->Some_0,
                a,
                l,
            ),
            depth > 0 && old(self).nodes@[i as int].addressing_of() is Some ==> addressing_refuses(
                *old(self),
                name@,
                old(self).nodes@[i as int].addressing_of()->Some_0,
                r,
            ),
        decreases depth, 2usize,
    {
        let ghost s0 = *self;
        proof {
            lemma_from_device_refl(io, s0);
        }
        let plan = match self.nodes[i].addressing() {
            Some(Addressing::Fixed { address, len }) => AddrPlan::Fixed(*address, *len),
            Some(Addressing::BySelector { selector, .. }) => AddrPlan::Selector(selector.clone()),
            Some(Addressing::Indirect { p_address_node, len }) => AddrPlan::Indirect(p_address_node.clone(), *len),
            None => return Err(GenApiError::Type(name.clone())),
        };
        match plan {
            AddrPlan::Fixed(a, l) => Ok((a, l)),
            AddrPlan::Selector(s) => {
                let v = match self.get_selector_value_at(&s, io, depth) {
                    Err(e) => return Err(e),
                    Ok(v) => v,
                };
                proof {
                    lemma_same_meta_parts(s0.nodes@[i as int], self.nodes@[i as int]);
                    lemma_frame(s0, *self);
                }
                match self.nodes[i].addressing() {
                    Some(Addressing::BySelector { selector, map }) => {
                        let r = select_address(name, selector, map, &v);
                        proof {
                            assert(selector@ == s@);
                        }
                        r
                    },
                    _ => Err(GenApiError::Type(name.clone())),
                }
            },
            AddrPlan::Indirect(p, l) => {
                let ghost s1 = *self;
                let a = match self.get_integer_at(&p, io, depth) {
                    Err(e) => return Err(e),
                    Ok(a) => a,
                };
                proof {
                    lemma_frame(s1, *self);
                    lemma_same_meta_parts(s0.nodes@[i as int], self.nodes@[i as int]);
                }
                indirect_address(name, a, l)
            },
        }
    }

    fn build_enum_mapping_at<IO: RegisterIo>(&mut self, name: &String, i: usize, io: &IO, depth: usize) -> (r: Result<
        EnumMapping,
        GenApiError,
    >)
        requires
            old(self).valid(),
            i < old(self).nodes@.len(),
            old(self).nodes@[i as int] is Enum,
        ensures
            final(self).valid(),
            frame(*old(self), *final(self)),
            fills(*old(self), *final(self)),
            from_device(io, *old(self), *final(self)),
            final(self).generation == old(self).generation,
            r matches Ok(m) ==> m.values@.len() == old(self).nodes@[i as int]->Enum_0.entries@.len(),
        r matches Ok(m) ==> forall|k: int|
                0 <= k < m.values@.len() ==> mapped_value(
                    *final(self),
                    (#[trigger] old(self).nodes@[i as int]->Enum_0.entries@[k]).value,
                    m.values@[k],
                ),
            all_literal(old(self).nodes@[i as int]->Enum_0.entries@) ==> r is Ok,
        decreases depth, 2usize,
    {
        let ghost s0 = *self;
        proof {
            lemma_from_device_refl(io, s0);
        }
        let n = match &self.nodes[i] {
            Node::Enum(x) => x.entries.len(),
            _ => 0,
        };
        let mut values: Vec<i64> = Vec::new();
        let mut k: usize = 0;
        while k < n
            invariant
                s0 == *old(self),
                self.valid(),
                frame(s0, *self),
                fills(s0, *self),
                from_device(io, s0, *self),
                self.generation == s0.generation,
                i < self.nodes@.len(),
                s0.nodes@[i as int] is Enum,
                n == s0.nodes@[i as int]->Enum_0.entries@.len(),
                k <= n,
                values@.len() == k,
                forall|k2: int| 0 <= k2 < k ==> mapped_value(
                    *self,
                    (#[trigger] s0.nodes@[i as int]->Enum_0.entries@[k2]).value,
                    values@[k2],
                ),
            decreases n - k,
        {
            proof {
                assert(same_meta(s0.nodes@[i as int], self.nodes@[i as int]));
            }
            let src = match &self.nodes[i] {
                Node::Enum(x) => match &x.entries[k].value {
                    EnumValueSrc::Literal(v) => EntrySrc::Literal(*v),
                    EnumValueSrc::FromNode(p) => EntrySrc::Provider(p.clone()),
                },
                _ => EntrySrc::Literal(0),
            };
            proof {
                let e0 = s0.nodes@[i as int]->Enum_0.entries@[k as int];
                assert(self.nodes@[i as int]->Enum_0.entries@[k as int] == e0);
                assert(src matches EntrySrc::Literal(l) ==> e0.value == EnumValueSrc::Literal(l));
                assert(src matches EntrySrc::Provider(p) ==> e0.value == EnumValueSrc::FromNode(p));
            }
            let v = match src {
                EntrySrc::Literal(v) => v,
                EntrySrc::Provider(p) => {
                    let ghost s1 = *self;
                    let r = self.get_integer_at(&p, io, depth);
                    proof {
                        lemma_frame_trans(s0, s1, *self);
                        lemma_fills_trans(s0, s1, *self);
                        lemma_from_device_trans(io, s0, s1, *self);
                        lemma_frame(s1, *self);
                        assert forall|k2: int| 0 <= k2 < k implies mapped_value(
                            *self,
                            (#[trigger] s0.nodes@[i as int]->Enum_0.entries@[k2]).value,
                            values@[k2],
                        ) by {
                            lemma_mapped_kept(s1, *self, s0.nodes@[i as int]->Enum_0.entries@[k2].value, values@[k2]);
                        }
                        assert(s0.nodes@[i as int]->Enum_0.entries@[k as int].value == EnumValueSrc::FromNode(p));
                    }
                    match r {
                        Err(e) => return Err(e),
                        Ok(v) => v,
                    }
                },
            };
            proof {
                assert(mapped_value(*self, s0.nodes@[i as int]->Enum_0.entries@[k as int].value, v));
            }
            values.push(v);
            k = k + 1;
        }
        Ok(EnumMapping { values })
    }

    fn lookup_enum_entry_at<IO: RegisterIo>(&mut self, name: &String, i: usize, raw: i64, io: &IO, depth: usize) -> (r: Result<
        String,
        GenApiError,
    >)
        requires
            old(self).valid(),
            i < old(self).nodes@.len(),
            old(self).nodes@[i as int] is Enum,
        ensures
            final(self).valid(),
            frame(*old(self), *final(self)),
            fills(*old(self), *final(self)),
            from_device(io, *old(self), *final(self)),
            final(self).generation == old(self).generation,
        r matches Ok(e) ==> has_entry(old(self).nodes@[i as int]->Enum_0.entries@, e@),
        r matches Ok(e) ==> (final(self).nodes@[i as int] matches Node::Enum(y) && y.mapping_cache.content() matches Some(
                m,
            ) && m.values@.len() == y.entries@.len() && first_value_index(m.values@, raw) < m.values@.len() && e
                == y.entries@[first_value_index(m.values@, raw)].name),
            all_literal(old(self).nodes@[i as int]->Enum_0.entries@) && (exists|k: int|
                0 <= k < old(self).nodes@[i as int]->Enum_0.entries@.len()
                    && (#[trigger] old(self).nodes@[i as int]->Enum_0.entries@[k]).value == EnumValueSrc::Literal(raw))
                ==> r is Ok,
        decreases depth, 3usize,
    {
        let ghost s0 = *self;
        proof {
            lemma_from_device_refl(io, s0);
        }
        let mapped = match &self.nodes[i] {
            Node::Enum(x) => x.mapping_cache.get().is_some(),
            _ => true,
        };
        if !mapped {
            let m = match self.build_enum_mapping_at(name, i, io, depth) {
                Err(e) => return Err(e),
                Ok(m) => m,
            };
            let ghost s1 = *self;
            proof {
                assert(same_meta(s0.nodes@[i as int], s1.nodes@[i as int]));
            }
            self.store_enum(i, None, Some(m));
            proof {
                lemma_frame_trans(s0, s1, *self);
                assert(keeps(s0.nodes@[i as int], s1.nodes@[i as int]));
                lemma_fills_store(s0, s1, *self, i as int);
                lemma_from_device_enum_store(io, s0, s1, *self, i as int);
            }
        }
        proof {
            assert(same_meta(s0.nodes@[i as int], self.nodes@[i as int]));
        }
        let found = match &self.nodes[i] {
            Node::Enum(x) => match x.mapping_cache.get() {
                Some(m) => if m.values.len() == x.entries.len() {
                    entry_for_value(&x.entries, &m.values, raw)
                } else {
                    None
                },
                None => None,
            },
            _ => None,
        };
        match found {
            Some(e) => return Ok(e),
            None => {},
        }
        let ghost s2 = *self;
        let built = self.build_enum_mapping_at(name, i, io, depth);
        let ghost s3 = *self;
        proof {
            lemma_frame_trans(s0, s2, s3);
            lemma_fills_trans(s0, s2, s3);
            lemma_from_device_trans(io, s0, s2, s3);
        }
        let m = match built {
            Err(e) => return Err(e),
            Ok(m) => m,
        };
        proof {
            assert(same_meta(s0.nodes@[i as int], s3.nodes@[i as int]));
        }
        let found2 = match &self.nodes[i] {
            Node::Enum(x) => if m.values.len() == x.entries.len() {
                entry_for_value(&x.entries, &m.values, raw)
            } else {
                None
            },
            _ => None,
        };
        let ghost mv = m.values@;
        proof {
            assert(same_meta(s0.nodes@[i as int], s2.nodes@[i as int]));
            let ents = s0.nodes@[i as int]->Enum_0.entries@;
            if all_literal(ents) && exists|k: int|
                0 <= k < ents.len() && (#[trigger] ents[k]).value == EnumValueSrc::Literal(raw) {
                let k0 = choose|k: int| 0 <= k < ents.len() && (#[trigger] ents[k]).value == EnumValueSrc::Literal(raw);
                assert(mapped_value(s3, ents[k0].value, mv[k0]));
                lemma_first_value_found(mv, raw, k0);
            }
        }
        self.store_enum(i, None, Some(m));
        proof {
            lemma_frame_trans(s0, s3, *self);
            assert(keeps(s0.nodes@[i as int], s3.nodes@[i as int]));
            lemma_fills_store(s0, s3, *self, i as int);
            assert(same_meta(s3.nodes@[i as int], self.nodes@[i as int]));
            lemma_from_device_enum_store(io, s0, s3, *self, i as int);
        }
        match found2 {
            Some(e) => Ok(e),
            None => Err(GenApiError::EnumValueUnknown { node: name.clone(), value: raw }),
        }
    }
}

// ---------------------------------------------------------------------------
// Invalidation
// ---------------------------------------------------------------------------

/// Index of the dependents entry for `k`, if there is one.
fn deps_entry(deps: &Vec<(String, Vec<String>)>, k: &String) -> (r: Option<usize>)
    ensures
        match r {
            Some(d) => d < deps@.len() && texts(deps@[d as int].1@) == dependents_of(deps_view(deps@), k@),
            None => dependents_of(deps_view(deps@), k@) == Seq::<Seq<char>>::empty(),
        },
{
    let ghost dv = deps_view(deps@);
    let mut i: usize = 0;
    while i < deps.len()
        invariant
            i <= deps@.len(),
            dv == deps_view(deps@),
            forall|j: int| 0 <= j < i ==> dv[j].0 != k@,
        decreases deps@.len() - i,
    {
        assert(dv[i as int].0 == deps@[i as int].0@);
        if deps[i].0 == *k {
            proof {
                crate::genapi::lemma_dep_index_is(dv, k@, i as int);
            }
            return Some(i);
        }
        i = i + 1;
    }
    proof {
        crate::genapi::lemma_dep_index_is(dv, k@, i as int);
    }
    None
}

/// Node `i` is recorded as depending on the node named `from`.
pub open spec fn direct(m: NodeMap, from: Seq<char>, i: int) -> bool {
    dependents_of(deps_view(m.dependents@), from).contains(m.nodes@[i].name_of())
}

/// The nodes reached from the node named `src` in at most `k + 1` dependency steps.
pub open spec fn reach(m: NodeMap, src: Seq<char>, k: nat) -> Set<int>
    decreases k,
{
    if k == 0 {
        Set::new(|i: int| 0 <= i < m.nodes@.len() && direct(m, src, i))
    } else {
        let p = reach(m, src, (k - 1) as nat);
        p.union(
            Set::new(
                |i: int| 0 <= i < m.nodes@.len() && exists|j: int| #[trigger] p.contains(j) && direct(m, m.nodes@[j].name_of(), i),
            ),
        )
    }
}

proof fn lemma_reach_bounds(m: NodeMap, src: Seq<char>, k: nat)
    ensures
        forall|i: int| #[trigger] reach(m, src, k).contains(i) ==> 0 <= i < m.nodes@.len(),
    decreases k,
{
    if k > 0 {
        lemma_reach_bounds(m, src, (k - 1) as nat);
        let p = reach(m, src, (k - 1) as nat);
        assert forall|i: int| #[trigger] reach(m, src, k).contains(i) implies 0 <= i < m.nodes@.len() by {
            if !p.contains(i) {
                assert(Set::new(
                    |i: int| 0 <= i < m.nodes@.len() && exists|j: int| #[trigger] p.contains(j) && direct(m, m.nodes@[j].name_of(), i),
                ).contains(i));
            }
        }
    } else {
        assert forall|i: int| #[trigger] reach(m, src, k).contains(i) implies 0 <= i < m.nodes@.len() by {
            assert(Set::new(|i: int| 0 <= i < m.nodes@.len() && direct(m, src, i)).contains(i));
        }
    }
}

impl NodeMap {
    /// Mark the nodes recorded as depending on the node named `from`.
    fn mark_direct(&self, from: &String, marked: &mut Vec<bool>)
        requires
            self.wf(),
            old(marked)@.len() == self.nodes@.len(),
        ensures
            final(marked)@.len() == self.nodes@.len(),
            forall|i: int| 0 <= i < self.nodes@.len() ==> #[trigger] final(marked)@[i] == (old(marked)@[i] || direct(*self, from@, i)),
    {
        match deps_entry(&self.dependents, from) {
            None => {},
            Some(d) => {
                let ghost kids = texts(self.dependents@[d as int].1@);
                let mut c: usize = 0;
                while c < self.dependents[d].1.len()
                    invariant
                        self.wf(),
                        d < self.dependents@.len(),
                        kids == texts(self.dependents@[d as int].1@),
                        kids == dependents_of(deps_view(self.dependents@), from@),
                        c <= kids.len(),
                        marked@.len() == self.nodes@.len(),
                        forall|i: int| 0 <= i < self.nodes@.len() ==> #[trigger] marked@[i] == (old(marked)@[i] || exists|x: int| 0 <= x < c && kids[x] == self.nodes@[i].name_of()),
                    decreases kids.len() - c,
                {
                    let ghost before = marked@;
                    let child = &self.dependents[d].1[c];
                    assert(kids[c as int] == child@);
                    match self.find(child) {
                        Some(i) => {
                            proof {
                                lemma_name_index(node_names(self.nodes@), child@);
                            }
                            marked.set(i, true);
                            proof {
                                assert forall|x: int| 0 <= x < self.nodes@.len() implies #[trigger] marked@[x] == (old(marked)@[x] || exists|y: int| 0 <= y < c + 1 && kids[y] == self.nodes@[x].name_of()) by {
                                    assert(node_names(self.nodes@)[i as int] == self.nodes@[i as int].name_of());
                                    if x == i as int {
                                        assert(kids[c as int] == self.nodes@[x].name_of());
                                    } else {
                                        assert(self.nodes@[x].name_of() != self.nodes@[i as int].name_of()) by {
                                            if x < i as int {
                                                assert(self.nodes@[x].name_of() != self.nodes@[i as int].name_of());
                                            } else {
                                                assert(self.nodes@[i as int].name_of() != self.nodes@[x].name_of());
                                            }
                                        }
                                        if exists|y: int| 0 <= y < c + 1 && kids[y] == self.nodes@[x].name_of() {
                                            let y = choose|y: int| 0 <= y < c + 1 && kids[y] == self.nodes@[x].name_of();
                                            assert(y != c);
                                        }
                                    }
                                }
                            }
                        },
                        None => {
                            proof {
                                lemma_name_index(node_names(self.nodes@), child@);
                                assert forall|x: int| 0 <= x < self.nodes@.len() implies #[trigger] marked@[x] == (old(marked)@[x] || exists|y: int| 0 <= y < c + 1 && kids[y] == self.nodes@[x].name_of()) by {
                                    assert(node_names(self.nodes@)[x] == self.nodes@[x].name_of());
                                    if exists|y: int| 0 <= y < c + 1 && kids[y] == self.nodes@[x].name_of() {
                                        let y = choose|y: int| 0 <= y < c + 1 && kids[y] == self.nodes@[x].name_of();
                                        assert(y != c);
                                    }
                                }
                            }
                        },
                    }
                    c = c + 1;
                }
                proof {
                    assert forall|i: int| 0 <= i < self.nodes@.len() implies #[trigger] marked@[i] == (old(marked)@[i] || direct(*self, from@, i)) by {
                        if direct(*self, from@, i) {
                            let x = choose|x: int| 0 <= x < kids.len() && kids[x] == self.nodes@[i].name_of();
                        }
                    }
                }
            },
        }
    }

    /// One more dependency step from the marked nodes.
    fn next_round(&self, marked: &Vec<bool>) -> (next: Vec<bool>)
        requires
            self.wf(),
            marked@.len() == self.nodes@.len(),
        ensures
            next@.len() == self.nodes@.len(),
            forall|i: int| 0 <= i < self.nodes@.len() ==> #[trigger] next@[i] == (marked@[i] || exists|j: int|
                0 <= j < self.nodes@.len() && marked@[j] && direct(*self, self.nodes@[j].name_of(), i)),
    {
        let n = self.nodes.len();
        let mut next: Vec<bool> = Vec::new();
        let mut i: usize = 0;
        while i < n
            invariant
                n == self.nodes@.len(),
                marked@.len() == n,
                i <= n,
                next@ == marked@.take(i as int),
            decreases n - i,
        {
            next.push(marked[i]);
            assert(next@ =~= marked@.take(i + 1));
            i = i + 1;
        }
        assert(next@ =~= marked@);
        let mut j: usize = 0;
        while j < n
            invariant
                self.wf(),
                n == self.nodes@.len(),
                marked@.len() == n,
                next@.len() == n,
                j <= n,
                forall|i: int| 0 <= i < n ==> #[trigger] next@[i] == (marked@[i] || exists|x: int|
                    0 <= x < j && marked@[x] && direct(*self, self.nodes@[x].name_of(), i)),
            decreases n - j,
        {
            if marked[j] {
                let ghost before = next@;
                self.mark_direct(self.nodes[j].name(), &mut next);
                proof {
                    assert forall|i: int| 0 <= i < n implies #[trigger] next@[i] == (marked@[i] || exists|x: int|
                        0 <= x < j + 1 && marked@[x] && direct(*self, self.nodes@[x].name_of(), i)) by {
                        if exists|x: int| 0 <= x < j + 1 && marked@[x] && direct(*self, self.nodes@[x].name_of(), i) {
                            let x = choose|x: int| 0 <= x < j + 1 && marked@[x] && direct(*self, self.nodes@[x].name_of(), i);
                        }
                    }
                }
            } else {
                proof {
                    assert forall|i: int| 0 <= i < n implies #[trigger] next@[i] == (marked@[i] || exists|x: int|
                        0 <= x < j + 1 && marked@[x] && direct(*self, self.nodes@[x].name_of(), i)) by {
                        if exists|x: int| 0 <= x < j + 1 && marked@[x] && direct(*self, self.nodes@[x].name_of(), i) {
                            let x = choose|x: int| 0 <= x < j + 1 && marked@[x] && direct(*self, self.nodes@[x].name_of(), i);
                            assert(x != j);
                        }
                    }
                }
            }
            j = j + 1;
        }
        next
    }

    /// The nodes reached from the node named `name` in at most as many steps as there are nodes.
    fn reached(&self, name: &String) -> (marked: Vec<bool>)
        requires
            self.wf(),
        ensures
            marked@.len() == self.nodes@.len(),
            forall|i: int| 0 <= i < self.nodes@.len() ==> (#[trigger] marked@[i] <==> reach(*self, name@, self.nodes@.len() as nat).contains(i)),
    {
        let n = self.nodes.len();
        let mut marked: Vec<bool> = Vec::new();
        let mut i: usize = 0;
        while i < n
            invariant
                n == self.nodes@.len(),
                i <= n,
                marked@.len() == i,
                forall|x: int| 0 <= x < i ==> !marked@[x],
            decreases n - i,
        {
            marked.push(false);
            i = i + 1;
        }
        self.mark_direct(name, &mut marked);
        let mut k: usize = 0;
        while k < n
            invariant
                self.wf(),
                n == self.nodes@.len(),
                k <= n,
                marked@.len() == n,
                forall|x: int| 0 <= x < n ==> (#[trigger] marked@[x] <==> reach(*self, name@, k as nat).contains(x)),
            decreases n - k,
        {
            let next = self.next_round(&marked);
            proof {
                lemma_reach_bounds(*self, name@, k as nat);
                let p = reach(*self, name@, k as nat);
                assert forall|x: int| 0 <= x < n implies (#[trigger] next@[x] <==> reach(*self, name@, (k + 1) as nat).contains(x)) by {
                    if next@[x] && !marked@[x] {
                        let j = choose|j: int| 0 <= j < n && marked@[j] && direct(*self, self.nodes@[j].name_of(), x);
                        assert(p.contains(j));
                    }
                    if reach(*self, name@, (k + 1) as nat).contains(x) && !p.contains(x) {
                        let j = choose|j: int| #[trigger] p.contains(j) && direct(*self, self.nodes@[j].name_of(), x);
                        assert(marked@[j]);
                    }
                }
            }
            marked = next;
            k = k + 1;
        }
        marked
    }

    fn clear_node(&mut self, i: usize)
        requires
            old(self).valid(),
            i < old(self).nodes@.len(),
        ensures
            final(self).valid(),
            frame(*old(self), *final(self)),
            final(self).generation == old(self).generation,
            final(self).nodes@[i as int].uncached(),
            forall|j: int| 0 <= j < final(self).nodes@.len() && j != i ==> final(self).nodes@[j] == old(self).nodes@[j],
    {
        let ghost s0 = *self;
        let mut node = self.nodes.remove(i);
        match &mut node {
            Node::Integer(x) => {
                x.cache.clear();
                x.raw_cache.clear();
            },
            Node::Float(x) => {
                x.cache.clear();
            },
            Node::Enum(x) => {
                x.invalidate();
            },
            Node::Boolean(x) => {
                x.cache.clear();
                x.raw_cache.clear();
            },
            _ => {},
        }
        self.nodes.insert(i, node);
        proof {
            assert(self.nodes@ =~= s0.nodes@.update(i as int, node));
            lemma_frame(s0, *self);
        }
    }

    /// After a write to the node `name`: count the write, and drop the cached values of every
    /// node that depends on it, directly or through other nodes.
    pub fn invalidate_dependents(&mut self, name: &String)
        requires
            old(self).valid(),
        ensures
            final(self).valid(),
            frame(*old(self), *final(self)),
            final(self).generation == old(self).generation.wrapping_add(1),
            forall|i: int| 0 <= i < old(self).nodes@.len() ==> if #[trigger] reach(*old(self), name@, old(self).nodes@.len() as nat).contains(i) {
                final(self).nodes@[i].uncached()
            } else {
                final(self).nodes@[i] == old(self).nodes@[i]
            },
    {
        let ghost s0 = *self;
        let marked = self.reached(name);
        self.generation = self.generation.wrapping_add(1);
        let n = self.nodes.len();
        let mut i: usize = 0;
        while i < n
            invariant
                self.valid(),
                frame(s0, *self),
                self.generation == s0.generation.wrapping_add(1),
                n == s0.nodes@.len(),
                marked@.len() == n,
                i <= n,
                forall|x: int| 0 <= x < n ==> (#[trigger] marked@[x] <==> reach(s0, name@, n as nat).contains(x)),
                forall|x: int| 0 <= x < i ==> (#[trigger] marked@[x] ==> self.nodes@[x].uncached()),
                forall|x: int| 0 <= x < i ==> (!#[trigger] marked@[x] ==> self.nodes@[x] == s0.nodes@[x]),
                forall|x: int| i <= x < n ==> #[trigger] self.nodes@[x] == s0.nodes@[x],
            decreases n - i,
        {
            if marked[i] {
                let ghost before = *self;
                self.clear_node(i);
                proof {
                    lemma_frame_trans(s0, before, *self);
                    assert forall|x: int| 0 <= x < i + 1 implies (#[trigger] marked@[x] ==> self.nodes@[x].uncached()) by {
                        if x < i {
                            assert(self.nodes@[x] == before.nodes@[x]);
                        }
                    }
                    assert forall|x: int| 0 <= x < i + 1 implies (!#[trigger] marked@[x] ==> self.nodes@[x] == s0.nodes@[x]) by {
                        if x < i {
                            assert(self.nodes@[x] == before.nodes@[x]);
                        }
                    }
                    assert forall|x: int| i + 1 <= x < n implies #[trigger] self.nodes@[x] == s0.nodes@[x] by {
                        assert(self.nodes@[x] == before.nodes@[x]);
                    }
                }
            }
            i = i + 1;
        }
        proof {
            assert forall|x: int| 0 <= x < s0.nodes@.len() implies if #[trigger] reach(s0, name@, s0.nodes@.len() as nat).contains(x) {
                self.nodes@[x].uncached()
            } else {
                self.nodes@[x] == s0.nodes@[x]
            } by {
                assert(marked@[x] <==> reach(s0, name@, n as nat).contains(x));
                if marked@[x] {
                    assert(self.nodes@[x].uncached());
                } else {
                    assert(self.nodes@[x] == s0.nodes@[x]);
                }
            }
        }
    }
}

proof fn lemma_frame_reach(a: NodeMap, b: NodeMap, src: Seq<char>, k: nat)
    requires
        frame(a, b),
    ensures
        reach(a, src, k) == reach(b, src, k),
    decreases k,
{
    assert forall|i: int| 0 <= i < a.nodes@.len() implies a.nodes@[i].name_of() == b.nodes@[i].name_of() by {
        lemma_same_meta_name(a.nodes@[i], b.nodes@[i]);
    }
    if k == 0 {
        assert(reach(a, src, k) =~= reach(b, src, k));
    } else {
        lemma_frame_reach(a, b, src, (k - 1) as nat);
        assert(reach(a, src, k) =~= reach(b, src, k));
    }
}

/// What a write to the integer node `name` does: a missing node, a node of another kind and
/// a read-only node are refused; a value written is within the node's limits, the write is
/// counted, the node caches the value (unless the node depends on itself), and every node
/// depending on it loses its cached value.
pub open spec fn integer_written(old: NodeMap, new: NodeMap, name: Seq<char>, value: i64, r: Result<(), GenApiError>) -> bool {
    match lookup(old.nodes@, name) {
        None => r matches Err(GenApiError::NodeNotFound(n)) && n@ == name,
        Some(i) => match old.nodes@[i] {
            Node::Integer(x) => (x.access == AccessMode::RO ==> (r matches Err(GenApiError::Access(n)) && n@ == name))
                && (r is Ok ==> written(old, new, name, i) && integer_allowed(value as int, x.min as int, x.max as int, x.inc)
                && (!reach(old, name, old.nodes@.len() as nat).contains(i) ==> (new.nodes@[i] matches Node::Integer(y)
                && y.cache.content() == Some(value)))),
            _ => r matches Err(GenApiError::Type(n)) && n@ == name,
        },
    }
}

/// After a successful write to node `i` named `name`: the write is counted and every node
/// depending on it has lost its cached value.
pub open spec fn written(old: NodeMap, new: NodeMap, name: Seq<char>, i: int) -> bool {
    &&& new.generation == old.generation.wrapping_add(1)
    &&& forall|j: int|
        0 <= j < old.nodes@.len() && #[trigger] reach(old, name, old.nodes@.len() as nat).contains(j) ==> new.nodes@[j].uncached()
}

/// What a write to the boolean node `name` does, as for integers.
pub open spec fn bool_written(old: NodeMap, new: NodeMap, name: Seq<char>, value: bool, r: Result<(), GenApiError>) -> bool {
    match lookup(old.nodes@, name) {
        None => r matches Err(GenApiError::NodeNotFound(n)) && n@ == name,
        Some(i) => match old.nodes@[i] {
            Node::Boolean(x) => (x.access == AccessMode::RO ==> (r matches Err(GenApiError::Access(n)) && n@ == name))
                && (r is Ok ==> written(old, new, name, i) && (!reach(old, name, old.nodes@.len() as nat).contains(i)
                ==> (new.nodes@[i] matches Node::Boolean(y) && y.cache.content() == Some(value)))),
            _ => r matches Err(GenApiError::Type(n)) && n@ == name,
        },
    }
}

/// Whether some entry of the list is named `e`.
pub open spec fn has_entry(entries: Seq<EnumEntryDecl>, e: Seq<char>) -> bool {
    exists|k: int| 0 <= k < entries.len() && #[trigger] entries[k].name@ == e
}

/// What a write of entry `entry` to the enumeration node `name` does: the entry must exist;
/// the node forgets its cached entry.
pub open spec fn enum_written(old: NodeMap, new: NodeMap, name: Seq<char>, entry: Seq<char>, r: Result<(), GenApiError>) -> bool {
    match lookup(old.nodes@, name) {
        None => r matches Err(GenApiError::NodeNotFound(n)) && n@ == name,
        Some(i) => match old.nodes@[i] {
            Node::Enum(x) => (x.access == AccessMode::RO ==> (r matches Err(GenApiError::Access(n)) && n@ == name))
                && (r is Ok ==> written(old, new, name, i) && has_entry(x.entries@, entry)
                && (new.nodes@[i] matches Node::Enum(y) && y.value_cache.content() is None)),
            _ => r matches Err(GenApiError::Type(n)) && n@ == name,
        },
    }
}

/// The payload that executes a command of `len` bytes: zeros, then a final one.
pub open spec fn command_payload(len: nat) -> Seq<u8> {
    Seq::new(len, |k: int| if k == len - 1 { 1u8 } else { 0u8 })
}

/// Message of the `Parse` error for a command without payload.
pub open spec fn zero_command_msg(name: Seq<char>) -> Seq<char> {
    "command node "@ + name + " has zero length"@
}

/// What executing the command node `name` does.
pub open spec fn command_executed(old: NodeMap, new: NodeMap, name: Seq<char>, r: Result<(), GenApiError>) -> bool {
    match lookup(old.nodes@, name) {
        None => r matches Err(GenApiError::NodeNotFound(n)) && n@ == name,
        Some(i) => match old.nodes@[i] {
            Node::Command(x) => (x.len == 0 ==> (r matches Err(GenApiError::Parse(m)) && m@ == zero_command_msg(name)))
                && (r is Ok ==> written(old, new, name, i)),
            _ => r matches Err(GenApiError::Type(n)) && n@ == name,
        },
    }
}

/// Build the payload that executes a command of `len` bytes.
pub fn command_data(len: u32) -> (d: Vec<u8>)
    requires
        len > 0,
    ensures
        d@ == command_payload(len as nat),
{
    let mut d: Vec<u8> = Vec::new();
    let mut k: u32 = 0;
    while k < len
        invariant
            k <= len,
            d@ == command_payload(len as nat).take(k as int),
        decreases len - k,
    {
        if k == len - 1 {
            d.push(1u8);
        } else {
            d.push(0u8);
        }
        assert(d@ =~= command_payload(len as nat).take(k + 1));
        k = k + 1;
    }
    assert(d@ =~= command_payload(len as nat));
    d
}

impl NodeMap {
    /// How deep reads may nest: enough for any chain of distinct nodes.
    fn budget(&self) -> (d: usize)
        ensures
            d == (if self.nodes@.len() < usize::MAX / 8 { 4 * (self.nodes@.len() + 1) as int } else { usize::MAX as int }),
    {
        let n = self.nodes.len();
        if n < usize::MAX / 8 {
            4 * (n + 1)
        } else {
            usize::MAX
        }
    }

    fn store_float(&mut self, i: usize, value: i64)
        requires
            old(self).valid(),
            i < old(self).nodes@.len(),
            old(self).nodes@[i as int] is Float,
        ensures
            final(self).valid(),
            frame(*old(self), *final(self)),
            final(self).generation == old(self).generation,
            final(self).nodes@[i as int] matches Node::Float(y) && y.cache.content() == Some(value),
            forall|j: int| 0 <= j < final(self).nodes@.len() && j != i ==> final(self).nodes@[j] == old(self).nodes@[j],
    {
        let ghost s0 = *self;
        let mut node = self.nodes.remove(i);
        match &mut node {
            Node::Float(x) => x.cache.store(value),
            _ => {},
        }
        self.nodes.insert(i, node);
        proof {
            assert(self.nodes@ =~= s0.nodes@.update(i as int, node));
            lemma_frame(s0, *self);
        }
    }

    fn clear_enum_value(&mut self, i: usize)
        requires
            old(self).valid(),
            i < old(self).nodes@.len(),
            old(self).nodes@[i as int] is Enum,
        ensures
            final(self).valid(),
            frame(*old(self), *final(self)),
            final(self).generation == old(self).generation,
            final(self).nodes@[i as int] matches Node::Enum(y) && y.value_cache.content() is None,
    {
        let ghost s0 = *self;
        let mut node = self.nodes.remove(i);
        match &mut node {
            Node::Enum(x) => x.value_cache.clear(),
            _ => {},
        }
        self.nodes.insert(i, node);
        proof {
            assert(self.nodes@ =~= s0.nodes@.update(i as int, node));
            lemma_frame(s0, *self);
        }
    }

    /// Read an integer feature value using the provided transport.
    pub fn get_integer<IO: RegisterIo>(&mut self, name: &str, io: &IO) -> (r: Result<i64, GenApiError>)
        requires
            old(self).valid(),
        ensures
            final(self).valid(),
            frame(*old(self), *final(self)),
            fills(*old(self), *final(self)),
            from_device(io, *old(self), *final(self)),
            final(self).generation == old(self).generation,
            owed_integer(*old(self), name@) is Some ==> r == Ok::<i64, GenApiError>(owed_integer(*old(self), name@)->Some_0),
            access_refuses(*old(self), name@, NodeTag::Integer, false, r),
            integer_read(*old(self), *final(self), name@, r),
    {
        let key = String::from_str(name);
        let d = self.budget();
        self.get_integer_at(&key, io, d)
    }

    /// Read a boolean feature.
    pub fn get_bool<IO: RegisterIo>(&mut self, name: &str, io: &IO) -> (r: Result<bool, GenApiError>)
        requires
            old(self).valid(),
        ensures
            final(self).valid(),
            frame(*old(self), *final(self)),
            fills(*old(self), *final(self)),
            from_device(io, *old(self), *final(self)),
            final(self).generation == old(self).generation,
            owed_bool(*old(self), name@) is Some ==> r == Ok::<bool, GenApiError>(owed_bool(*old(self), name@)->Some_0),
            access_refuses(*old(self), name@, NodeTag::Boolean, false, r),
            bool_read(*old(self), *final(self), name@, r),
    {
        let key = String::from_str(name);
        let d = self.budget();
        self.get_bool_at(&key, io, d)
    }

    /// Read an enumeration feature returning the symbolic entry name.
    pub fn get_enum<IO: RegisterIo>(&mut self, name: &str, io: &IO) -> (r: Result<String, GenApiError>)
        requires
            old(self).valid(),
        ensures
            final(self).valid(),
            frame(*old(self), *final(self)),
            fills(*old(self), *final(self)),
            from_device(io, *old(self), *final(self)),
            final(self).generation == old(self).generation,
            owed_enum(*old(self), name@) is Some ==> r == Ok::<String, GenApiError>(owed_enum(*old(self), name@)->Some_0),
            access_refuses(*old(self), name@, NodeTag::Enum, false, r),
            enum_read(*old(self), *final(self), name@, r),
    {
        let key = String::from_str(name);
        let d = self.budget();
        self.get_enum_at(&key, io, d)
    }

    /// Read the raw register value of a floating point feature; the value of the feature is
    /// this number scaled and offset as the node declares.
    pub fn get_float_raw<IO: RegisterIo>(&mut self, name: &str, io: &IO) -> (r: Result<i64, GenApiError>)
        requires
            old(self).valid(),
        ensures
            final(self).valid(),
            frame(*old(self), *final(self)),
            fills(*old(self), *final(self)),
            from_device(io, *old(self), *final(self)),
            final(self).generation == old(self).generation,
            match lookup(old(self).nodes@, name@) {
                None => r matches Err(GenApiError::NodeNotFound(n)) && n@ == name@,
                Some(i) => match old(self).nodes@[i] {
                    Node::Float(x) => (x.access == AccessMode::WO ==> (r matches Err(GenApiError::Access(n)) && n@ == name@))
                        && (r matches Ok(v) ==> (final(self).nodes@[i] matches Node::Float(y) && y.cache.content() == Some(v)))
                        && (x.cache.content() matches Some(c) ==> (r matches Ok(v) ==> v == c)),
                    _ => r matches Err(GenApiError::Type(n)) && n@ == name@,
                },
            },
            access_refuses(*old(self), name@, NodeTag::Float, false, r),
            owed_float(*old(self), name@) is Some ==> r == Ok::<i64, GenApiError>(owed_float(*old(self), name@)->Some_0),
    {
        let key = String::from_str(name);
        let ghost s0 = *self;
        proof {
            lemma_from_device_refl(io, s0);
        }
        let i = match self.find(&key) {
            None => return Err(GenApiError::NodeNotFound(key)),
            Some(i) => i,
        };
        let access = match &self.nodes[i] {
            Node::Float(x) => x.access,
            _ => return Err(GenApiError::Type(key)),
        };
        match ensure_readable(&access, name) {
            Err(e) => return Err(e),
            Ok(()) => {},
        }
        let d = self.budget();
        match self.ensure_selectors_at(&key, i, io, d) {
            Err(e) => return Err(e),
            Ok(()) => {},
        }
        let ghost s1 = *self;
        let resolved = self.resolve_address_at(&key, i, io, d);
        proof {
            if s1.nodes@[i as int].addressing_of() is Some {
                lemma_refuses_kept(s0, s1, key@, s1.nodes@[i as int].addressing_of()->Some_0, resolved, resolved);
            }
        }
        proof {
            lemma_frame_trans(s0, s1, *self);
            lemma_fills_trans(s0, s1, *self);
            lemma_from_device_trans(io, s0, s1, *self);
            lemma_same_meta_parts(s0.nodes@[i as int], s1.nodes@[i as int]);
            lemma_same_meta_parts(s0.nodes@[i as int], self.nodes@[i as int]);
            assert(keeps(s0.nodes@[i as int], self.nodes@[i as int]));
        }
        let (address, len) = match resolved {
            Err(e) => return Err(e),
            Ok(p) => p,
        };
        let cached = match &self.nodes[i] {
            Node::Float(x) => match x.cache.get() {
                Some(v) => Some(*v),
                None => None,
            },
            _ => return Err(GenApiError::Type(key)),
        };
        match cached {
            Some(v) => return Ok(v),
            None => {},
        }
        let raw = match io.read(address, len as usize) {
            Err(e) => return Err(e),
            Ok(b) => b,
        };
        let value = match bytes_to_i64(name, raw.as_slice()) {
            Err(e) => return Err(e),
            Ok(v) => v,
        };
        let ghost s2 = *self;
        let ghost raw_v = raw@;
        self.store_float(i, value);
        proof {
            lemma_frame_trans(s0, s2, *self);
            lemma_fills_store(s0, s2, *self, i as int);
            lemma_same_meta_parts(s1.nodes@[i as int], s2.nodes@[i as int]);
            lemma_read_store(io, s2, *self, i as int, address, len, raw_v);
            lemma_from_device_trans(io, s0, s2, *self);
        }
        Ok(value)
    }

    /// Write an integer feature and drop the caches of the nodes depending on it.
    pub fn set_integer<IO: RegisterIo>(&mut self, name: &str, value: i64, io: &IO) -> (r: Result<(), GenApiError>)
        requires
            old(self).valid(),
        ensures
            final(self).valid(),
            frame(*old(self), *final(self)),
            integer_written(*old(self), *final(self), name@, value, r),
            access_refuses(*old(self), name@, NodeTag::Integer, true, r),
            integer_sent(io, *old(self), name@, value, r),
            integer_accepted(io, *old(self), name@, value, r),
    {
        let key = String::from_str(name);
        let ghost s0 = *self;
        let i = match self.find(&key) {
            None => return Err(GenApiError::NodeNotFound(key)),
            Some(i) => i,
        };
        let access = match &self.nodes[i] {
            Node::Integer(x) => x.access,
            _ => return Err(GenApiError::Type(key)),
        };
        match ensure_writable(&access, name) {
            Err(e) => return Err(e),
            Ok(()) => {},
        }
        let d = self.budget();
        match self.ensure_selectors_at(&key, i, io, d) {
            Err(e) => return Err(e),
            Ok(()) => {},
        }
        let ghost s1 = *self;
        let resolved = self.resolve_address_at(&key, i, io, d);
        proof {
            if s1.nodes@[i as int].addressing_of() is Some {
                lemma_refuses_kept(s0, s1, key@, s1.nodes@[i as int].addressing_of()->Some_0, resolved, resolved);
            }
        }
        let ghost sr = *self;
        proof {
            lemma_frame_trans(s0, s1, *self);
            lemma_fills_trans(s0, s1, *self);
            lemma_same_meta_parts(s0.nodes@[i as int], self.nodes@[i as int]);
            lemma_same_meta_parts(s0.nodes@[i as int], s1.nodes@[i as int]);
        }
        let (address, len) = match resolved {
            Err(e) => return Err(e),
            Ok(p) => p,
        };
        proof {
            assert(block_named(s0, s0.nodes@[i as int].addressing_of()->Some_0, address, len));
        }
        let (min, max, inc, bitfield) = match &self.nodes[i] {
            Node::Integer(x) => (x.min, x.max, x.inc, x.bitfield),
            _ => return Err(GenApiError::Type(key)),
        };
        proof {
            assert(same_meta(s0.nodes@[i as int], self.nodes@[i as int]));
            match s0.nodes@[i as int] {
                Node::Integer(x0) => {
                    assert(x0.min == min && x0.max == max && x0.inc == inc && x0.bitfield == bitfield);
                },
                _ => {},
            }
        }
        match check_integer_write(&key, value, min, max, inc) {
            Err(e) => return Err(e),
            Ok(()) => {},
        }
        let ghost s2 = *self;
        proof {
            assert(integer_allowed(value as int, min as int, max as int, inc));
        }
        match bitfield {
            Some(bf) => {
                let encoded = match encode_bitfield_value(name, value, bf.bit_length, min < 0) {
                    Err(e) => return Err(e),
                    Ok(x) => x,
                };
                let got = match &self.nodes[i] {
                    Node::Integer(x) => get_raw_or_read(&x.raw_cache, io, address, len),
                    _ => return Err(GenApiError::Type(key)),
                };
                let mut raw = match got {
                    Err(e) => return Err(e),
                    Ok(b) => b,
                };
                let ghost old_raw = raw@;
                match insert(&mut raw, bf, encoded) {
                    Err(e) => return Err(map_bitops_error(name, e)),
                    Ok(()) => {},
                }
                match io.write(address, raw.as_slice()) {
                    Err(e) => return Err(e),
                    Ok(()) => {},
                }
                proof {
                    assert(1 <= bf.bit_length <= 64);
                    assert(fits_bitfield(value as int, bf.bit_length as nat, min < 0));
                    crate::genapi::lemma_bitfield_roundtrip(value, bf.bit_length, min < 0);
                    vstd::arithmetic::power2::lemma2_to64();
                    if bf.bit_length < 64 {
                        vstd::arithmetic::power2::lemma_pow2_strictly_increases(bf.bit_length as nat, 64);
                    }
                    assert(encoded as nat == (value as int % (pow2(bf.bit_length as nat) as int)));
                    assert(field_problem(old_raw.len(), bf) is None);
                    crate::bitops::lemma_insert_reads_back(old_raw, bf, encoded as nat);
                    assert(raw@.len() == old_raw.len());
                    assert(field_of(reg_value(raw@, bf.byte_order), field_shift(raw@.len(), bf), bf.bit_length as nat) == encoded);
                }
                self.store_integer(i, value, raw);
            },
            None => {
                let bytes = match i64_to_bytes(name, value, len) {
                    Err(e) => return Err(e),
                    Ok(b) => b,
                };
                match io.write(address, bytes.as_slice()) {
                    Err(e) => return Err(e),
                    Ok(()) => {},
                }
                proof {
                    crate::wire::lemma_signed_roundtrip(value as int, len as nat);
                }
                self.store_integer(i, value, bytes);
            },
        }
        let ghost s3 = *self;
        self.invalidate_dependents(&key);
        proof {
            lemma_frame_trans(s0, s2, s3);
            lemma_frame_trans(s0, s3, *self);
            lemma_frame_reach(s0, s3, key@, s0.nodes@.len() as nat);
        }
        Ok(())
    }

    /// Write a boolean feature.
    pub fn set_bool<IO: RegisterIo>(&mut self, name: &str, value: bool, io: &IO) -> (r: Result<(), GenApiError>)
        requires
            old(self).valid(),
        ensures
            final(self).valid(),
            frame(*old(self), *final(self)),
            bool_written(*old(self), *final(self), name@, value, r),
            access_refuses(*old(self), name@, NodeTag::Boolean, true, r),
            bool_sent(io, *old(self), name@, value, r),
    {
        let key = String::from_str(name);
        let ghost s0 = *self;
        let i = match self.find(&key) {
            None => return Err(GenApiError::NodeNotFound(key)),
            Some(i) => i,
        };
        let access = match &self.nodes[i] {
            Node::Boolean(x) => x.access,
            _ => return Err(GenApiError::Type(key)),
        };
        match ensure_writable(&access, name) {
            Err(e) => return Err(e),
            Ok(()) => {},
        }
        let d = self.budget();
        match self.ensure_selectors_at(&key, i, io, d) {
            Err(e) => return Err(e),
            Ok(()) => {},
        }
        let ghost s1 = *self;
        let resolved = self.resolve_address_at(&key, i, io, d);
        proof {
            if s1.nodes@[i as int].addressing_of() is Some {
                lemma_refuses_kept(s0, s1, key@, s1.nodes@[i as int].addressing_of()->Some_0, resolved, resolved);
            }
        }
        proof {
            lemma_frame_trans(s0, s1, *self);
            lemma_fills_trans(s0, s1, *self);
            lemma_same_meta_parts(s0.nodes@[i as int], self.nodes@[i as int]);
            lemma_same_meta_parts(s0.nodes@[i as int], s1.nodes@[i as int]);
        }
        let (address, len) = match resolved {
            Err(e) => return Err(e),
            Ok(p) => p,
        };
        proof {
            assert(block_named(s0, s0.nodes@[i as int].addressing_of()->Some_0, address, len));
        }
        let encoded: u64 = if value {
            1
        } else {
            0
        };
        let (bf, got) = match &self.nodes[i] {
            Node::Boolean(x) => (x.bitfield, get_raw_or_read(&x.raw_cache, io, address, len)),
            _ => return Err(GenApiError::Type(key)),
        };
        let mut raw = match got {
            Err(e) => return Err(e),
            Ok(b) => b,
        };
        let ghost old_raw = raw@;
        match insert(&mut raw, bf, encoded) {
            Err(e) => return Err(map_bitops_error(name, e)),
            Ok(()) => {},
        }
        match io.write(address, raw.as_slice()) {
            Err(e) => return Err(e),
            Ok(()) => {},
        }
        proof {
            crate::bitops::lemma_insert_reads_back(old_raw, bf, encoded as nat);
            lemma_frame(s0, *self);
            assert(same_meta(s0.nodes@[i as int], self.nodes@[i as int]));
            assert(s0.nodes@[i as int]->Boolean_0.bitfield == bf);
            assert(bool_decode(raw@, bf) == Some(value));
            assert(io.took(address, raw@));
        }
        let ghost s2 = *self;
        self.store_bool(i, value, raw);
        let ghost s3 = *self;
        self.invalidate_dependents(&key);
        proof {
            lemma_frame_trans(s0, s2, s3);
            lemma_frame_trans(s0, s3, *self);
            lemma_frame_reach(s0, s3, key@, s0.nodes@.len() as nat);
        }
        Ok(())
    }

    /// Write an enumeration entry.
    pub fn set_enum<IO: RegisterIo>(&mut self, name: &str, entry: &str, io: &IO) -> (r: Result<(), GenApiError>)
        requires
            old(self).valid(),
        ensures
            final(self).valid(),
            frame(*old(self), *final(self)),
            enum_written(*old(self), *final(self), name@, entry@, r),
            access_refuses(*old(self), name@, NodeTag::Enum, true, r),
            enum_sent(io, *old(self), name@, entry@, r),
    {
        let key = String::from_str(name);
        let wanted = String::from_str(entry);
        let ghost s0 = *self;
        let i = match self.find(&key) {
            None => return Err(GenApiError::NodeNotFound(key)),
            Some(i) => i,
        };
        let access = match &self.nodes[i] {
            Node::Enum(x) => x.access,
            _ => return Err(GenApiError::Type(key)),
        };
        match ensure_writable(&access, name) {
            Err(e) => return Err(e),
            Ok(()) => {},
        }
        let d = self.budget();
        match self.ensure_selectors_at(&key, i, io, d) {
            Err(e) => return Err(e),
            Ok(()) => {},
        }
        let ghost s1 = *self;
        proof {
            lemma_frame(s0, s1);
            assert(same_meta(s0.nodes@[i as int], s1.nodes@[i as int]));
            lemma_same_meta_parts(s0.nodes@[i as int], s1.nodes@[i as int]);
            match s0.nodes@[i as int].addressing_of() {
                Some(Addressing::BySelector { selector, .. }) => lemma_owed_kept(s0, s1, selector@),
                Some(Addressing::Indirect { p_address_node, .. }) => lemma_owed_kept(s0, s1, p_address_node@),
                _ => {},
            }
            if s0.nodes@[i as int].addressing_of() is Some && addressing_settles(s0, s0.nodes@[i as int].addressing_of()->Some_0) {
                assert(addressing_settles(s1, s1.nodes@[i as int].addressing_of()->Some_0));
            }
        }
        let resolved = self.resolve_address_at(&key, i, io, d);
        proof {
            if s1.nodes@[i as int].addressing_of() is Some {
                lemma_refuses_kept(s0, s1, key@, s1.nodes@[i as int].addressing_of()->Some_0, resolved, resolved);
            }
        }
        proof {
            lemma_frame_trans(s0, s1, *self);
            lemma_fills_trans(s0, s1, *self);
            lemma_same_meta_parts(s0.nodes@[i as int], self.nodes@[i as int]);
            assert(same_meta(s0.nodes@[i as int], self.nodes@[i as int]));
        }
        let (address, len) = match resolved {
            Err(e) => return Err(e),
            Ok(p) => p,
        };
        proof {
            assert(block_named(s0, s0.nodes@[i as int].addressing_of()->Some_0, address, len));
        }
        let ghost mut at: int = 0;
        let src = match &self.nodes[i] {
            Node::Enum(x) => {
                let mut k: usize = 0;
                let mut found: Option<EntrySrc> = None;
                while k < x.entries.len() && found.is_none()
                    invariant
                        k <= x.entries@.len(),
                        found is Some ==> has_entry(x.entries@, wanted@),
                        found is Some ==> first_named(x.entries@, wanted@, at),
                        found matches Some(EntrySrc::Literal(v)) ==> x.entries@[at].value == EnumValueSrc::Literal(v),
                        found matches Some(EntrySrc::Provider(_)) ==> x.entries@[at].value is FromNode,
                        found is None ==> forall|j: int| 0 <= j < k ==> (#[trigger] x.entries@[j]).name@ != wanted@,
                    decreases x.entries@.len() - k + (if found is None { 1int } else { 0int }),
                {
                    if x.entries[k].name == wanted {
                        found = Some(
                            match &x.entries[k].value {
                                EnumValueSrc::Literal(v) => EntrySrc::Literal(*v),
                                EnumValueSrc::FromNode(p) => EntrySrc::Provider(p.clone()),
                            },
                        );
                        proof {
                            at = k as int;
                        }
                    } else {
                        k = k + 1;
                    }
                }
                proof {
                    if found is None {
                        assert(!has_entry(x.entries@, wanted@));
                    }
                }
                found
            },
            _ => return Err(GenApiError::Type(key)),
        };
        let src = match src {
            None => return Err(GenApiError::EnumNoSuchEntry { node: key, entry: wanted }),
            Some(s) => s,
        };
        let ghost src_g = src;
        proof {
            assert(first_named(s0.nodes@[i as int]->Enum_0.entries@, entry@, at));
            assert(src_g matches EntrySrc::Literal(v) ==> s0.nodes@[i as int]->Enum_0.entries@[at].value
                == EnumValueSrc::Literal(v));
            assert(src_g is Provider ==> s0.nodes@[i as int]->Enum_0.entries@[at].value is FromNode);
        }
        let ghost s2 = *self;
        let raw = match src {
            EntrySrc::Literal(v) => v,
            EntrySrc::Provider(p) => {
                let got = self.get_integer_at(&p, io, d);
                proof {
                    lemma_frame_trans(s0, s2, *self);
                }
                match got {
                    Err(e) => return Err(e),
                    Ok(v) => v,
                }
            },
        };
        let bytes = match i64_to_bytes(name, raw, len) {
            Err(e) => return Err(e),
            Ok(b) => b,
        };
        match io.write(address, bytes.as_slice()) {
            Err(e) => return Err(e),
            Ok(()) => {},
        }
        proof {
            let x0 = s0.nodes@[i as int]->Enum_0;
            assert(src_g matches EntrySrc::Literal(v) ==> raw == v);
            assert(io.took(address, be_bytes(bits64(raw as int), len as nat)));
            assert(block_named(s0, x0.addressing, address, len));
            assert(first_named(x0.entries@, entry@, at));
            assert(x0.entries@[at].value matches EnumValueSrc::Literal(lit) ==> raw == lit);
        }
        let ghost s3 = *self;
        proof {
            lemma_frame_trans(s0, s2, s3);
            assert(same_meta(s0.nodes@[i as int], s3.nodes@[i as int]));
        }
        self.clear_enum_value(i);
        let ghost s4 = *self;
        self.invalidate_dependents(&key);
        proof {
            lemma_frame_trans(s0, s3, s4);
            lemma_frame_trans(s0, s4, *self);
            lemma_frame_reach(s0, s4, key@, s0.nodes@.len() as nat);
            assert(same_meta(s0.nodes@[i as int], self.nodes@[i as int]));
            if reach(s4, key@, s4.nodes@.len() as nat).contains(i as int) {
                assert(self.nodes@[i as int].uncached());
            } else {
                assert(self.nodes@[i as int] == s4.nodes@[i as int]);
            }
            assert(self.nodes@[i as int] matches Node::Enum(y) && y.value_cache.content() is None);
        }
        Ok(())
    }

    /// Execute a command feature by writing a one-valued payload.
    pub fn exec_command<IO: RegisterIo>(&mut self, name: &str, io: &IO) -> (r: Result<(), GenApiError>)
        requires
            old(self).valid(),
        ensures
            final(self).valid(),
            frame(*old(self), *final(self)),
            command_executed(*old(self), *final(self), name@, r),
            r is Ok ==> (lookup(old(self).nodes@, name@) matches Some(i) && old(self).nodes@[i] matches Node::Command(
                x,
            ) && io.took(x.address, command_payload(x.len as nat))),
    {
        let key = String::from_str(name);
        let ghost s0 = *self;
        let i = match self.find(&key) {
            None => return Err(GenApiError::NodeNotFound(key)),
            Some(i) => i,
        };
        let (address, len) = match &self.nodes[i] {
            Node::Command(x) => (x.address, x.len),
            _ => return Err(GenApiError::Type(key)),
        };
        if len == 0 {
            let mut m = String::from_str("command node ");
            m.append(name);
            m.append(" has zero length");
            return Err(GenApiError::Parse(m));
        }
        let data = command_data(len);
        match io.write(address, data.as_slice()) {
            Err(e) => return Err(e),
            Ok(()) => {},
        }
        self.invalidate_dependents(&key);
        Ok(())
    }
}

/// Add `p` to a list of texts kept in strictly increasing string order.
fn add_sorted(out: &mut Vec<String>, p: &String)
    requires
        sorted_texts(old(out)@),
    ensures
        sorted_texts(final(out)@),
        forall|t: Seq<char>| #[trigger] texts(final(out)@).contains(t) <==> (texts(old(out)@).contains(t) || t == p@),
{
    let mut j: usize = 0;
    while j < out.len() && str_lt(out[j].as_str(), p.as_str())
        invariant
            j <= out@.len(),
            forall|x: int| 0 <= x < j ==> lex_lt(#[trigger] encode_utf8(out@[x]@), encode_utf8(p@)),
        decreases out@.len() - j,
    {
        j = j + 1;
    }
    let present = j < out.len() && out[j] == *p;
    if present {
        proof {
            assert(texts(out@)[j as int] == p@);
        }
        return;
    }
    proof {
        if j < out@.len() {
            lemma_lex_total(encode_utf8(out@[j as int]@), encode_utf8(p@));
            if encode_utf8(out@[j as int]@) == encode_utf8(p@) {
                vstd::utf8::encode_utf8_decode_utf8(out@[j as int]@);
                vstd::utf8::encode_utf8_decode_utf8(p@);
            }
        }
    }
    let ghost before = out@;
    let q = p.clone();
    proof {
        lemma_sorted_insert(before, j as int, q);
    }
    out.insert(j, q);
    proof {
        assert(texts(out@) =~= texts(before).insert(j as int, p@));
        assert forall|t: Seq<char>| #[trigger] texts(out@).contains(t) <==> (texts(before).contains(t) || t == p@) by {
            if t == p@ {
                assert(texts(out@)[j as int] == p@);
            }
            if texts(out@).contains(t) && t != p@ {
                let y = choose|y: int| 0 <= y < texts(out@).len() && texts(out@)[y] == t;
                if y < j {
                    assert(texts(before)[y] == t);
                } else {
                    assert(texts(before)[y - 1] == t);
                }
            }
            if texts(before).contains(t) {
                let y = choose|y: int| 0 <= y < texts(before).len() && texts(before)[y] == t;
                if y < j {
                    assert(texts(out@)[y] == t);
                } else {
                    assert(texts(out@)[y + 1] == t);
                }
            }
        }
    }
}

impl NodeMap {
    /// The entry names of an enumeration feature, each once, in string order.
    pub fn enum_entries(&self, name: &str) -> (r: Result<Vec<String>, GenApiError>)
        ensures
            match lookup(self.nodes@, name@) {
                None => r matches Err(GenApiError::NodeNotFound(n)) && n@ == name@,
                Some(i) => match self.nodes@[i] {
                    Node::Enum(x) => r matches Ok(names) && sorted_texts(names@) && forall|t: Seq<char>| #[trigger]
                        texts(names@).contains(t) <==> has_entry(x.entries@, t),
                    _ => r matches Err(GenApiError::Type(n)) && n@ == name@,
                },
            },
    {
        let key = String::from_str(name);
        let i = match self.find(&key) {
            None => return Err(GenApiError::NodeNotFound(key)),
            Some(i) => i,
        };
        match &self.nodes[i] {
            Node::Enum(x) => {
                let mut names: Vec<String> = Vec::new();
                let mut k: usize = 0;
                while k < x.entries.len()
                    invariant
                        k <= x.entries@.len(),
                        sorted_texts(names@),
                        forall|t: Seq<char>| #[trigger] texts(names@).contains(t) <==> has_entry(x.entries@.take(k as int), t),
                    decreases x.entries@.len() - k,
                {
                    add_sorted(&mut names, &x.entries[k].name);
                    proof {
                        assert forall|t: Seq<char>| #[trigger] texts(names@).contains(t) <==> has_entry(x.entries@.take(k + 1), t) by {
                            if has_entry(x.entries@.take(k + 1), t) {
                                let y = choose|y: int| 0 <= y < x.entries@.take(k + 1).len() && #[trigger] x.entries@.take(k + 1)[y].name@ == t;
                                if y < k {
                                    assert(x.entries@.take(k as int)[y] == x.entries@.take(k + 1)[y]);
                                }
                            }
                            if has_entry(x.entries@.take(k as int), t) {
                                let y = choose|y: int| 0 <= y < x.entries@.take(k as int).len() && #[trigger] x.entries@.take(k as int)[y].name@ == t;
                                assert(x.entries@.take(k + 1)[y] == x.entries@.take(k as int)[y]);
                            }
                            if t == x.entries@[k as int].name@ {
                                assert(x.entries@.take(k + 1)[k as int] == x.entries@[k as int]);
                            }
                        }
                    }
                    k = k + 1;
                }
                proof {
                    assert(x.entries@.take(x.entries@.len() as int) =~= x.entries@);
                }
                Ok(names)
            },
            _ => Err(GenApiError::Type(key)),
        }
    }

    /// Write the raw register value of a floating point feature. `raw` is the value converted
    /// to its register number by the caller (or why it could not be); it is used once the
    /// node is known to be writable and its register resolved.
    pub fn set_float_raw<IO: RegisterIo>(&mut self, name: &str, raw: Result<i64, GenApiError>, io: &IO) -> (r: Result<(), GenApiError>)
        requires
            old(self).valid(),
        ensures
            final(self).valid(),
            frame(*old(self), *final(self)),
            match lookup(old(self).nodes@, name@) {
                None => r matches Err(GenApiError::NodeNotFound(n)) && n@ == name@,
                Some(i) => match old(self).nodes@[i] {
                    Node::Float(x) => (x.access == AccessMode::RO ==> (r matches Err(GenApiError::Access(n)) && n@ == name@))
                        && (r is Ok ==> raw is Ok && written(*old(self), *final(self), name@, i)
                        && (!reach(*old(self), name@, old(self).nodes@.len() as nat).contains(i) ==> (final(self).nodes@[i] matches Node::Float(y)
                        && y.cache.content() == Some(raw->Ok_0)))),
                    _ => r matches Err(GenApiError::Type(n)) && n@ == name@,
                },
            },
            access_refuses(*old(self), name@, NodeTag::Float, true, r),
            r is Ok ==> (lookup(old(self).nodes@, name@) matches Some(i) && old(self).nodes@[i] matches Node::Float(x)
                && exists|a: u64, l: u32|
                #![trigger block_named(*old(self), x.addressing, a, l)]
                block_named(*old(self), x.addressing, a, l) && io.took(a, be_bytes(bits64(raw->Ok_0 as int), l as nat))),
    {
        let key = String::from_str(name);
        let ghost s0 = *self;
        let i = match self.find(&key) {
            None => return Err(GenApiError::NodeNotFound(key)),
            Some(i) => i,
        };
        let access = match &self.nodes[i] {
            Node::Float(x) => x.access,
            _ => return Err(GenApiError::Type(key)),
        };
        match ensure_writable(&access, name) {
            Err(e) => return Err(e),
            Ok(()) => {},
        }
        let d = self.budget();
        match self.ensure_selectors_at(&key, i, io, d) {
            Err(e) => return Err(e),
            Ok(()) => {},
        }
        let ghost s1 = *self;
        let resolved = self.resolve_address_at(&key, i, io, d);
        proof {
            if s1.nodes@[i as int].addressing_of() is Some {
                lemma_refuses_kept(s0, s1, key@, s1.nodes@[i as int].addressing_of()->Some_0, resolved, resolved);
            }
        }
        proof {
            lemma_frame_trans(s0, s1, *self);
            lemma_fills_trans(s0, s1, *self);
            lemma_same_meta_parts(s0.nodes@[i as int], self.nodes@[i as int]);
            lemma_same_meta_parts(s0.nodes@[i as int], s1.nodes@[i as int]);
        }
        let (address, len) = match resolved {
            Err(e) => return Err(e),
            Ok(p) => p,
        };
        proof {
            assert(block_named(s0, s0.nodes@[i as int].addressing_of()->Some_0, address, len));
        }
        let value = match raw {
            Err(e) => return Err(e),
            Ok(v) => v,
        };
        let bytes = match i64_to_bytes(name, value, len) {
            Err(e) => return Err(e),
            Ok(b) => b,
        };
        match io.write(address, bytes.as_slice()) {
            Err(e) => return Err(e),
            Ok(()) => {},
        }
        let ghost s2 = *self;
        self.store_float(i, value);
        let ghost s3 = *self;
        self.invalidate_dependents(&key);
        proof {
            lemma_frame_trans(s0, s2, s3);
            lemma_frame_trans(s0, s3, *self);
            lemma_frame_reach(s0, s3, key@, s0.nodes@.len() as nat);
        }
        Ok(())
    }
}


// ---------------------------------------------------------------------------
// Laws
// ---------------------------------------------------------------------------

/// Law: after a successful write of `value` to the integer node `name`, a node that does
/// not depend on itself, the next read of `name` that succeeds gives `value` back.
pub proof fn lemma_integer_write_then_read(
    m0: NodeMap,
    m1: NodeMap,
    m2: NodeMap,
    name: Seq<char>,
    value: i64,
    r: Result<i64, GenApiError>,
)
    requires
        m0.valid(),
        frame(m0, m1),
        integer_written(m0, m1, name, value, Ok(())),
        integer_read(m1, m2, name, r),
        lookup(m0.nodes@, name) matches Some(i) && !reach(m0, name, m0.nodes@.len() as nat).contains(i),
    ensures
        r matches Ok(v) ==> v == value,
{
    lemma_frame(m0, m1);
}

/// Law: after a successful write of `value` to the boolean node `name`, a node that does
/// not depend on itself, the next read of `name` that succeeds gives `value` back.
pub proof fn lemma_bool_write_then_read(
    m0: NodeMap,
    m1: NodeMap,
    m2: NodeMap,
    name: Seq<char>,
    value: bool,
    r: Result<bool, GenApiError>,
)
    requires
        m0.valid(),
        frame(m0, m1),
        bool_written(m0, m1, name, value, Ok(())),
        bool_read(m1, m2, name, r),
        lookup(m0.nodes@, name) matches Some(i) && !reach(m0, name, m0.nodes@.len() as nat).contains(i),
    ensures
        r matches Ok(v) ==> v == value,
{
    lemma_frame(m0, m1);
}

/// Law: a successful read of the integer node `name` is served again by the next read:
/// that read, when it succeeds, gives the same value.
pub proof fn lemma_integer_read_is_repeated(
    m0: NodeMap,
    m1: NodeMap,
    m2: NodeMap,
    name: Seq<char>,
    r1: Result<i64, GenApiError>,
    r2: Result<i64, GenApiError>,
)
    requires
        m0.valid(),
        frame(m0, m1),
        integer_read(m0, m1, name, r1),
        integer_read(m1, m2, name, r2),
        r1 is Ok,
    ensures
        r2 matches Ok(v) ==> v == r1->Ok_0,
{
    lemma_frame(m0, m1);
}

} // verus!
